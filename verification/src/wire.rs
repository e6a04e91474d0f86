use vstd::prelude::*;
use vstd::utf8::encode_utf8;

use crate::profiler::{frames_view, Event, EventView, Frame, Operation, OperationView};

verus! {

/// The error type of postcard, carried through as it is.
#[verifier::external_type_specification]
#[verifier::external_body]
pub struct ExPostcardError(postcard::Error);

/// The variable-length encoding of an unsigned integer: seven bits to a
/// byte, the lowest seven first, every byte but the last marked by its top
/// bit.
pub open spec fn varint(value: nat) -> Seq<u8>
    decreases value,
{
    if value < 128 {
        seq![value as u8]
    } else {
        seq![(value % 128 + 128) as u8] + varint(value / 128)
    }
}

/// The encoding of a length.
pub open spec fn length_bytes(length: usize) -> Seq<u8> {
    varint(length as nat)
}

/// The encoding of the index of an enum variant.
pub open spec fn variant_bytes(index: u32) -> Seq<u8> {
    varint(index as nat)
}

/// The encoding of a string: the number of its bytes in UTF-8, then those
/// bytes.
pub open spec fn text_bytes(text: Seq<char>) -> Seq<u8> {
    varint(encode_utf8(text).len()) + encode_utf8(text)
}

/// The encoding of a timestamp.
pub open spec fn timestamp_bytes(timestamp: u128) -> Seq<u8> {
    varint(timestamp as nat)
}

/// The length that postcard reads at the front of `bytes`, with the bytes
/// behind it; `None` where it reads none.
pub uninterp spec fn parsed_length(bytes: Seq<u8>) -> Option<(usize, Seq<u8>)>;

/// The variant index that postcard reads at the front of `bytes`, with the
/// bytes behind it; `None` where it reads none.
pub uninterp spec fn parsed_variant(bytes: Seq<u8>) -> Option<(u32, Seq<u8>)>;

/// The string that postcard reads at the front of `bytes`, with the bytes
/// behind it; `None` where it reads none.
pub uninterp spec fn parsed_text(bytes: Seq<u8>) -> Option<(Seq<char>, Seq<u8>)>;

/// The 128-bit unsigned integer that postcard reads at the front of `bytes`,
/// with the bytes behind it; `None` where it reads none.
pub uninterp spec fn parsed_timestamp(bytes: Seq<u8>) -> Option<(u128, Seq<u8>)>;

/// Appends a length in postcard's encoding.
///
/// Trusted: `postcard::to_extend` on a `usize` and a `Vec<u8>`. It extends
/// the vector by the variable-length encoding of the value and cannot fail,
/// as a vector takes every byte.
#[verifier::external_body]
fn put_length(out: Vec<u8>, length: usize) -> (result: Result<Vec<u8>, postcard::Error>)
    ensures
        result is Ok,
        result->Ok_0@ == out@ + length_bytes(length),
{
    postcard::to_extend(&length, out)
}

/// Appends the index of an enum variant in postcard's encoding.
///
/// Trusted: `postcard::to_extend` on a `u32` and a `Vec<u8>`. It extends the
/// vector by the variable-length encoding of the value and cannot fail.
#[verifier::external_body]
fn put_variant(out: Vec<u8>, index: u32) -> (result: Result<Vec<u8>, postcard::Error>)
    ensures
        result is Ok,
        result->Ok_0@ == out@ + variant_bytes(index),
{
    postcard::to_extend(&index, out)
}

/// Appends a string in postcard's encoding.
///
/// Trusted: `postcard::to_extend` on a `str` and a `Vec<u8>`. It extends the
/// vector by the variable-length encoding of the string's length in bytes
/// and then by the bytes of the string, and cannot fail.
#[verifier::external_body]
fn put_text(out: Vec<u8>, text: &str) -> (result: Result<Vec<u8>, postcard::Error>)
    ensures
        result is Ok,
        result->Ok_0@ == out@ + text_bytes(text@),
{
    postcard::to_extend(text, out)
}

/// Appends a timestamp in postcard's encoding.
///
/// Trusted: `postcard::to_extend` on a `u128` and a `Vec<u8>`. It extends
/// the vector by the variable-length encoding of the value and cannot fail.
#[verifier::external_body]
fn put_timestamp(out: Vec<u8>, timestamp: u128) -> (result: Result<Vec<u8>, postcard::Error>)
    ensures
        result is Ok,
        result->Ok_0@ == out@ + timestamp_bytes(timestamp),
{
    postcard::to_extend(&timestamp, out)
}

/// The encoding of an operation: the index of its variant, and for a call
/// the name.
pub open spec fn operation_bytes(op: OperationView) -> Seq<u8> {
    match op {
        OperationView::Call(name) => variant_bytes(0) + text_bytes(name),
        OperationView::Return => variant_bytes(1),
    }
}

/// The encoding of an event: its operation, then its timestamp.
pub open spec fn event_bytes(event: EventView) -> Seq<u8> {
    operation_bytes(event.op) + timestamp_bytes(event.timestamp)
}

/// The encodings of the events, one after the other.
pub open spec fn events_bytes(events: Seq<EventView>) -> Seq<u8>
    decreases events.len(),
{
    if events.len() == 0 {
        Seq::empty()
    } else {
        event_bytes(events.first()) + events_bytes(events.drop_first())
    }
}

/// The encoding of a frame: the number of its events, then the events.
pub open spec fn frame_bytes(events: Seq<EventView>) -> Seq<u8> {
    length_bytes(events.len() as usize) + events_bytes(events)
}

/// The encodings of the frames, one after the other.
pub open spec fn frames_bytes(frames: Seq<Seq<EventView>>) -> Seq<u8>
    decreases frames.len(),
{
    if frames.len() == 0 {
        Seq::empty()
    } else {
        frame_bytes(frames.first()) + frames_bytes(frames.drop_first())
    }
}

/// The encoding of a capture: the number of its frames, then the frames.
pub open spec fn capture_bytes(frames: Seq<Seq<EventView>>) -> Seq<u8> {
    length_bytes(frames.len() as usize) + frames_bytes(frames)
}

/// Encoding one more event appends its encoding.
pub proof fn lemma_events_bytes_push(events: Seq<EventView>, event: EventView)
    ensures
        events_bytes(events.push(event)) == events_bytes(events) + event_bytes(event),
    decreases events.len(),
{
    let longer = events.push(event);
    if events.len() == 0 {
        assert(longer.drop_first() =~= Seq::<EventView>::empty());
        assert(events_bytes(Seq::<EventView>::empty()) =~= Seq::<u8>::empty());
        assert(events_bytes(longer) =~= event_bytes(event));
        assert(events_bytes(events) + event_bytes(event) =~= event_bytes(event));
    } else {
        assert(longer.drop_first() =~= events.drop_first().push(event));
        lemma_events_bytes_push(events.drop_first(), event);
        assert(events_bytes(longer) =~= events_bytes(events) + event_bytes(event));
    }
}

/// Encoding one more frame appends its encoding.
pub proof fn lemma_frames_bytes_push(frames: Seq<Seq<EventView>>, frame: Seq<EventView>)
    ensures
        frames_bytes(frames.push(frame)) == frames_bytes(frames) + frame_bytes(frame),
    decreases frames.len(),
{
    let longer = frames.push(frame);
    if frames.len() == 0 {
        assert(longer.drop_first() =~= Seq::<Seq<EventView>>::empty());
        assert(frames_bytes(Seq::<Seq<EventView>>::empty()) =~= Seq::<u8>::empty());
        assert(frames_bytes(longer) =~= frame_bytes(frame));
        assert(frames_bytes(frames) + frame_bytes(frame) =~= frame_bytes(frame));
    } else {
        assert(longer.drop_first() =~= frames.drop_first().push(frame));
        lemma_frames_bytes_push(frames.drop_first(), frame);
        assert(frames_bytes(longer) =~= frames_bytes(frames) + frame_bytes(frame));
    }
}

/// Appends the encoding of an event.
fn put_event(out: Vec<u8>, event: &Event) -> (result: Result<Vec<u8>, postcard::Error>)
    ensures
        result is Ok,
        result->Ok_0@ == out@ + event_bytes(event@),
{
    let ghost start = out@;
    let out = match event.op {
        Operation::Call(name) => {
            let tagged = put_variant(out, 0)?;
            put_text(tagged, name.as_str())?
        },
        Operation::Return => put_variant(out, 1)?,
    };
    let done = put_timestamp(out, event.timestamp)?;
    assert(done@ =~= start + event_bytes(event@));
    Ok(done)
}

/// Appends the encoding of a frame.
fn put_frame(out: Vec<u8>, frame: &Frame) -> (result: Result<Vec<u8>, postcard::Error>)
    ensures
        result is Ok,
        result->Ok_0@ == out@ + frame_bytes(frame@),
{
    let ghost start = out@;
    let mut out = put_length(out, frame.calls.len())?;
    let mut j: usize = 0;
    assert(out@ =~= start + length_bytes(frame@.len() as usize) + events_bytes(frame@.take(0)));
    while j < frame.calls.len()
        invariant
            j <= frame@.len(),
            frame@.len() == frame.calls@.len(),
            out@ == start + length_bytes(frame@.len() as usize) + events_bytes(
                frame@.take(j as int),
            ),
        decreases frame@.len() - j,
    {
        proof {
            assert(frame@.take(j + 1) =~= frame@.take(j as int).push(frame.calls@[j as int]@));
            lemma_events_bytes_push(frame@.take(j as int), frame.calls@[j as int]@);
        }
        out = put_event(out, &frame.calls[j])?;
        j += 1;
    }
    assert(frame@.take(j as int) =~= frame@);
    assert(out@ =~= start + frame_bytes(frame@));
    Ok(out)
}

/// The encoding of a capture.
pub fn encode_frames(frames: &Vec<Frame>) -> (result: Result<Vec<u8>, postcard::Error>)
    ensures
        result is Ok,
        result->Ok_0@ == capture_bytes(frames_view(frames@)),
        encodable(frames_view(frames@)),
{
    let ghost all = frames_view(frames@);
    let mut out = put_length(Vec::new(), frames.len())?;
    let mut i: usize = 0;
    assert(out@ =~= length_bytes(all.len() as usize) + frames_bytes(all.take(0)));
    while i < frames.len()
        invariant
            i <= all.len(),
            all == frames_view(frames@),
            all.len() == frames@.len(),
            out@ == length_bytes(all.len() as usize) + frames_bytes(all.take(i as int)),
        decreases all.len() - i,
    {
        proof {
            assert(all.take(i + 1) =~= all.take(i as int).push(frames@[i as int]@));
            lemma_frames_bytes_push(all.take(i as int), frames@[i as int]@);
        }
        out = put_frame(out, &frames[i])?;
        i += 1;
    }
    proof {
        assert(all.take(i as int) =~= all);
        assert forall|m: int| 0 <= m < all.len() implies (#[trigger] all[m]).len()
            <= usize::MAX by {
            assert(all[m].len() == frames@[m].calls.len());
        }
    }
    Ok(out)
}

/// Reads a length in postcard's encoding from the front of `bytes`.
///
/// Trusted: `postcard::take_from_bytes` for `usize`. It hands back the value
/// with the bytes that it did not use, and it reads back what `to_extend`
/// wrote for a `usize`, whatever follows.
#[verifier::external_body]
fn take_length<'a>(bytes: &'a [u8]) -> (result: Result<(usize, &'a [u8]), postcard::Error>)
    ensures
        match result {
            Ok((length, rest)) => parsed_length(bytes@) == Some((length, rest@)),
            Err(_) => parsed_length(bytes@) is None,
        },
        forall|length: usize, tail: Seq<u8>|
            bytes@ == #[trigger] (length_bytes(length) + tail) ==> result is Ok
                && result->Ok_0.0 == length && result->Ok_0.1@ == tail,
{
    postcard::take_from_bytes::<usize>(bytes)
}

/// Reads the index of an enum variant in postcard's encoding from the front
/// of `bytes`.
///
/// Trusted: `postcard::take_from_bytes` for `u32`. It hands back the value
/// with the bytes that it did not use, and it reads back what `to_extend`
/// wrote for a `u32`, whatever follows.
#[verifier::external_body]
fn take_variant<'a>(bytes: &'a [u8]) -> (result: Result<(u32, &'a [u8]), postcard::Error>)
    ensures
        match result {
            Ok((index, rest)) => parsed_variant(bytes@) == Some((index, rest@)),
            Err(_) => parsed_variant(bytes@) is None,
        },
        forall|index: u32, tail: Seq<u8>|
            bytes@ == #[trigger] (variant_bytes(index) + tail) ==> result is Ok
                && result->Ok_0.0 == index && result->Ok_0.1@ == tail,
{
    postcard::take_from_bytes::<u32>(bytes)
}

/// Reads a string in postcard's encoding from the front of `bytes`, without
/// copying it.
///
/// Trusted: `postcard::take_from_bytes` for `&str`. It hands back the string
/// with the bytes that it did not use, and it reads back what `to_extend`
/// wrote for a `str`, whatever follows.
#[verifier::external_body]
fn take_text<'a>(bytes: &'a [u8]) -> (result: Result<(&'a str, &'a [u8]), postcard::Error>)
    ensures
        match result {
            Ok((text, rest)) => parsed_text(bytes@) == Some((text@, rest@)),
            Err(_) => parsed_text(bytes@) is None,
        },
        forall|text: Seq<char>, tail: Seq<u8>|
            bytes@ == #[trigger] (text_bytes(text) + tail) ==> result is Ok
                && result->Ok_0.0@ == text && result->Ok_0.1@ == tail,
{
    postcard::take_from_bytes::<&str>(bytes)
}

/// Reads a timestamp in postcard's encoding from the front of `bytes`.
///
/// Trusted: `postcard::take_from_bytes` for `u128`. It hands back the value
/// with the bytes that it did not use, and it reads back what `to_extend`
/// wrote for a `u128`, whatever follows.
#[verifier::external_body]
fn take_timestamp<'a>(bytes: &'a [u8]) -> (result: Result<(u128, &'a [u8]), postcard::Error>)
    ensures
        match result {
            Ok((timestamp, rest)) => parsed_timestamp(bytes@) == Some((timestamp, rest@)),
            Err(_) => parsed_timestamp(bytes@) is None,
        },
        forall|timestamp: u128, tail: Seq<u8>|
            bytes@ == #[trigger] (timestamp_bytes(timestamp) + tail) ==> result is Ok
                && result->Ok_0.0 == timestamp && result->Ok_0.1@ == tail,
{
    postcard::take_from_bytes::<u128>(bytes)
}

/// The error for a variant index that names no operation.
///
/// Trusted: `serde::de::Error::invalid_value` on postcard's error type, the
/// error with which a derived enum refuses such an index.
#[verifier::external_body]
fn unknown_variant(index: u32) -> postcard::Error {
    serde::de::Error::invalid_value(
        serde::de::Unexpected::Unsigned(index as u64),
        &"variant index 0 <= i < 2",
    )
}

/// The operation read at the front of `bytes`, with the bytes behind it.
/// Index 0 is a call and is followed by the name; index 1 is a return; no
/// other index is an operation.
pub open spec fn parsed_operation(bytes: Seq<u8>) -> Option<(OperationView, Seq<u8>)> {
    match parsed_variant(bytes) {
        Some((index, rest)) => if index == 0 {
            match parsed_text(rest) {
                Some((name, rest)) => Some((OperationView::Call(name), rest)),
                None => None,
            }
        } else if index == 1 {
            Some((OperationView::Return, rest))
        } else {
            None
        },
        None => None,
    }
}

/// The event read at the front of `bytes`, with the bytes behind it.
pub open spec fn parsed_event(bytes: Seq<u8>) -> Option<(EventView, Seq<u8>)> {
    match parsed_operation(bytes) {
        Some((op, rest)) => match parsed_timestamp(rest) {
            Some((timestamp, rest)) => Some((EventView { op, timestamp }, rest)),
            None => None,
        },
        None => None,
    }
}

/// What was read, with `first` put in front of it.
pub open spec fn after<T>(first: Seq<T>, read: Option<(Seq<T>, Seq<u8>)>) -> Option<
    (Seq<T>, Seq<u8>),
> {
    match read {
        Some((items, rest)) => Some((first + items, rest)),
        None => None,
    }
}

/// The `count` events read one after the other at the front of `bytes`, with
/// the bytes behind them.
pub open spec fn parsed_events(bytes: Seq<u8>, count: nat) -> Option<(Seq<EventView>, Seq<u8>)>
    decreases count,
{
    if count == 0 {
        Some((Seq::empty(), bytes))
    } else {
        match parsed_event(bytes) {
            Some((event, rest)) => after(seq![event], parsed_events(rest, (count - 1) as nat)),
            None => None,
        }
    }
}

/// The frame read at the front of `bytes`, with the bytes behind it.
pub open spec fn parsed_frame(bytes: Seq<u8>) -> Option<(Seq<EventView>, Seq<u8>)> {
    match parsed_length(bytes) {
        Some((count, rest)) => parsed_events(rest, count as nat),
        None => None,
    }
}

/// The `count` frames read one after the other at the front of `bytes`, with
/// the bytes behind them.
pub open spec fn parsed_frames(bytes: Seq<u8>, count: nat) -> Option<
    (Seq<Seq<EventView>>, Seq<u8>),
>
    decreases count,
{
    if count == 0 {
        Some((Seq::empty(), bytes))
    } else {
        match parsed_frame(bytes) {
            Some((frame, rest)) => after(seq![frame], parsed_frames(rest, (count - 1) as nat)),
            None => None,
        }
    }
}

/// The capture read at the front of `bytes`; what follows it is ignored.
pub open spec fn parsed_capture(bytes: Seq<u8>) -> Option<Seq<Seq<EventView>>> {
    match parsed_length(bytes) {
        Some((count, rest)) => match parsed_frames(rest, count as nat) {
            Some((frames, _)) => Some(frames),
            None => None,
        },
        None => None,
    }
}

/// `bytes` is the encoding of `event`, then `tail`.
pub open spec fn event_then(bytes: Seq<u8>, event: EventView, tail: Seq<u8>) -> bool {
    bytes == event_bytes(event) + tail
}

/// `bytes` is the encodings of `events`, then `tail`.
pub open spec fn events_then(bytes: Seq<u8>, events: Seq<EventView>, tail: Seq<u8>) -> bool {
    bytes == events_bytes(events) + tail
}

/// `bytes` is the encoding of a frame of `events`, then `tail`.
pub open spec fn frame_then(bytes: Seq<u8>, events: Seq<EventView>, tail: Seq<u8>) -> bool {
    events.len() <= usize::MAX && bytes == frame_bytes(events) + tail
}

/// No frame has more events than a `usize` counts.
pub open spec fn frames_sized(frames: Seq<Seq<EventView>>) -> bool {
    forall|i: int| 0 <= i < frames.len() ==> (#[trigger] frames[i]).len() <= usize::MAX
}

/// `bytes` is the encodings of `frames`, then `tail`.
pub open spec fn frames_then(bytes: Seq<u8>, frames: Seq<Seq<EventView>>, tail: Seq<u8>) -> bool {
    frames_sized(frames) && bytes == frames_bytes(frames) + tail
}

/// The capture has no more frames, and no frame more events, than a `usize`
/// counts; so it is with every capture in memory.
pub open spec fn encodable(frames: Seq<Seq<EventView>>) -> bool {
    frames.len() <= usize::MAX && frames_sized(frames)
}

/// `bytes` is the encoding of the capture `frames`, then `tail`.
pub open spec fn capture_then(bytes: Seq<u8>, frames: Seq<Seq<EventView>>, tail: Seq<u8>) -> bool {
    encodable(frames) && bytes == capture_bytes(frames) + tail
}

/// An event as it is read, its name still part of the bytes it came from.
pub struct RawEvent<'a> {
    pub name: Option<&'a str>,
    pub timestamp: u128,
}

impl<'a> View for RawEvent<'a> {
    type V = EventView;

    open spec fn view(&self) -> EventView {
        EventView {
            op: match self.name {
                Some(name) => OperationView::Call(name@),
                None => OperationView::Return,
            },
            timestamp: self.timestamp,
        }
    }
}

/// The views of a sequence of raw events, in order.
pub open spec fn raw_events_view<'a>(events: Seq<RawEvent<'a>>) -> Seq<EventView> {
    events.map_values(|e: RawEvent<'a>| e@)
}

/// The views of a sequence of raw frames, in order.
pub open spec fn raw_frames_view<'a>(frames: Seq<Vec<RawEvent<'a>>>) -> Seq<Seq<EventView>> {
    frames.map_values(|f: Vec<RawEvent<'a>>| raw_events_view(f@))
}

/// Reads one event from the front of `bytes`.
fn take_event<'a>(bytes: &'a [u8]) -> (result: Result<(RawEvent<'a>, &'a [u8]), postcard::Error>)
    ensures
        match result {
            Ok((event, rest)) => parsed_event(bytes@) == Some((event@, rest@)),
            Err(_) => parsed_event(bytes@) is None,
        },
        forall|event: EventView, tail: Seq<u8>| #[trigger]
            event_then(bytes@, event, tail) ==> result is Ok && result->Ok_0.0@ == event
                && result->Ok_0.1@ == tail,
{
    proof {
        assert forall|event: EventView, tail: Seq<u8>| #[trigger]
            event_then(bytes@, event, tail) implies match event.op {
            OperationView::Call(name) => bytes@ == variant_bytes(0) + (text_bytes(name)
                + timestamp_bytes(event.timestamp) + tail),
            OperationView::Return => bytes@ == variant_bytes(1) + (timestamp_bytes(
                event.timestamp,
            ) + tail),
        } by {
            match event.op {
                OperationView::Call(name) => {
                    assert(bytes@ =~= variant_bytes(0) + (text_bytes(name) + timestamp_bytes(
                        event.timestamp,
                    ) + tail));
                },
                OperationView::Return => {
                    assert(bytes@ =~= variant_bytes(1) + (timestamp_bytes(event.timestamp)
                        + tail));
                },
            }
        }
    }
    let (index, rest) = take_variant(bytes)?;
    let ghost behind_index = rest@;
    proof {
        assert forall|event: EventView, tail: Seq<u8>| #[trigger]
            event_then(bytes@, event, tail) implies match event.op {
            OperationView::Call(name) => index == 0 && behind_index == text_bytes(name) + (
            timestamp_bytes(event.timestamp) + tail),
            OperationView::Return => index == 1 && behind_index == timestamp_bytes(
                event.timestamp,
            ) + tail,
        } by {
            match event.op {
                OperationView::Call(name) => {
                    assert(text_bytes(name) + timestamp_bytes(event.timestamp) + tail
                        =~= text_bytes(name) + (timestamp_bytes(event.timestamp) + tail));
                },
                OperationView::Return => {},
            }
        }
    }
    let (name, rest) = if index == 0 {
        let (name, rest) = take_text(rest)?;
        (Some(name), rest)
    } else if index == 1 {
        (None, rest)
    } else {
        return Err(unknown_variant(index));
    };
    let ghost middle = rest@;
    proof {
        assert forall|event: EventView, tail: Seq<u8>| #[trigger]
            event_then(bytes@, event, tail) implies middle == timestamp_bytes(event.timestamp)
            + tail && event.op == (RawEvent { name, timestamp: 0 })@.op by {
            match event.op {
                OperationView::Call(text) => {
                    assert(behind_index == text_bytes(text) + (timestamp_bytes(event.timestamp)
                        + tail));
                },
                OperationView::Return => {},
            }
        }
    }
    let (timestamp, rest) = take_timestamp(rest)?;
    Ok((RawEvent { name, timestamp }, rest))
}

/// Reads `count` events from the front of `bytes`.
fn take_events<'a>(bytes: &'a [u8], count: usize) -> (result: Result<
    (Vec<RawEvent<'a>>, &'a [u8]),
    postcard::Error,
>)
    ensures
        match result {
            Ok((events, rest)) => parsed_events(bytes@, count as nat) == Some(
                (raw_events_view(events@), rest@),
            ),
            Err(_) => parsed_events(bytes@, count as nat) is None,
        },
        forall|events: Seq<EventView>, tail: Seq<u8>| #[trigger]
            events_then(bytes@, events, tail) && events.len() == count ==> result is Ok
                && raw_events_view(result->Ok_0.0@) == events && result->Ok_0.1@ == tail,
{
    let mut done: Vec<RawEvent<'a>> = Vec::new();
    let mut rest = bytes;
    let mut k: usize = 0;
    proof {
        assert(after(raw_events_view(done@), parsed_events(rest@, count as nat))
            =~= parsed_events(bytes@, count as nat)) by {
            match parsed_events(rest@, count as nat) {
                Some((items, r)) => {
                    assert(raw_events_view(done@) + items =~= items);
                },
                None => {},
            }
        }
        assert forall|events: Seq<EventView>, tail: Seq<u8>| #[trigger]
            events_then(bytes@, events, tail) && events.len() == count implies raw_events_view(
            done@,
        ) == events.take(0) && events_then(rest@, events.skip(0), tail) by {
            assert(events.skip(0) =~= events);
            assert(raw_events_view(done@) =~= events.take(0));
        }
    }
    while k < count
        invariant
            k <= count,
            done@.len() == k,
            parsed_events(bytes@, count as nat) == after(
                raw_events_view(done@),
                parsed_events(rest@, (count - k) as nat),
            ),
            forall|events: Seq<EventView>, tail: Seq<u8>| #[trigger]
                events_then(bytes@, events, tail) && events.len() == count ==> raw_events_view(
                    done@,
                ) == events.take(k as int) && events_then(rest@, events.skip(k as int), tail),
        decreases count - k,
    {
        let ghost before = rest@;
        let ghost read = raw_events_view(done@);
        proof {
            assert forall|events: Seq<EventView>, tail: Seq<u8>| #[trigger]
                events_then(bytes@, events, tail) && events.len() == count implies event_then(
                before,
                events[k as int],
                events_bytes(events.skip(k + 1)) + tail,
            ) by {
                let left = events.skip(k as int);
                assert(events_then(before, left, tail));
                assert(left.drop_first() =~= events.skip(k + 1));
                assert(left.first() == events[k as int]);
                assert(before =~= event_bytes(events[k as int]) + (events_bytes(
                    events.skip(k + 1),
                ) + tail));
            }
        }
        let (event, behind) = match take_event(rest) {
            Ok(read) => read,
            Err(e) => {
                return Err(e);
            },
        };
        rest = behind;
        done.push(event);
        k += 1;
        proof {
            assert(raw_events_view(done@) =~= read.push(event@));
            let further = parsed_events(rest@, (count - k) as nat);
            assert(after(read, after(seq![event@], further)) =~= after(
                raw_events_view(done@),
                further,
            )) by {
                match further {
                    Some((items, r)) => {
                        assert(read + (seq![event@] + items) =~= read.push(event@) + items);
                    },
                    None => {},
                }
            }
            assert forall|events: Seq<EventView>, tail: Seq<u8>| #[trigger]
                events_then(bytes@, events, tail) && events.len() == count implies raw_events_view(
                done@,
            ) == events.take(k as int) && events_then(rest@, events.skip(k as int), tail) by {
                assert(event_then(
                    before,
                    events[k - 1],
                    events_bytes(events.skip(k as int)) + tail,
                ));
                assert(raw_events_view(done@) =~= events.take(k as int));
            }
        }
    }
    proof {
        assert(after(raw_events_view(done@), parsed_events(rest@, 0)) =~= Some(
            (raw_events_view(done@), rest@),
        )) by {
            assert(raw_events_view(done@) + Seq::<EventView>::empty() =~= raw_events_view(done@));
        }
        assert forall|events: Seq<EventView>, tail: Seq<u8>| #[trigger]
            events_then(bytes@, events, tail) && events.len() == count implies raw_events_view(
            done@,
        ) == events && rest@ == tail by {
            assert(events.take(k as int) =~= events);
            assert(events.skip(k as int) =~= Seq::<EventView>::empty());
            assert(events_bytes(events.skip(k as int)) + tail =~= tail);
        }
    }
    Ok((done, rest))
}

/// Reads one frame from the front of `bytes`: the number of its events,
/// then the events.
fn take_frame<'a>(bytes: &'a [u8]) -> (result: Result<
    (Vec<RawEvent<'a>>, &'a [u8]),
    postcard::Error,
>)
    ensures
        match result {
            Ok((events, rest)) => parsed_frame(bytes@) == Some((raw_events_view(events@), rest@)),
            Err(_) => parsed_frame(bytes@) is None,
        },
        forall|events: Seq<EventView>, tail: Seq<u8>| #[trigger]
            frame_then(bytes@, events, tail) ==> result is Ok && raw_events_view(
                result->Ok_0.0@,
            ) == events && result->Ok_0.1@ == tail,
{
    proof {
        assert forall|events: Seq<EventView>, tail: Seq<u8>| #[trigger]
            frame_then(bytes@, events, tail) implies bytes@ == length_bytes(
            events.len() as usize,
        ) + (events_bytes(events) + tail) by {
            assert(bytes@ =~= length_bytes(events.len() as usize) + (events_bytes(events)
                + tail));
        }
    }
    let (count, rest) = take_length(bytes)?;
    proof {
        assert forall|events: Seq<EventView>, tail: Seq<u8>| #[trigger]
            frame_then(bytes@, events, tail) implies events_then(rest@, events, tail)
            && events.len() == count by {
            assert(bytes@ == length_bytes(events.len() as usize) + (events_bytes(events) + tail));
        }
    }
    take_events(rest, count)
}

/// Reads `count` frames from the front of `bytes`.
fn take_frames<'a>(bytes: &'a [u8], count: usize) -> (result: Result<
    (Vec<Vec<RawEvent<'a>>>, &'a [u8]),
    postcard::Error,
>)
    ensures
        match result {
            Ok((frames, rest)) => parsed_frames(bytes@, count as nat) == Some(
                (raw_frames_view(frames@), rest@),
            ),
            Err(_) => parsed_frames(bytes@, count as nat) is None,
        },
        forall|frames: Seq<Seq<EventView>>, tail: Seq<u8>| #[trigger]
            frames_then(bytes@, frames, tail) && frames.len() == count ==> result is Ok
                && raw_frames_view(result->Ok_0.0@) == frames && result->Ok_0.1@ == tail,
{
    let mut done: Vec<Vec<RawEvent<'a>>> = Vec::new();
    let mut rest = bytes;
    let mut k: usize = 0;
    proof {
        assert(after(raw_frames_view(done@), parsed_frames(rest@, count as nat))
            =~= parsed_frames(bytes@, count as nat)) by {
            match parsed_frames(rest@, count as nat) {
                Some((items, r)) => {
                    assert(raw_frames_view(done@) + items =~= items);
                },
                None => {},
            }
        }
        assert forall|frames: Seq<Seq<EventView>>, tail: Seq<u8>| #[trigger]
            frames_then(bytes@, frames, tail) && frames.len() == count implies raw_frames_view(
            done@,
        ) == frames.take(0) && frames_then(rest@, frames.skip(0), tail) by {
            assert(frames.skip(0) =~= frames);
            assert(raw_frames_view(done@) =~= frames.take(0));
        }
    }
    while k < count
        invariant
            k <= count,
            done@.len() == k,
            parsed_frames(bytes@, count as nat) == after(
                raw_frames_view(done@),
                parsed_frames(rest@, (count - k) as nat),
            ),
            forall|frames: Seq<Seq<EventView>>, tail: Seq<u8>| #[trigger]
                frames_then(bytes@, frames, tail) && frames.len() == count ==> raw_frames_view(
                    done@,
                ) == frames.take(k as int) && frames_then(rest@, frames.skip(k as int), tail),
        decreases count - k,
    {
        let ghost before = rest@;
        let ghost read = raw_frames_view(done@);
        proof {
            assert forall|frames: Seq<Seq<EventView>>, tail: Seq<u8>| #[trigger]
                frames_then(bytes@, frames, tail) && frames.len() == count implies frame_then(
                before,
                frames[k as int],
                frames_bytes(frames.skip(k + 1)) + tail,
            ) by {
                let left = frames.skip(k as int);
                assert(frames_then(before, left, tail));
                assert(left.drop_first() =~= frames.skip(k + 1));
                assert(left.first() == frames[k as int]);
                assert(before =~= frame_bytes(frames[k as int]) + (frames_bytes(
                    frames.skip(k + 1),
                ) + tail));
            }
        }
        let (frame, behind) = match take_frame(rest) {
            Ok(read) => read,
            Err(e) => {
                return Err(e);
            },
        };
        rest = behind;
        let ghost frame_view = raw_events_view(frame@);
        done.push(frame);
        k += 1;
        proof {
            assert(raw_frames_view(done@) =~= read.push(frame_view));
            let further = parsed_frames(rest@, (count - k) as nat);
            assert(after(read, after(seq![frame_view], further)) =~= after(
                raw_frames_view(done@),
                further,
            )) by {
                match further {
                    Some((items, r)) => {
                        assert(read + (seq![frame_view] + items) =~= read.push(frame_view)
                            + items);
                    },
                    None => {},
                }
            }
            assert forall|frames: Seq<Seq<EventView>>, tail: Seq<u8>| #[trigger]
                frames_then(bytes@, frames, tail) && frames.len() == count implies raw_frames_view(
                done@,
            ) == frames.take(k as int) && frames_then(rest@, frames.skip(k as int), tail) by {
                assert(frame_then(
                    before,
                    frames[k - 1],
                    frames_bytes(frames.skip(k as int)) + tail,
                ));
                assert(raw_frames_view(done@) =~= frames.take(k as int));
                assert(frames_sized(frames.skip(k as int)));
            }
        }
    }
    proof {
        assert(after(raw_frames_view(done@), parsed_frames(rest@, 0)) =~= Some(
            (raw_frames_view(done@), rest@),
        )) by {
            assert(raw_frames_view(done@) + Seq::<Seq<EventView>>::empty() =~= raw_frames_view(
                done@,
            ));
        }
        assert forall|frames: Seq<Seq<EventView>>, tail: Seq<u8>| #[trigger]
            frames_then(bytes@, frames, tail) && frames.len() == count implies raw_frames_view(
            done@,
        ) == frames && rest@ == tail by {
            assert(frames.take(k as int) =~= frames);
            assert(frames.skip(k as int) =~= Seq::<Seq<EventView>>::empty());
            assert(frames_bytes(frames.skip(k as int)) + tail =~= tail);
        }
    }
    Ok((done, rest))
}

/// Reads a capture from the front of `bytes`, its names still part of
/// `bytes`. Bytes behind the capture are ignored.
pub fn decode_frames<'a>(bytes: &'a [u8]) -> (result: Result<
    Vec<Vec<RawEvent<'a>>>,
    postcard::Error,
>)
    ensures
        match result {
            Ok(frames) => parsed_capture(bytes@) == Some(raw_frames_view(frames@)),
            Err(_) => parsed_capture(bytes@) is None,
        },
        forall|frames: Seq<Seq<EventView>>, tail: Seq<u8>| #[trigger]
            capture_then(bytes@, frames, tail) ==> result is Ok && raw_frames_view(result->Ok_0@)
                == frames,
{
    proof {
        assert forall|frames: Seq<Seq<EventView>>, tail: Seq<u8>| #[trigger]
            capture_then(bytes@, frames, tail) implies bytes@ == length_bytes(
            frames.len() as usize,
        ) + (frames_bytes(frames) + tail) by {
            assert(bytes@ =~= length_bytes(frames.len() as usize) + (frames_bytes(frames)
                + tail));
        }
    }
    let (count, rest) = take_length(bytes)?;
    proof {
        assert forall|frames: Seq<Seq<EventView>>, tail: Seq<u8>| #[trigger]
            capture_then(bytes@, frames, tail) implies frames_then(rest@, frames, tail)
            && frames.len() == count by {
            assert(bytes@ == length_bytes(frames.len() as usize) + (frames_bytes(frames) + tail));
        }
    }
    let (frames, _) = take_frames(rest, count)?;
    Ok(frames)
}

} // verus!
