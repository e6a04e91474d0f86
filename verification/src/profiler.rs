use std::time::{Duration, Instant};

use vstd::prelude::*;

use crate::analysis::global::{analysis_of, GlobalAnalyzer};
use crate::analysis::replay::{all_well_nested, analyzable, capture_spans, fits};
use crate::analysis::report::report_text;
use crate::analysis::{AnalysisError, FrameAnalyzer, Sort, Unit};
use crate::serialization::{
    capture_names, extends, frames_canonical, intern_frames, register_all, texts_of, StaticStr,
    StaticStrVisitor,
};
use crate::wire::{
    capture_bytes, capture_then, decode_frames, encodable, encode_frames, parsed_capture,
};

verus! {

/// What an event records: entering the named function, or leaving the
/// function entered last.
#[derive(Clone, Copy, Debug)]
pub enum Operation {
    Call(StaticStr),
    Return,
}

/// The mathematical value of an [`Operation`].
pub enum OperationView {
    Call(Seq<char>),
    Return,
}

impl View for Operation {
    type V = OperationView;

    open spec fn view(&self) -> OperationView {
        match *self {
            Operation::Call(name) => OperationView::Call(name@),
            Operation::Return => OperationView::Return,
        }
    }
}

/// One recorded operation with the nanoseconds since the capture started.
#[derive(Clone, Copy, Debug)]
pub struct Event {
    pub op: Operation,
    pub timestamp: u128,
}

/// The mathematical value of an [`Event`].
pub struct EventView {
    pub op: OperationView,
    pub timestamp: u128,
}

impl View for Event {
    type V = EventView;

    open spec fn view(&self) -> EventView {
        EventView { op: self.op@, timestamp: self.timestamp }
    }
}

/// The views of a sequence of events, in order.
pub open spec fn events_view(events: Seq<Event>) -> Seq<EventView> {
    events.map_values(|e: Event| e@)
}

/// One sealed capture window: the events recorded in it, in order.
#[derive(Debug)]
pub struct Frame {
    pub calls: Vec<Event>,
}

impl View for Frame {
    type V = Seq<EventView>;

    open spec fn view(&self) -> Seq<EventView> {
        events_view(self.calls@)
    }
}

/// The views of a sequence of frames, in order.
pub open spec fn frames_view(frames: Seq<Frame>) -> Seq<Seq<EventView>> {
    frames.map_values(|f: Frame| f@)
}

/// A finished capture: the sealed frames of one thread, oldest first.
#[derive(Debug)]
pub struct Frames(pub Vec<Frame>);

impl View for Frames {
    type V = Seq<Seq<EventView>>;

    open spec fn view(&self) -> Seq<Seq<EventView>> {
        frames_view(self.0@)
    }
}

/// A reading of the monotonic clock.
#[verifier::external_type_specification]
#[verifier::external_body]
pub struct ExInstant(Instant);

/// `Instant::now` reads the monotonic clock. Nothing is known of the reading.
pub assume_specification[ Instant::now ]() -> (reading: Instant);

/// `Instant::elapsed` is the time from the instant to now. Nothing is known
/// of it.
pub assume_specification[ Instant::elapsed ](origin: &Instant) -> (since: Duration);

/// `Duration::as_nanos` is the duration in whole nanoseconds.
pub assume_specification[ Duration::as_nanos ](span: &Duration) -> (nanos: u128);

/// Why a capture could not be encoded or decoded.
#[derive(Debug)]
pub enum ProfilerError {
    /// The bytes are not the encoding of a capture; the cause is kept.
    SerializationError(postcard::Error),
}

/// How many events the first buffer of a new profiler is sized for.
pub const INITIAL_CAPACITY: usize = 33_554_432;

/// The capacity for the buffer that follows a frame of `len` events which
/// outgrew its buffer: one and a half times `len`, rounded up, and no more
/// than a `usize` holds.
pub open spec fn grown_capacity(len: nat) -> nat {
    if (3 * len + 1) / 2 <= usize::MAX {
        (3 * len + 1) / 2
    } else {
        usize::MAX as nat
    }
}

/// The capacity for the buffer that follows a frame of `len` events.
pub open spec fn next_capacity(capacity: nat, len: nat) -> nat {
    if len > capacity {
        grown_capacity(len)
    } else {
        capacity
    }
}

/// Buffer growth: sealing never makes the next buffer smaller; and where
/// the sealed frame outgrew its buffer, the next buffer holds the frame and
/// is sized for at least one and a half times its events, unless that is
/// more than a `usize` holds.
pub proof fn lemma_capacity_grows(capacity: nat, len: nat)
    requires
        capacity <= usize::MAX,
        len <= usize::MAX,
    ensures
        next_capacity(capacity, len) >= capacity,
        next_capacity(capacity, len) <= usize::MAX,
        len > capacity ==> next_capacity(capacity, len) >= len,
        len > capacity && 3 * len + 1 <= 2 * usize::MAX ==> 2 * next_capacity(capacity, len) >= 3
            * len,
        len > capacity && 3 * len + 1 <= 2 * usize::MAX ==> 2 * next_capacity(capacity, len) <= 3
            * len + 1,
{
}

/// The event buffer of one thread: the sealed frames and the frame in
/// progress.
pub struct Profiler {
    initial_time: Instant,
    starting_capacity: usize,
    frames: Vec<Frame>,
    current_frame: Vec<Event>,
}

/// The mathematical value of a [`Profiler`]: what it has recorded and how it
/// sizes its buffers. Its origin of time is [`Profiler::origin`].
pub struct ProfilerView {
    /// The number of events that the next buffer is sized for.
    pub capacity: nat,
    /// The sealed frames, oldest first.
    pub frames: Seq<Seq<EventView>>,
    /// The events of the frame in progress.
    pub current: Seq<EventView>,
}

impl View for Profiler {
    type V = ProfilerView;

    closed spec fn view(&self) -> ProfilerView {
        ProfilerView {
            capacity: self.starting_capacity as nat,
            frames: frames_view(self.frames@),
            current: events_view(self.current_frame@),
        }
    }
}

/// The event that the function `name` is entered at `timestamp`.
pub open spec fn call_event(name: Seq<char>, timestamp: u128) -> EventView {
    EventView { op: OperationView::Call(name), timestamp }
}

/// The event that the function entered last is left at `timestamp`.
pub open spec fn return_event(timestamp: u128) -> EventView {
    EventView { op: OperationView::Return, timestamp }
}

/// The profiler after one more event.
pub open spec fn recorded(before: ProfilerView, event: EventView) -> ProfilerView {
    ProfilerView { current: before.current.push(event), ..before }
}

/// The profiler after its frame in progress is sealed.
pub open spec fn sealed(before: ProfilerView) -> ProfilerView {
    ProfilerView {
        capacity: next_capacity(before.capacity, before.current.len()),
        frames: before.frames.push(before.current),
        current: Seq::empty(),
    }
}

impl Default for Profiler {
    /// An empty profiler whose origin of time is now and whose first buffer
    /// is not sized.
    fn default() -> (profiler: Profiler)
        ensures
            profiler@ == (ProfilerView {
                capacity: 0,
                frames: Seq::empty(),
                current: Seq::empty(),
            }),
    {
        let profiler = Profiler {
            initial_time: Instant::now(),
            starting_capacity: 0,
            frames: Vec::new(),
            current_frame: Vec::new(),
        };
        assert(profiler@.frames =~= Seq::empty());
        assert(profiler@.current =~= Seq::empty());
        profiler
    }
}

impl Profiler {
    /// The origin of time: the reading of the clock when the profiler was
    /// made. Every timestamp that the profiler takes itself counts from it.
    pub closed spec fn origin(&self) -> Instant {
        self.initial_time
    }

    /// An empty profiler whose origin of time is now and whose first buffer
    /// is sized for [`INITIAL_CAPACITY`] events.
    pub fn new() -> (profiler: Profiler)
        ensures
            profiler@ == (ProfilerView {
                capacity: INITIAL_CAPACITY as nat,
                frames: Seq::empty(),
                current: Seq::empty(),
            }),
    {
        let profiler = Profiler {
            initial_time: Instant::now(),
            starting_capacity: INITIAL_CAPACITY,
            frames: Vec::new(),
            current_frame: Vec::with_capacity(INITIAL_CAPACITY),
        };
        assert(profiler@.frames =~= Seq::empty());
        assert(profiler@.current =~= Seq::empty());
        profiler
    }

    /// The number of events that the next buffer is sized for.
    pub fn capacity(&self) -> (capacity: usize)
        ensures
            capacity == self@.capacity,
    {
        self.starting_capacity
    }

    /// Records at `timestamp` that the function `name` is entered. The
    /// origin of time stays.
    pub fn call_at(&mut self, name: &'static str, timestamp: u128)
        ensures
            final(self)@ == recorded(old(self)@, call_event(name@, timestamp)),
            final(self).origin() == old(self).origin(),
    {
        let event = Event { op: Operation::Call(StaticStr(name)), timestamp };
        self.current_frame.push(event);
        assert(events_view(self.current_frame@) =~= events_view(old(self).current_frame@).push(
            event@,
        ));
    }

    /// Records at `timestamp` that the function entered last is left. The
    /// origin of time stays.
    pub fn ret_at(&mut self, timestamp: u128)
        ensures
            final(self)@ == recorded(old(self)@, return_event(timestamp)),
            final(self).origin() == old(self).origin(),
    {
        let event = Event { op: Operation::Return, timestamp };
        self.current_frame.push(event);
        assert(events_view(self.current_frame@) =~= events_view(old(self).current_frame@).push(
            event@,
        ));
    }

    /// The nanoseconds since this profiler was made.
    fn clock(&self) -> u128 {
        self.initial_time.elapsed().as_nanos()
    }

    /// Records that the function `name` is entered now.
    pub fn call(&mut self, name: &'static str)
        ensures
            exists|timestamp: u128|
                final(self)@ == recorded(old(self)@, #[trigger] call_event(name@, timestamp)),
            final(self).origin() == old(self).origin(),
    {
        let timestamp = self.clock();
        self.call_at(name, timestamp);
    }

    /// Records that the function entered last is left now.
    pub fn ret(&mut self)
        ensures
            exists|timestamp: u128|
                final(self)@ == recorded(old(self)@, #[trigger] return_event(timestamp)),
            final(self).origin() == old(self).origin(),
    {
        let timestamp = self.clock();
        self.ret_at(timestamp);
    }

    /// Seals the frame in progress and starts an empty one. Where the sealed
    /// frame outgrew its buffer, the next buffer is sized for one and a half
    /// times its events, rounded up; the size never shrinks. The origin of
    /// time stays.
    pub fn end_frame(&mut self)
        ensures
            final(self)@ == sealed(old(self)@),
            final(self).origin() == old(self).origin(),
    {
        let len = self.current_frame.len();
        if len > self.starting_capacity {
            self.starting_capacity = len.saturating_add(len / 2 + len % 2);
        }
        let mut frame: Vec<Event> = Vec::with_capacity(self.starting_capacity);
        std::mem::swap(&mut self.current_frame, &mut frame);
        self.frames.push(Frame { calls: frame });
        proof {
            assert((3 * len + 1) / 2 == len + (len / 2 + len % 2));
            assert(final(self)@.frames =~= old(self)@.frames.push(old(self)@.current));
            assert(final(self)@.current =~= Seq::empty());
        }
    }

    /// Seals the frame in progress and hands out the capture.
    pub fn get_frames(self) -> (frames: Frames)
        ensures
            frames@ == sealed(self@).frames,
    {
        let mut profiler = self;
        profiler.end_frame();
        Frames(profiler.frames)
    }

    /// Seals the frame in progress and hands out the capture, leaving an
    /// empty profiler with a new origin of time in place.
    pub fn take(&mut self) -> (frames: Frames)
        ensures
            frames@ == sealed(old(self)@).frames,
            final(self)@ == (ProfilerView {
                capacity: 0,
                frames: Seq::empty(),
                current: Seq::empty(),
            }),
    {
        let mut taken = Profiler::default();
        std::mem::swap(self, &mut taken);
        taken.get_frames()
    }

    /// Seals the frame in progress and encodes the capture.
    pub fn dump_frames(self) -> (result: Result<Vec<u8>, ProfilerError>)
        ensures
            result is Ok,
            result->Ok_0@ == capture_bytes(sealed(self@).frames),
            encodable(sealed(self@).frames),
    {
        let mut profiler = self;
        profiler.end_frame();
        match encode_frames(&profiler.frames) {
            Ok(bytes) => Ok(bytes),
            Err(e) => Err(ProfilerError::SerializationError(e)),
        }
    }

    /// Decodes a capture and gives every name in it its canonical name.
    ///
    /// Succeeds exactly on the bytes that start with an encoded capture, and
    /// so on everything that [`Profiler::dump_frames`] returns, which it
    /// decodes to the capture that was encoded. On failure no name is
    /// registered.
    pub fn load_frames(bytes: &[u8], interner: &mut StaticStrVisitor) -> (result: Result<
        Frames,
        ProfilerError,
    >)
        requires
            old(interner).wf(),
        ensures
            final(interner).wf(),
            match result {
                Ok(frames) => {
                    &&& parsed_capture(bytes@) == Some(frames@)
                    &&& frames_canonical(frames.0@, final(interner).handles())
                    &&& extends(old(interner).handles(), final(interner).handles())
                    &&& texts_of(final(interner).handles()) == register_all(
                        texts_of(old(interner).handles()),
                        capture_names(frames@),
                    )
                },
                Err(e) => {
                    &&& e is SerializationError
                    &&& parsed_capture(bytes@) is None
                    &&& final(interner).handles() == old(interner).handles()
                },
            },
            forall|frames: Seq<Seq<EventView>>, tail: Seq<u8>| #[trigger]
                capture_then(bytes@, frames, tail) ==> result is Ok && result->Ok_0@ == frames,
    {
        match decode_frames(bytes) {
            Ok(raw) => Ok(intern_frames(&raw, interner)),
            Err(e) => Err(ProfilerError::SerializationError(e)),
        }
    }
}

/// The token of one instrumented call: made when the call is entered, ended
/// when it is left.
pub struct FunctionCall {}

impl FunctionCall {
    /// Records that the function `name` is entered now.
    pub fn new(profiler: &mut Profiler, name: &'static str) -> (token: FunctionCall)
        ensures
            exists|timestamp: u128|
                final(profiler)@ == recorded(
                    old(profiler)@,
                    #[trigger] call_event(name@, timestamp),
                ),
            final(profiler).origin() == old(profiler).origin(),
    {
        profiler.call(name);
        FunctionCall {  }
    }

    /// Records that the function of this token is left now.
    pub fn end(self, profiler: &mut Profiler)
        ensures
            exists|timestamp: u128|
                final(profiler)@ == recorded(old(profiler)@, #[trigger] return_event(timestamp)),
            final(profiler).origin() == old(profiler).origin(),
    {
        profiler.ret();
    }
}

/// Takes the capture of `profiler`, analyses it and renders the report,
/// sorted by `sort_by`, durations shown in `unit`.
pub fn produce_report(profiler: Profiler, sort_by: Sort, unit: Unit) -> (result: Result<
    String,
    AnalysisError,
>)
    ensures
        match result {
            Ok(report) => {
                let frames = sealed(profiler@).frames;
                &&& analyzable(frames)
                &&& report@ == report_text(analysis_of(frames).rows, sort_by, unit)
            },
            Err(AnalysisError::IntegrityFault) => !all_well_nested(sealed(profiler@).frames),
            Err(AnalysisError::Overflow) => {
                let frames = sealed(profiler@).frames;
                all_well_nested(frames) && !fits(capture_spans(frames))
            },
        },
{
    let mut analysis = GlobalAnalyzer::try_new(profiler.get_frames())?;
    analysis.set_sort(sort_by);
    analysis.set_unit(unit);
    Ok(analysis.analyze())
}

} // verus!
