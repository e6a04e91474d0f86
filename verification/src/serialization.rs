use vstd::prelude::*;

use crate::profiler::{
    events_view, frames_view, Event, EventView, Frame, Frames, Operation, OperationView,
};
use crate::text::{leak_text, same_text};
use crate::wire::{raw_events_view, raw_frames_view, RawEvent};

verus! {

/// A function name whose storage lives for the rest of the process.
///
/// Its view is the text of the name.
#[derive(Clone, Copy, Debug)]
pub struct StaticStr(pub &'static str);

impl View for StaticStr {
    type V = Seq<char>;

    open spec fn view(&self) -> Seq<char> {
        self.0@
    }
}

impl StaticStr {
    /// The stored string itself, not a copy of it.
    pub fn as_str(&self) -> (s: &'static str)
        ensures
            s == self.0,
            s@ == self@,
    {
        self.0
    }
}

/// The texts of a sequence of names, in order.
pub open spec fn texts_of(handles: Seq<StaticStr>) -> Seq<Seq<char>> {
    handles.map_values(|h: StaticStr| h@)
}

/// No two of the names hold the same text.
pub open spec fn distinct_texts(handles: Seq<StaticStr>) -> bool {
    forall|a: int, b: int|
        0 <= a < b < handles.len() ==> (#[trigger] handles[a])@ != (#[trigger] handles[b])@
}

/// Some canonical name holds `text`.
pub open spec fn registered(handles: Seq<StaticStr>, text: Seq<char>) -> bool {
    exists|k: int| 0 <= k < handles.len() && (#[trigger] handles[k])@ == text
}

/// The canonical name that holds `text`, where one does.
pub open spec fn canonical(handles: Seq<StaticStr>, text: Seq<char>) -> StaticStr {
    handles[choose|k: int| 0 <= k < handles.len() && (#[trigger] handles[k])@ == text]
}

/// One step of interning: asked for `text` with the canonical names `before`,
/// the interner answers `name` and then holds the canonical names `after`.
/// A registered text is answered with its canonical name and changes
/// nothing; a new text gets a new canonical name, registered last.
pub open spec fn interned(
    before: Seq<StaticStr>,
    text: Seq<char>,
    after: Seq<StaticStr>,
    name: StaticStr,
) -> bool {
    &&& name@ == text
    &&& if registered(before, text) {
        after == before && name == canonical(before, text)
    } else {
        after == before.push(name)
    }
}

/// The interner: it turns any text into its canonical name. Canonical names are
/// never removed or replaced, and their storage is never freed.
pub struct StaticStrVisitor {
    table: Vec<StaticStr>,
}

impl StaticStrVisitor {
    /// The canonical names, in the order of their registration.
    pub closed spec fn handles(&self) -> Seq<StaticStr> {
        self.table@
    }

    /// Each text has at most one canonical name.
    pub open spec fn wf(&self) -> bool {
        distinct_texts(self.handles())
    }

    /// An interner that knows no name yet.
    pub fn new() -> (visitor: StaticStrVisitor)
        ensures
            visitor.handles() == Seq::<StaticStr>::empty(),
            visitor.wf(),
    {
        StaticStrVisitor { table: Vec::new() }
    }

    /// How many canonical names there are.
    pub fn len(&self) -> (count: usize)
        ensures
            count == self.handles().len(),
    {
        self.table.len()
    }

    /// The canonical name of `v`: the one registered for this text if there
    /// is one, else a new one, which is registered.
    pub fn visit_str(&mut self, v: &str) -> (name: StaticStr)
        requires
            old(self).wf(),
        ensures
            final(self).wf(),
            interned(old(self).handles(), v@, final(self).handles(), name),
    {
        let mut k: usize = 0;
        while k < self.table.len()
            invariant
                k <= self.table@.len(),
                self.table@ == old(self).table@,
                distinct_texts(self.table@),
                forall|m: int| 0 <= m < k ==> (#[trigger] self.table@[m])@ != v@,
            decreases self.table@.len() - k,
        {
            if same_text(self.table[k].as_str(), v) {
                let name = self.table[k];
                proof {
                    let found = choose|m: int|
                        0 <= m < self.table@.len() && (#[trigger] self.table@[m])@ == v@;
                    assert(found == k);
                }
                return name;
            }
            k += 1;
        }
        let name = StaticStr(leak_text(v.to_owned()));
        self.table.push(name);
        name
    }

    /// The canonical name of `v`.
    pub fn visit_string(&mut self, v: String) -> (name: StaticStr)
        requires
            old(self).wf(),
        ensures
            final(self).wf(),
            interned(old(self).handles(), v@, final(self).handles(), name),
    {
        self.visit_str(v.as_str())
    }
}

/// Asking twice for the same text gives the same canonical name both times,
/// and the second request registers nothing.
pub proof fn lemma_same_text_same_name(
    start: Seq<StaticStr>,
    text: Seq<char>,
    between: Seq<StaticStr>,
    first: StaticStr,
    end: Seq<StaticStr>,
    second: StaticStr,
)
    requires
        distinct_texts(start),
        interned(start, text, between, first),
        interned(between, text, end, second),
    ensures
        second == first,
        end == between,
{
    if registered(start, text) {
    } else {
        assert(between[start.len() as int] == first);
        assert(registered(between, text));
        let k = choose|k: int| 0 <= k < between.len() && (#[trigger] between[k])@ == text;
        if k < start.len() {
            assert(start[k]@ == text);
        }
    }
}

/// Interning never removes or replaces a canonical name: what was canonical
/// for a text stays canonical for it.
pub proof fn lemma_interning_appends(
    before: Seq<StaticStr>,
    text: Seq<char>,
    after: Seq<StaticStr>,
    name: StaticStr,
    other: Seq<char>,
)
    requires
        distinct_texts(before),
        interned(before, text, after, name),
    ensures
        distinct_texts(after),
        before.len() <= after.len(),
        after.take(before.len() as int) == before,
        registered(before, other) ==> registered(after, other) && canonical(after, other)
            == canonical(before, other),
{
    assert(after.take(before.len() as int) =~= before);
    if registered(before, other) {
        let k = choose|k: int| 0 <= k < before.len() && (#[trigger] before[k])@ == other;
        assert(after[k]@ == other);
        let m = choose|m: int| 0 <= m < after.len() && (#[trigger] after[m])@ == other;
        if m != k {
            assert(after[m]@ == after[k]@);
            if m < before.len() {
                assert(before[m]@ == before[k]@);
            } else {
                assert(!registered(before, text));
            }
        }
    }
}

/// `after` is `before` with further names registered behind it.
pub open spec fn extends(before: Seq<StaticStr>, after: Seq<StaticStr>) -> bool {
    before.len() <= after.len() && after.take(before.len() as int) == before
}

/// A name that is canonical stays canonical while names are registered.
pub proof fn lemma_extension_keeps_canonical(
    before: Seq<StaticStr>,
    after: Seq<StaticStr>,
    text: Seq<char>,
)
    requires
        distinct_texts(after),
        extends(before, after),
        registered(before, text),
    ensures
        registered(after, text),
        canonical(after, text) == canonical(before, text),
{
    let k = choose|k: int| 0 <= k < before.len() && (#[trigger] before[k])@ == text;
    assert(after.take(before.len() as int)[k] == after[k]);
    assert(after[k]@ == text);
    let m = choose|m: int| 0 <= m < after.len() && (#[trigger] after[m])@ == text;
    if m != k {
        assert(after[m]@ == after[k]@);
    }
}

/// The texts with `text` registered: added at the end unless it is there.
pub open spec fn register(texts: Seq<Seq<char>>, text: Seq<char>) -> Seq<Seq<char>> {
    if texts.contains(text) {
        texts
    } else {
        texts.push(text)
    }
}

/// The texts with each of `names` registered, in order.
pub open spec fn register_all(texts: Seq<Seq<char>>, names: Seq<Seq<char>>) -> Seq<Seq<char>>
    decreases names.len(),
{
    if names.len() == 0 {
        texts
    } else {
        register(register_all(texts, names.drop_last()), names.last())
    }
}

/// Registering two runs of names one after the other registers their
/// concatenation.
pub proof fn lemma_register_all_concat(
    texts: Seq<Seq<char>>,
    first: Seq<Seq<char>>,
    second: Seq<Seq<char>>,
)
    ensures
        register_all(texts, first + second) == register_all(register_all(texts, first), second),
    decreases second.len(),
{
    if second.len() == 0 {
        assert(first + second =~= first);
    } else {
        assert((first + second).drop_last() =~= first + second.drop_last());
        lemma_register_all_concat(texts, first, second.drop_last());
    }
}

/// The names of the calls among the events, in order.
pub open spec fn call_names(events: Seq<EventView>) -> Seq<Seq<char>>
    decreases events.len(),
{
    if events.len() == 0 {
        Seq::empty()
    } else {
        match events.last().op {
            OperationView::Call(name) => call_names(events.drop_last()).push(name),
            OperationView::Return => call_names(events.drop_last()),
        }
    }
}

/// The names of the calls of a capture, frame after frame.
pub open spec fn capture_names(frames: Seq<Seq<EventView>>) -> Seq<Seq<char>>
    decreases frames.len(),
{
    if frames.len() == 0 {
        Seq::empty()
    } else {
        capture_names(frames.drop_last()) + call_names(frames.last())
    }
}

/// Every call among the events is named by the canonical name of its text.
pub open spec fn events_canonical(events: Seq<Event>, handles: Seq<StaticStr>) -> bool {
    forall|j: int|
        0 <= j < events.len() ==> match (#[trigger] events[j]).op {
            Operation::Call(name) => registered(handles, name@) && name == canonical(
                handles,
                name@,
            ),
            Operation::Return => true,
        }
}

/// Every call of the capture is named by the canonical name of its text, so
/// that equal names in any two frames are one and the same string.
pub open spec fn frames_canonical(frames: Seq<Frame>, handles: Seq<StaticStr>) -> bool {
    forall|i: int|
        0 <= i < frames.len() ==> events_canonical((#[trigger] frames[i]).calls@, handles)
}

/// Whether the canonical names hold `text`, stated over their texts.
proof fn lemma_registered_is_contained(handles: Seq<StaticStr>, text: Seq<char>)
    ensures
        registered(handles, text) == texts_of(handles).contains(text),
{
    if registered(handles, text) {
        let k = choose|k: int| 0 <= k < handles.len() && (#[trigger] handles[k])@ == text;
        assert(texts_of(handles)[k] == text);
    }
    if texts_of(handles).contains(text) {
        let k = choose|k: int| 0 <= k < handles.len() && texts_of(handles)[k] == text;
        assert(handles[k]@ == text);
    }
}

/// Gives every name of a frame its canonical name.
fn intern_events<'a>(raw: &Vec<RawEvent<'a>>, interner: &mut StaticStrVisitor) -> (frame: Frame)
    requires
        old(interner).wf(),
    ensures
        final(interner).wf(),
        frame@ == raw_events_view(raw@),
        extends(old(interner).handles(), final(interner).handles()),
        events_canonical(frame.calls@, final(interner).handles()),
        texts_of(final(interner).handles()) == register_all(
            texts_of(old(interner).handles()),
            call_names(frame@),
        ),
{
    let mut calls: Vec<Event> = Vec::new();
    let mut j: usize = 0;
    let ghost all = raw_events_view(raw@);
    proof {
        assert(interner.handles().take(interner.handles().len() as int) =~= interner.handles());
    }
    while j < raw.len()
        invariant
            j <= raw@.len(),
            all == raw_events_view(raw@),
            interner.wf(),
            events_view(calls@) == all.take(j as int),
            extends(old(interner).handles(), interner.handles()),
            events_canonical(calls@, interner.handles()),
            texts_of(interner.handles()) == register_all(
                texts_of(old(interner).handles()),
                call_names(all.take(j as int)),
            ),
        decreases raw@.len() - j,
    {
        let ghost before = interner.handles();
        let ghost shown = events_view(calls@);
        let ghost events_before = calls@;
        proof {
            assert(all.take(j + 1).drop_last() =~= all.take(j as int));
            assert(all.take(j + 1).last() == raw@[j as int]@);
        }
        let op = match raw[j].name {
            Some(text) => {
                let name = interner.visit_str(text);
                proof {
                    let after = interner.handles();
                    lemma_interning_appends(before, text@, after, name, text@);
                    lemma_registered_is_contained(before, text@);
                    assert(after.take(old(interner).handles().len() as int) =~= before.take(
                        old(interner).handles().len() as int,
                    ));
                    if registered(before, text@) {
                    } else {
                        assert(after[before.len() as int] == name);
                        assert(texts_of(after) =~= texts_of(before).push(text@));
                    }
                    let names = call_names(all.take(j as int));
                    assert(call_names(all.take(j + 1)) == names.push(text@));
                    assert(names.push(text@).drop_last() =~= names);
                    assert(texts_of(after) == register(texts_of(before), text@));
                    assert(texts_of(after) == register_all(
                        texts_of(old(interner).handles()),
                        call_names(all.take(j + 1)),
                    ));
                    assert(registered(after, text@)) by {
                        if registered(before, text@) {
                        } else {
                            assert(after[before.len() as int]@ == text@);
                        }
                    }
                    assert(name == canonical(after, text@)) by {
                        if registered(before, text@) {
                        } else {
                            let m = choose|m: int|
                                0 <= m < after.len() && (#[trigger] after[m])@ == text@;
                            if m != before.len() {
                                assert(after[m]@ == after[before.len() as int]@);
                            }
                        }
                    }
                    assert forall|m: int| 0 <= m < events_before.len() implies match (
                    #[trigger] events_before[m]).op {
                        Operation::Call(n) => registered(after, n@) && n == canonical(after, n@),
                        Operation::Return => true,
                    } by {
                        match events_before[m].op {
                            Operation::Call(n) => {
                                lemma_extension_keeps_canonical(before, after, n@);
                            },
                            Operation::Return => {},
                        }
                    }
                }
                Operation::Call(name)
            },
            None => {
                assert(call_names(all.take(j + 1)) == call_names(all.take(j as int)));
                Operation::Return
            },
        };
        calls.push(Event { op, timestamp: raw[j].timestamp });
        j += 1;
        proof {
            assert(events_view(calls@) =~= shown.push(raw@[j - 1]@));
            assert(events_view(calls@) =~= all.take(j as int));
        }
    }
    assert(all.take(j as int) =~= all);
    Frame { calls }
}

/// Gives every name of a capture its canonical name: the names that the
/// interner knows are reused, the others are registered in the order in
/// which they first occur.
pub fn intern_frames<'a>(raw: &Vec<Vec<RawEvent<'a>>>, interner: &mut StaticStrVisitor) -> (frames:
    Frames)
    requires
        old(interner).wf(),
    ensures
        final(interner).wf(),
        frames@ == raw_frames_view(raw@),
        extends(old(interner).handles(), final(interner).handles()),
        frames_canonical(frames.0@, final(interner).handles()),
        texts_of(final(interner).handles()) == register_all(
            texts_of(old(interner).handles()),
            capture_names(frames@),
        ),
{
    let mut done: Vec<Frame> = Vec::new();
    let mut i: usize = 0;
    let ghost all = raw_frames_view(raw@);
    proof {
        assert(interner.handles().take(interner.handles().len() as int) =~= interner.handles());
    }
    while i < raw.len()
        invariant
            i <= raw@.len(),
            all == raw_frames_view(raw@),
            interner.wf(),
            frames_view(done@) == all.take(i as int),
            extends(old(interner).handles(), interner.handles()),
            frames_canonical(done@, interner.handles()),
            texts_of(interner.handles()) == register_all(
                texts_of(old(interner).handles()),
                capture_names(all.take(i as int)),
            ),
        decreases raw@.len() - i,
    {
        let ghost before = interner.handles();
        let ghost shown = frames_view(done@);
        let ghost frames_before = done@;
        let frame = intern_events(&raw[i], interner);
        proof {
            let after = interner.handles();
            assert(all.take(i + 1).drop_last() =~= all.take(i as int));
            assert(all.take(i + 1).last() == frame@);
            lemma_register_all_concat(
                texts_of(old(interner).handles()),
                capture_names(all.take(i as int)),
                call_names(frame@),
            );
            assert(after.take(old(interner).handles().len() as int) =~= before.take(
                old(interner).handles().len() as int,
            ));
            assert forall|m: int| 0 <= m < frames_before.len() implies events_canonical(
                (#[trigger] frames_before[m]).calls@,
                after,
            ) by {
                let events = frames_before[m].calls@;
                assert forall|j: int| 0 <= j < events.len() implies match (
                #[trigger] events[j]).op {
                    Operation::Call(n) => registered(after, n@) && n == canonical(after, n@),
                    Operation::Return => true,
                } by {
                    match events[j].op {
                        Operation::Call(n) => {
                            lemma_extension_keeps_canonical(before, after, n@);
                        },
                        Operation::Return => {},
                    }
                }
            }
        }
        done.push(frame);
        i += 1;
        proof {
            assert(frames_view(done@) =~= shown.push(frame@));
            assert(frames_view(done@) =~= all.take(i as int));
        }
    }
    assert(all.take(i as int) =~= all);
    Frames(done)
}

} // verus!
