//! File events and the debouncer that merges them path by path.

use crate::index::{
    file, index_clear, index_new, index_slots, indexes, lookup, unfile, Keyed, PathIndex,
};
use crate::path::CanonicalPathBuf;
use ecow::EcoVec;
use vstd::prelude::*;

verus! {

/// What happened to a file.
#[derive(Debug, PartialEq, Eq, Structural, Hash, Clone, Copy, PartialOrd, Ord)]
pub enum EventType {
    /// The file came into being.
    Create,
    /// The file went away.
    Delete,
    /// The file's content or timestamps changed.
    Modified,
    /// The file came and went again before anybody was told.
    Tempfile,
}

/// One change to one file.
#[derive(Debug)]
pub struct Event {
    pub path: CanonicalPathBuf,
    pub ty: EventType,
}

/// An event as a plain value: the bytes of the path and what happened.
pub ghost struct EventView {
    pub path: Seq<u8>,
    pub ty: EventType,
}

impl View for Event {
    type V = EventView;

    open spec fn view(&self) -> EventView {
        EventView { path: self.path@, ty: self.ty }
    }
}

impl Clone for Event {
    fn clone(&self) -> (copy: Event)
        ensures
            copy@ == self@,
    {
        Event { path: self.path.clone(), ty: self.ty }
    }
}

/// What becomes of an entry of kind `prior` when `incoming` is reported for
/// the same path: `None` where the entry is dropped, else the kind it has
/// from then on.
pub open spec fn merged(prior: EventType, incoming: EventType) -> Option<EventType> {
    match (prior, incoming) {
        (EventType::Create, EventType::Delete) => None,
        (EventType::Modified, EventType::Delete) => Some(EventType::Delete),
        (EventType::Delete, EventType::Create) => Some(EventType::Modified),
        _ => Some(prior),
    }
}

impl EventType {
    /// Merges a report of `incoming` into an entry of this kind. A file that
    /// was created and is deleted again leaves nothing (`None`); a deleted
    /// file that is created again was modified; a deletion replaces a
    /// modification; everything else leaves the entry as it is.
    pub fn merge(self, incoming: EventType) -> (kind: Option<EventType>)
        ensures
            kind == merged(self, incoming),
    {
        match (self, incoming) {
            (EventType::Create, EventType::Delete) => None,
            (EventType::Modified, EventType::Delete) => Some(EventType::Delete),
            (EventType::Delete, EventType::Create) => Some(EventType::Modified),
            _ => Some(self),
        }
    }
}

/// The events that a shared list holds, first to last, as plain values.
pub uninterp spec fn batch_events(list: EcoVec<Event>) -> Seq<EventView>;

/// `EcoVec::new`: a list that holds nothing.
#[verifier::external_body]
pub(crate) fn batch_new() -> (list: EcoVec<Event>)
    ensures
        batch_events(list).len() == 0,
{
    EcoVec::new()
}

/// `EcoVec::len`: the number of events held. The outside type keeps its
/// length within what one allocation can hold.
#[verifier::external_body]
pub(crate) fn batch_len(list: &EcoVec<Event>) -> (n: usize)
    ensures
        n == batch_events(*list).len(),
        n <= isize::MAX,
{
    list.len()
}

/// `EcoVec::as_slice`: the held events as a slice, in order.
#[verifier::external_body]
pub(crate) fn batch_as_slice(list: &EcoVec<Event>) -> (events: &[Event])
    ensures
        events@.len() == batch_events(*list).len(),
        forall|i: int| 0 <= i < events@.len() ==> (#[trigger] events@[i])@ == batch_events(*list)[i],
{
    list.as_slice()
}

/// `EcoVec::push`: appends one event. The outside code panics when the new
/// length would not fit an allocation, so the length is bounded here.
#[verifier::external_body]
pub(crate) fn batch_push(list: &mut EcoVec<Event>, event: Event)
    requires
        batch_events(*old(list)).len() < isize::MAX,
    ensures
        batch_events(*final(list)) == batch_events(*old(list)).push(event@),
{
    list.push(event)
}

/// `EcoVec::make_mut`: writes `ty` into the event at `at` and leaves its
/// path and every other event as they are.
#[verifier::external_body]
pub(crate) fn batch_set_type(list: &mut EcoVec<Event>, at: usize, ty: EventType)
    requires
        at < batch_events(*old(list)).len(),
    ensures
        batch_events(*final(list)) == batch_events(*old(list)).update(
            at as int,
            EventView { path: batch_events(*old(list))[at as int].path, ty },
        ),
{
    list.make_mut()[at].ty = ty;
}

/// `EcoVec::clone`: a second handle on the same events.
#[verifier::external_body]
pub(crate) fn batch_clone(list: &EcoVec<Event>) -> (copy: EcoVec<Event>)
    ensures
        batch_events(copy) == batch_events(*list),
{
    list.clone()
}

/// The events of a list as plain values, in order.
pub open spec fn reports(events: Seq<Event>) -> Seq<EventView> {
    events.map_values(|event: Event| event@)
}

/// The path of each event, in order.
pub open spec fn event_paths(events: Seq<EventView>) -> Seq<Seq<u8>> {
    events.map_values(|event: EventView| event.path)
}

impl Keyed for EcoVec<Event> {
    open spec fn keys(&self) -> Seq<Seq<u8>> {
        event_paths(batch_events(*self))
    }

    fn key_at(&self, slot: u32) -> (key: &[u8]) {
        let events = batch_as_slice(self);
        events[slot as usize].path.logical()
    }
}

/// A batch of events, cheap to hand to several readers.
#[derive(Debug)]
pub struct Events {
    events: EcoVec<Event>,
}

impl View for Events {
    type V = Seq<EventView>;

    closed spec fn view(&self) -> Seq<EventView> {
        batch_events(self.events)
    }
}

impl Events {
    /// The number of events in the batch.
    pub fn len(&self) -> (n: usize)
        ensures
            n == self@.len(),
    {
        batch_len(&self.events)
    }

    /// Whether the batch holds no event.
    pub fn is_empty(&self) -> (empty: bool)
        ensures
            empty == (self@.len() == 0),
    {
        batch_len(&self.events) == 0
    }

    /// The events of the batch, in the order in which they were recorded.
    pub fn as_slice(&self) -> (events: &[Event])
        ensures
            events@.len() == self@.len(),
            forall|i: int| 0 <= i < events@.len() ==> (#[trigger] events@[i])@ == self@[i],
    {
        batch_as_slice(&self.events)
    }
}

impl Clone for Events {
    fn clone(&self) -> (copy: Events)
        ensures
            copy@ == self@,
    {
        Events { events: batch_clone(&self.events) }
    }
}

/// The entry at `i` stands for `path` and has not been dropped.
pub open spec fn is_live_at(events: Seq<EventView>, i: int, path: Seq<u8>) -> bool {
    0 <= i < events.len() && events[i].path == path && events[i].ty != EventType::Tempfile
}

/// Where the live entry for `path` stands, if there is one.
pub open spec fn recorded(events: Seq<EventView>, path: Seq<u8>) -> Option<int> {
    if exists|i: int| is_live_at(events, i, path) {
        Some(choose|i: int| is_live_at(events, i, path))
    } else {
        None
    }
}

/// No path has two live entries.
pub open spec fn one_per_path(events: Seq<EventView>) -> bool {
    forall|i: int, j: int|
        0 <= i < events.len() && 0 <= j < events.len() && events[i].path == events[j].path
            && events[i].ty != EventType::Tempfile && events[j].ty != EventType::Tempfile ==> i
            == j
}

/// The entries after `ty` has been reported for `path`. A path without a
/// live entry gets a new one at the end. Otherwise the live entry takes the
/// merged kind, or is marked as dropped where the merge leaves nothing.
pub open spec fn record(events: Seq<EventView>, path: Seq<u8>, ty: EventType) -> Seq<EventView> {
    match recorded(events, path) {
        None => events.push(EventView { path, ty }),
        Some(i) => match merged(events[i].ty, ty) {
            Some(kind) => events.update(i, EventView { path, ty: kind }),
            None => events.update(i, EventView { path, ty: EventType::Tempfile }),
        },
    }
}

/// The entries after each of `reports` has been recorded, in order.
pub open spec fn record_all(events: Seq<EventView>, reports: Seq<EventView>) -> Seq<EventView>
    decreases reports.len(),
{
    if reports.len() == 0 {
        events
    } else {
        record(record_all(events, reports.drop_last()), reports.last().path, reports.last().ty)
    }
}

/// The number of dropped entries.
pub open spec fn dropped_count(events: Seq<EventView>) -> nat
    decreases events.len(),
{
    if events.len() == 0 {
        0
    } else {
        dropped_count(events.drop_last()) + if events.last().ty == EventType::Tempfile {
            1nat
        } else {
            0nat
        }
    }
}

/// What is handed to the handlers: every entry where dropped files are
/// signalled, else the entries that were not dropped, in the order in which
/// they were recorded.
pub open spec fn delivered(events: Seq<EventView>, tempfiles: bool) -> Seq<EventView>
    decreases events.len(),
{
    if events.len() == 0 {
        events
    } else if tempfiles || events.last().ty != EventType::Tempfile {
        delivered(events.drop_last(), tempfiles).push(events.last())
    } else {
        delivered(events.drop_last(), tempfiles)
    }
}

/// The slots of the live entries.
pub open spec fn live_slots(events: Seq<EventView>) -> Set<u32> {
    Set::new(|slot: u32| slot < events.len() && events[slot as int].ty != EventType::Tempfile)
}

/// Merges the events of one settle window: at most one live entry per path.
pub struct EventDebouncer {
    index: PathIndex,
    events: EcoVec<Event>,
    dropped: usize,
    tempfiles: bool,
}

impl View for EventDebouncer {
    type V = Seq<EventView>;

    /// The entries recorded since the last batch was taken, dropped ones
    /// included.
    closed spec fn view(&self) -> Seq<EventView> {
        batch_events(self.events)
    }
}

impl EventDebouncer {
    /// Whether a file that came and went within one window is signalled as
    /// `Tempfile` instead of being left out of the batch.
    pub closed spec fn signals_tempfiles(&self) -> bool {
        self.tempfiles
    }

    /// The index agrees with the entries, and the count of dropped entries
    /// is right.
    pub closed spec fn wf(&self) -> bool {
        &&& self@.len() <= u32::MAX
        &&& indexes(self.index, event_paths(self@), live_slots(self@))
        &&& self.dropped == dropped_count(self@)
    }

    /// A debouncer that is in order holds at most one live entry for a
    /// path.
    pub proof fn lemma_one_per_path(&self)
        requires
            self.wf(),
        ensures
            one_per_path(self@),
            self@.len() <= u32::MAX,
    {
        lemma_live_distinct(self@, self.index);
    }

    /// A debouncer without entries that leaves dropped files out.
    pub fn new() -> (debouncer: EventDebouncer)
        ensures
            debouncer.wf(),
            debouncer@.len() == 0,
            !debouncer.signals_tempfiles(),
    {
        EventDebouncer::with_tempfiles(false)
    }

    /// A debouncer without entries that signals dropped files if
    /// `tempfiles` is set.
    pub fn with_tempfiles(tempfiles: bool) -> (debouncer: EventDebouncer)
        ensures
            debouncer.wf(),
            debouncer@.len() == 0,
            debouncer.signals_tempfiles() == tempfiles,
    {
        let debouncer = EventDebouncer {
            index: index_new(),
            events: batch_new(),
            dropped: 0,
            tempfiles,
        };
        assert(index_slots(debouncer.index).dom() =~= live_slots(debouncer@));
        debouncer
    }

    /// Whether a batch taken now would hold no event.
    pub fn is_empty(&self) -> (empty: bool)
        requires
            self.wf(),
        ensures
            empty == (delivered(self@, self.signals_tempfiles()).len() == 0),
    {
        proof {
            lemma_delivered_len(self@, self.tempfiles);
        }
        let n = batch_len(&self.events);
        if self.tempfiles {
            n == 0
        } else {
            n == self.dropped
        }
    }
}

impl EventDebouncer {
    /// Reports `ty` for `path`: the entries become `record` of what they
    /// were.
    pub fn add(&mut self, path: CanonicalPathBuf, ty: EventType)
        requires
            old(self).wf(),
            old(self)@.len() < u32::MAX,
            old(self)@.len() < isize::MAX,
        ensures
            final(self).wf(),
            final(self)@ == record(old(self)@, path@, ty),
            final(self).signals_tempfiles() == old(self).signals_tempfiles(),
    {
        let ghost before = self@;
        let ghost live = live_slots(before);
        let found = lookup(&self.index, &self.events, path.logical(), Ghost(live));
        proof {
            lemma_recorded(before, path@, found);
            lemma_delivered_len(before, self.tempfiles);
        }
        match found {
            None => {
                let slot: u32 = batch_len(&self.events) as u32;
                batch_push(&mut self.events, Event { path, ty });
                proof {
                    lemma_paths_push(before, EventView { path: path@, ty });
                    assert(self@.drop_last() =~= before);
                }
                if ty != EventType::Tempfile {
                    file(&mut self.index, &self.events, slot, Ghost(live));
                    assert(live_slots(self@) =~= live.insert(slot));
                } else {
                    self.dropped = self.dropped + 1;
                    assert(live_slots(self@) =~= live);
                }
            },
            Some(slot) => {
                let prior = batch_as_slice(&self.events)[slot as usize].ty;
                match prior.merge(ty) {
                    None => {
                        unfile(
                            &mut self.index,
                            &self.events,
                            path.logical(),
                            Ghost(live),
                            Ghost(slot),
                        );
                        batch_set_type(&mut self.events, slot as usize, EventType::Tempfile);
                        self.dropped = self.dropped + 1;
                        proof {
                            lemma_paths_update(before, slot as int, EventType::Tempfile);
                            lemma_dropped_update(before, slot as int, EventType::Tempfile);
                            assert(live_slots(self@) =~= live.remove(slot));
                        }
                    },
                    Some(kind) => {
                        if kind != prior {
                            batch_set_type(&mut self.events, slot as usize, kind);
                        }
                        proof {
                            lemma_paths_update(before, slot as int, kind);
                            lemma_dropped_update(before, slot as int, kind);
                            assert(self@ =~= before.update(
                                slot as int,
                                EventView { path: path@, ty: kind },
                            ));
                            assert(live_slots(self@) =~= live);
                        }
                    },
                }
            },
        }
    }

    /// The number of entries, dropped ones included.
    pub fn len(&self) -> (n: usize)
        ensures
            n == self@.len(),
    {
        batch_len(&self.events)
    }

    /// Reports every event of `events`, in order.
    pub fn add_all(&mut self, events: &Vec<Event>)
        requires
            old(self).wf(),
            old(self)@.len() + events@.len() < u32::MAX,
            old(self)@.len() + events@.len() < isize::MAX,
        ensures
            final(self).wf(),
            final(self)@ == record_all(old(self)@, reports(events@)),
            final(self).signals_tempfiles() == old(self).signals_tempfiles(),
    {
        let ghost all = reports(events@);
        let mut i: usize = 0;
        assert(all.subrange(0, 0) =~= Seq::<EventView>::empty());
        while i < events.len()
            invariant
                self.wf(),
                i <= events@.len(),
                all == reports(events@),
                self@ == record_all(old(self)@, all.subrange(0, i as int)),
                self@.len() <= old(self)@.len() + i,
                old(self)@.len() + events@.len() < u32::MAX,
                old(self)@.len() + events@.len() < isize::MAX,
                self.signals_tempfiles() == old(self).signals_tempfiles(),
            decreases events@.len() - i,
        {
            proof {
                assert(all.subrange(0, i + 1).drop_last() =~= all.subrange(0, i as int));
                assert(all.subrange(0, i + 1).last() == events@[i as int]@);
            }
            self.add(events[i].path.clone(), events[i].ty);
            i += 1;
        }
        assert(all.subrange(0, i as int) =~= all);
    }

    /// Hands out what has been recorded and starts over without entries.
    /// Among the events of the batch that are not `Tempfile`, no path occurs
    /// twice.
    pub fn take(&mut self) -> (batch: Events)
        requires
            old(self).wf(),
        ensures
            final(self).wf(),
            final(self)@.len() == 0,
            final(self).signals_tempfiles() == old(self).signals_tempfiles(),
            batch@ == delivered(old(self)@, old(self).signals_tempfiles()),
            one_per_path(batch@),
    {
        let ghost before = self@;
        proof {
            lemma_delivered_len(before, self.tempfiles);
            lemma_live_distinct(before, self.index);
            lemma_delivered_one_per_path(before, self.tempfiles);
        }
        index_clear(&mut self.index);
        let mut taken = batch_new();
        std::mem::swap(&mut self.events, &mut taken);
        let dropped = self.dropped;
        self.dropped = 0;
        assert(index_slots(self.index).dom() =~= live_slots(self@));
        if self.tempfiles || dropped == 0 {
            proof {
                lemma_delivered_all(before);
            }
            return Events { events: taken };
        }
        let total = batch_len(&taken);
        let all = batch_as_slice(&taken);
        let mut kept = batch_new();
        let mut i: usize = 0;
        while i < all.len()
            invariant
                i <= all@.len(),
                all@.len() == before.len(),
                before.len() <= isize::MAX,
                forall|j: int| 0 <= j < all@.len() ==> (#[trigger] all@[j])@ == before[j],
                batch_events(kept) == delivered(before.subrange(0, i as int), false),
            decreases all@.len() - i,
        {
            proof {
                lemma_delivered_len(before.subrange(0, i as int), false);
                assert(before.subrange(0, i + 1).drop_last() =~= before.subrange(0, i as int));
            }
            if all[i].ty != EventType::Tempfile {
                batch_push(&mut kept, all[i].clone());
            }
            i += 1;
        }
        assert(before.subrange(0, i as int) =~= before);
        Events { events: kept }
    }
}

/// What a lookup among the live slots finds is where the live entry stands.
proof fn lemma_recorded(events: Seq<EventView>, path: Seq<u8>, found: Option<u32>)
    requires
        events.len() <= u32::MAX,
        match found {
            Some(slot) => live_slots(events).contains(slot) && event_paths(events)[slot as int]
                == path,
            None => forall|slot: u32|
                live_slots(events).contains(slot) ==> event_paths(events)[slot as int] != path,
        },
        forall|a: u32, b: u32|
            live_slots(events).contains(a) && live_slots(events).contains(b) && event_paths(
                events,
            )[a as int] == event_paths(events)[b as int] ==> a == b,
    ensures
        recorded(events, path) == match found {
            Some(slot) => Some(slot as int),
            None => None,
        },
        one_per_path(events),
{
    assert forall|i: int, j: int|
        0 <= i < events.len() && 0 <= j < events.len() && events[i].path == events[j].path
            && events[i].ty != EventType::Tempfile && events[j].ty
            != EventType::Tempfile implies i == j by {
        assert(live_slots(events).contains(i as u32));
        assert(live_slots(events).contains(j as u32));
    }
    match found {
        Some(slot) => {
            assert(is_live_at(events, slot as int, path));
            let i = choose|i: int| is_live_at(events, i, path);
            assert(i == slot);
        },
        None => {
            assert forall|i: int| !is_live_at(events, i, path) by {
                if is_live_at(events, i, path) {
                    assert(live_slots(events).contains(i as u32));
                }
            }
        },
    }
}

/// In a well-formed debouncer no path has two live entries.
proof fn lemma_live_distinct(events: Seq<EventView>, index: PathIndex)
    requires
        events.len() <= u32::MAX,
        indexes(index, event_paths(events), live_slots(events)),
    ensures
        one_per_path(events),
{
    assert forall|i: int, j: int|
        0 <= i < events.len() && 0 <= j < events.len() && events[i].path == events[j].path
            && events[i].ty != EventType::Tempfile && events[j].ty
            != EventType::Tempfile implies i == j by {
        assert(live_slots(events).contains(i as u32));
        assert(live_slots(events).contains(j as u32));
    }
}

/// The paths of a list that got one more event.
proof fn lemma_paths_push(events: Seq<EventView>, event: EventView)
    ensures
        event_paths(events.push(event)) == event_paths(events).push(event.path),
{
    assert(event_paths(events.push(event)) =~= event_paths(events).push(event.path));
}

/// Writing another kind into an entry leaves every path as it is.
proof fn lemma_paths_update(events: Seq<EventView>, i: int, ty: EventType)
    requires
        0 <= i < events.len(),
    ensures
        event_paths(events.update(i, EventView { path: events[i].path, ty })) == event_paths(
            events,
        ),
{
    assert(event_paths(events.update(i, EventView { path: events[i].path, ty })) =~= event_paths(
        events,
    ));
}

/// How the number of dropped entries changes when one entry gets another
/// kind.
proof fn lemma_dropped_update(events: Seq<EventView>, i: int, ty: EventType)
    requires
        0 <= i < events.len(),
    ensures
        dropped_count(events.update(i, EventView { path: events[i].path, ty })) + (if events[i].ty
            == EventType::Tempfile {
            1nat
        } else {
            0nat
        }) == dropped_count(events) + (if ty == EventType::Tempfile {
            1nat
        } else {
            0nat
        }),
    decreases events.len(),
{
    let after = events.update(i, EventView { path: events[i].path, ty });
    if i == events.len() - 1 {
        assert(after.drop_last() =~= events.drop_last());
    } else {
        lemma_dropped_update(events.drop_last(), i, ty);
        assert(after.drop_last() =~= events.drop_last().update(
            i,
            EventView { path: events[i].path, ty },
        ));
    }
}

/// A list without dropped entries is delivered whole.
proof fn lemma_delivered_all(events: Seq<EventView>)
    ensures
        dropped_count(events) == 0 ==> delivered(events, false) == events,
        delivered(events, true) == events,
    decreases events.len(),
{
    if events.len() > 0 {
        lemma_delivered_all(events.drop_last());
        assert(events.drop_last().push(events.last()) =~= events);
    }
}

/// Leaving entries out does not bring two live entries of one path
/// together.
proof fn lemma_delivered_one_per_path(events: Seq<EventView>, tempfiles: bool)
    requires
        one_per_path(events),
    ensures
        one_per_path(delivered(events, tempfiles)),
        forall|e: EventView| #[trigger]
            delivered(events, tempfiles).contains(e) ==> events.contains(e),
    decreases events.len(),
{
    if events.len() > 0 {
        let rest = events.drop_last();
        assert(one_per_path(rest)) by {
            assert forall|i: int, j: int|
                0 <= i < rest.len() && 0 <= j < rest.len() && rest[i].path == rest[j].path
                    && rest[i].ty != EventType::Tempfile && rest[j].ty
                    != EventType::Tempfile implies i == j by {
                assert(rest[i] == events[i] && rest[j] == events[j]);
            }
        }
        lemma_delivered_one_per_path(rest, tempfiles);
        let out = delivered(events, tempfiles);
        let sub = delivered(rest, tempfiles);
        assert forall|e: EventView| #[trigger] out.contains(e) implies events.contains(e) by {
            let k = choose|k: int| 0 <= k < out.len() && out[k] == e;
            if k < sub.len() {
                assert(sub.contains(e));
                let m = choose|m: int| 0 <= m < rest.len() && rest[m] == e;
                assert(events[m] == e);
            } else {
                assert(events[events.len() - 1] == e);
            }
        }
        assert forall|i: int, j: int|
            0 <= i < out.len() && 0 <= j < out.len() && out[i].path == out[j].path && out[i].ty
                != EventType::Tempfile && out[j].ty != EventType::Tempfile implies i == j by {
            if i < sub.len() && j < sub.len() {
            } else if i < sub.len() {
                assert(sub.contains(out[i]));
                let m = choose|m: int| 0 <= m < rest.len() && rest[m] == out[i];
                assert(events[m] == out[i]);
            } else if j < sub.len() {
                assert(sub.contains(out[j]));
                let m = choose|m: int| 0 <= m < rest.len() && rest[m] == out[j];
                assert(events[m] == out[j]);
            }
        }
    }
}

/// A first report for a path opens a live entry at the end, and that is
/// where the next report for the path finds it.
pub proof fn lemma_first_report(events: Seq<EventView>, path: Seq<u8>, ty: EventType)
    requires
        recorded(events, path).is_none(),
        ty != EventType::Tempfile,
    ensures
        record(events, path, ty) == events.push(EventView { path, ty }),
        recorded(record(events, path, ty), path) == Some(events.len() as int),
{
    let after = events.push(EventView { path, ty });
    let n = events.len() as int;
    assert(is_live_at(after, n, path));
    assert forall|i: int| is_live_at(after, i, path) implies i == n by {
        if i < n {
            assert(is_live_at(events, i, path));
        }
    }
}

/// Recording a report keeps the entries at one live entry per path.
pub proof fn lemma_record_one_per_path(events: Seq<EventView>, path: Seq<u8>, ty: EventType)
    requires
        one_per_path(events),
    ensures
        one_per_path(record(events, path, ty)),
{
    let after = record(events, path, ty);
    match recorded(events, path) {
        None => {
            assert forall|i: int, j: int|
                0 <= i < after.len() && 0 <= j < after.len() && after[i].path == after[j].path
                    && after[i].ty != EventType::Tempfile && after[j].ty
                    != EventType::Tempfile implies i == j by {
                if i < events.len() && j == events.len() {
                    assert(is_live_at(events, i, path));
                }
                if j < events.len() && i == events.len() {
                    assert(is_live_at(events, j, path));
                }
            }
        },
        Some(at) => {
            assert(is_live_at(events, at, path));
            assert forall|i: int, j: int|
                0 <= i < after.len() && 0 <= j < after.len() && after[i].path == after[j].path
                    && after[i].ty != EventType::Tempfile && after[j].ty
                    != EventType::Tempfile implies i == j by {
                assert(events[i].path == after[i].path && events[j].path == after[j].path);
                assert(events[i].ty != EventType::Tempfile);
                assert(events[j].ty != EventType::Tempfile);
            }
        },
    }
}

/// A report for one path leaves the entry of every other path as it is:
/// where it stands, and of what kind it is.
pub proof fn lemma_record_keeps_others(
    events: Seq<EventView>,
    path: Seq<u8>,
    ty: EventType,
    other: Seq<u8>,
)
    requires
        one_per_path(events),
        other != path,
    ensures
        recorded(record(events, path, ty), other) == recorded(events, other),
        match recorded(events, other) {
            Some(i) => record(events, path, ty)[i] == events[i],
            None => true,
        },
{
    let after = record(events, path, ty);
    lemma_record_one_per_path(events, path, ty);
    match recorded(events, path) {
        Some(at) => {
            assert(is_live_at(events, at, path));
        },
        None => {},
    }
    assert forall|i: int| is_live_at(after, i, other) <==> is_live_at(events, i, other) by {
        match recorded(events, path) {
            Some(at) => {
                if i == at {
                    assert(after[i].path == path);
                }
            },
            None => {},
        }
    }
    match recorded(events, other) {
        Some(i) => {
            assert(is_live_at(events, i, other));
            assert(is_live_at(after, i, other));
            let j = choose|j: int| is_live_at(after, j, other);
            assert(is_live_at(after, j, other));
        },
        None => {
            assert forall|i: int| !is_live_at(after, i, other) by {
                if is_live_at(after, i, other) {
                    assert(is_live_at(events, i, other));
                }
            }
        },
    }
}

/// A report for a path makes the entry of that path follow the table: a
/// first report opens an entry of its kind; a later report gives the entry
/// the merged kind; and the entry goes away in one case only, where a
/// created file is deleted.
pub proof fn lemma_record_follows_table(events: Seq<EventView>, path: Seq<u8>, ty: EventType)
    requires
        one_per_path(events),
    ensures
        match recorded(events, path) {
            None => if ty == EventType::Tempfile {
                recorded(record(events, path, ty), path).is_none()
            } else {
                recorded(record(events, path, ty), path) == Some(events.len() as int) && record(
                    events,
                    path,
                    ty,
                )[events.len() as int].ty == ty
            },
            Some(i) => match merged(events[i].ty, ty) {
                Some(kind) => recorded(record(events, path, ty), path) == Some(i) && record(
                    events,
                    path,
                    ty,
                )[i].ty == kind,
                None => recorded(record(events, path, ty), path).is_none() && events[i].ty
                    == EventType::Create && ty == EventType::Delete,
            },
        },
{
    let after = record(events, path, ty);
    lemma_record_one_per_path(events, path, ty);
    match recorded(events, path) {
        None => {
            if ty == EventType::Tempfile {
                assert forall|i: int| !is_live_at(after, i, path) by {
                    if is_live_at(after, i, path) {
                        assert(is_live_at(events, i, path));
                    }
                }
            } else {
                lemma_first_report(events, path, ty);
            }
        },
        Some(i) => {
            assert(is_live_at(events, i, path));
            match merged(events[i].ty, ty) {
                Some(kind) => {
                    assert(is_live_at(after, i, path));
                    let j = choose|j: int| is_live_at(after, j, path);
                    assert(is_live_at(after, j, path));
                },
                None => {
                    assert forall|j: int| !is_live_at(after, j, path) by {
                        if is_live_at(after, j, path) {
                            assert(is_live_at(events, j, path));
                        }
                    }
                },
            }
        },
    }
}

/// A file that is created and deleted within one window collapses: the
/// batch holds no event for it, or, where dropped files are signalled, the
/// one event `Tempfile`.
pub proof fn lemma_create_delete_collapses(events: Seq<EventView>, path: Seq<u8>)
    requires
        recorded(events, path).is_none(),
    ensures
        delivered(
            record(record(events, path, EventType::Create), path, EventType::Delete),
            false,
        ) == delivered(events, false),
        delivered(
            record(record(events, path, EventType::Create), path, EventType::Delete),
            true,
        ) == delivered(events, true).push(EventView { path, ty: EventType::Tempfile }),
        recorded(
            record(record(events, path, EventType::Create), path, EventType::Delete),
            path,
        ).is_none(),
{
    lemma_first_report(events, path, EventType::Create);
    let created = events.push(EventView { path, ty: EventType::Create });
    let after = record(created, path, EventType::Delete);
    let dropped = EventView { path, ty: EventType::Tempfile };
    assert(after =~= events.push(dropped));
    assert(after.drop_last() =~= events);
    assert forall|i: int| !is_live_at(after, i, path) by {
        if is_live_at(after, i, path) {
            assert(is_live_at(events, i, path));
        }
    }
}

/// A file that is deleted and created again within one window was
/// modified: its one event is `Modified`.
pub proof fn lemma_delete_create_is_modified(events: Seq<EventView>, path: Seq<u8>)
    requires
        recorded(events, path).is_none(),
    ensures
        record(record(events, path, EventType::Delete), path, EventType::Create) == events.push(
            EventView { path, ty: EventType::Modified },
        ),
{
    lemma_first_report(events, path, EventType::Delete);
    let deleted = events.push(EventView { path, ty: EventType::Delete });
    assert(deleted.update(events.len() as int, EventView { path, ty: EventType::Modified })
        =~= events.push(EventView { path, ty: EventType::Modified }));
}

/// A file that is created, modified and deleted within one window leaves no
/// event in a batch that does not signal dropped files, and never three.
pub proof fn lemma_create_modify_delete_collapses(events: Seq<EventView>, path: Seq<u8>)
    requires
        recorded(events, path).is_none(),
    ensures
        delivered(
            record(
                record(record(events, path, EventType::Create), path, EventType::Modified),
                path,
                EventType::Delete,
            ),
            false,
        ) == delivered(events, false),
{
    lemma_first_report(events, path, EventType::Create);
    let created = events.push(EventView { path, ty: EventType::Create });
    let modified = record(created, path, EventType::Modified);
    assert(modified =~= created);
    lemma_create_delete_collapses(events, path);
}

/// Dropped entries are the ones that a batch without signalling leaves out.
pub proof fn lemma_delivered_len(events: Seq<EventView>, tempfiles: bool)
    ensures
        dropped_count(events) <= events.len(),
        tempfiles ==> delivered(events, tempfiles) == events,
        !tempfiles ==> delivered(events, tempfiles).len() + dropped_count(events) == events.len(),
    decreases events.len(),
{
    if events.len() > 0 {
        lemma_delivered_len(events.drop_last(), tempfiles);
        if tempfiles {
            assert(events.drop_last().push(events.last()) =~= events);
        }
    }
}

} // verus!
