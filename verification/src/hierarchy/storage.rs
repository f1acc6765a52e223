use vstd::prelude::*;

use crate::hierarchy::bitmap::{bitmap_len, bitmap_set, bitmap_wf};
use crate::hierarchy::merge_event::MergeEvent;

verus! {

/// Errors of a storage backend for merge events.
#[derive(Debug)]
pub enum StorageError {
    Io(std::io::Error),
    Serialization(String),
    IndexOutOfBounds { index: usize, len: usize },
    ReadOnly,
}

/// What an event holds: threshold, surviving parent and absorbed records.
pub open spec fn event_view(e: MergeEvent) -> (i64, u32, Set<u32>) {
    (e.threshold, e.parent_id, bitmap_set(e.child_nodes))
}

/// Every event's bitmap is well formed.
pub open spec fn bitmaps_wf(events: Seq<MergeEvent>) -> bool {
    forall|k: int| 0 <= k < events.len() ==> bitmap_wf(#[trigger] events[k].child_nodes)
}

/// The views of a list of events.
pub open spec fn events_view(events: Seq<MergeEvent>) -> Seq<(i64, u32, Set<u32>)> {
    events.map_values(|e: MergeEvent| event_view(e))
}

/// `x`, or the largest `u64` when it is larger.
pub open spec fn saturated(x: int) -> int {
    if x > u64::MAX {
        u64::MAX as int
    } else {
        x
    }
}

/// Four bytes per child record of every event.
pub open spec fn child_bytes(events: Seq<(i64, u32, Set<u32>)>) -> int
    decreases events.len(),
{
    if events.len() == 0 {
        0
    } else {
        child_bytes(events.drop_last()) + 4 * events.last().2.len()
    }
}

proof fn lemma_child_bytes_nonneg(events: Seq<(i64, u32, Set<u32>)>)
    ensures
        child_bytes(events) >= 0,
    decreases events.len(),
{
    if events.len() > 0 {
        lemma_child_bytes_nonneg(events.drop_last());
    }
}

/// Merge events kept in memory, in the order they were pushed.
#[derive(Debug)]
pub struct InMemoryStorage {
    events: Vec<MergeEvent>,
}

impl View for InMemoryStorage {
    type V = Seq<(i64, u32, Set<u32>)>;

    closed spec fn view(&self) -> Seq<(i64, u32, Set<u32>)> {
        events_view(self.events@)
    }
}

impl InMemoryStorage {
    /// The stored bitmaps are well formed.
    #[verifier::type_invariant]
    spec fn stored_bitmaps_wf(self) -> bool {
        bitmaps_wf(self.events@)
    }

    pub fn new() -> (s: Self)
        ensures
            s@ == Seq::<(i64, u32, Set<u32>)>::empty(),
    {
        let s = InMemoryStorage { events: Vec::new() };
        assert(s@ =~= Seq::<(i64, u32, Set<u32>)>::empty());
        s
    }

    pub fn with_capacity(capacity: usize) -> (s: Self)
        ensures
            s@ == Seq::<(i64, u32, Set<u32>)>::empty(),
    {
        let s = InMemoryStorage { events: Vec::with_capacity(capacity) };
        assert(s@ =~= Seq::<(i64, u32, Set<u32>)>::empty());
        s
    }

    /// Storage holding `events`, in order.
    pub fn from_events(events: Vec<MergeEvent>) -> (s: Self)
        requires
            bitmaps_wf(events@),
        ensures
            s@ == events_view(events@),
    {
        InMemoryStorage { events }
    }

    /// Append an event; never fails in memory.
    pub fn push(&mut self, event: MergeEvent) -> (r: Result<(), StorageError>)
        requires
            bitmap_wf(event.child_nodes),
        ensures
            r is Ok,
            final(self)@ == old(self)@.push(event_view(event)),
    {
        proof {
            use_type_invariant(&*self);
        }
        let mut events: Vec<MergeEvent> = Vec::new();
        std::mem::swap(&mut events, &mut self.events);
        events.push(event);
        self.events = events;
        assert(self@ =~= old(self)@.push(event_view(event)));
        Ok(())
    }

    /// The event at `index`, if there is one.
    pub fn get(&self, index: usize) -> (r: Result<Option<&MergeEvent>, StorageError>)
        ensures
            r matches Ok(o) && (match o {
                Some(e) => index < self@.len() && event_view(*e) == self@[index as int] && bitmap_wf(e.child_nodes),
                None => index >= self@.len(),
            }),
    {
        proof {
            use_type_invariant(self);
        }
        if index < self.events.len() {
            Ok(Some(&self.events[index]))
        } else {
            Ok(None)
        }
    }

    pub fn len(&self) -> (n: usize)
        ensures
            n == self@.len(),
    {
        self.events.len()
    }

    pub fn is_empty(&self) -> (b: bool)
        ensures
            b == (self@.len() == 0),
    {
        self.events.len() == 0
    }

    /// Copies of all events, in order.
    pub fn iter(&self) -> (r: Result<Vec<MergeEvent>, StorageError>)
        ensures
            r matches Ok(v) && events_view(v@) == self@ && bitmaps_wf(v@),
    {
        proof {
            use_type_invariant(self);
        }
        let mut out: Vec<MergeEvent> = Vec::new();
        let mut i: usize = 0;
        while i < self.events.len()
            invariant
                i <= self.events@.len(),
                bitmaps_wf(self.events@),
                bitmaps_wf(out@),
                events_view(out@) == events_view(self.events@.subrange(0, i as int)),
            decreases self.events@.len() - i,
        {
            let e = self.events[i].duplicate();
            let ghost before = out@;
            out.push(e);
            i = i + 1;
            proof {
                assert(events_view(out@) =~= events_view(before).push(event_view(e)));
                assert(events_view(self.events@.subrange(0, i as int)) =~= events_view(
                    self.events@.subrange(0, i - 1),
                ).push(event_view(self.events@[i - 1])));
            }
        }
        proof {
            assert(self.events@.subrange(0, self.events@.len() as int) =~= self.events@);
        }
        Ok(out)
    }

    /// Estimated bytes held: every event's own size plus four bytes per
    /// child record, saturating at the largest `u64`.
    pub fn memory_usage_bytes(&self) -> (r: u64)
        ensures
            r == saturated(self@.len() * vstd::layout::size_of::<MergeEvent>() + child_bytes(self@)),
    {
        proof {
            use_type_invariant(self);
        }
        let event_size = core::mem::size_of::<MergeEvent>() as u64;
        let event_overhead = match (self.events.len() as u64).checked_mul(event_size) {
            Some(v) => v,
            None => u64::MAX,
        };
        let mut bitmap_size: u64 = 0;
        let mut i: usize = 0;
        proof {
            assert(self@.take(0) =~= Seq::<(i64, u32, Set<u32>)>::empty());
        }
        while i < self.events.len()
            invariant
                i <= self.events@.len(),
                bitmaps_wf(self.events@),
                bitmap_size == saturated(child_bytes(self@.take(i as int))),
            decreases self.events@.len() - i,
        {
            let n = bitmap_len(&self.events[i].child_nodes);
            proof {
                assert(self@.take(i + 1).drop_last() =~= self@.take(i as int));
                assert(self@.take(i + 1).last() == event_view(self.events@[i as int]));
                lemma_child_bytes_nonneg(self@.take(i as int));
                assert(n <= 0x1_0000_0000) by {
                    crate::hierarchy::bitmap::lemma_u32_set_finite(bitmap_set(self.events@[i as int].child_nodes));
                    crate::hierarchy::merge_event::lemma_u32_set_len_bound(bitmap_set(self.events@[i as int].child_nodes));
                }
            }
            bitmap_size = bitmap_size.saturating_add(n * 4);
            i = i + 1;
        }
        proof {
            assert(self@.take(self@.len() as int) =~= self@);
            lemma_child_bytes_nonneg(self@);
        }
        event_overhead.saturating_add(bitmap_size)
    }

    /// Nothing is pending in memory.
    pub fn sync(&mut self) -> (r: Result<(), StorageError>)
        ensures
            r is Ok,
            final(self)@ == old(self)@,
    {
        Ok(())
    }

    /// An independent copy of the events.
    pub fn duplicate(&self) -> (s: Self)
        ensures
            s@ == self@,
    {
        match self.iter() {
            Ok(events) => InMemoryStorage { events },
            Err(_) => {
                proof {
                    assert(false);
                }
                InMemoryStorage::new()
            },
        }
    }
}

} // verus!
