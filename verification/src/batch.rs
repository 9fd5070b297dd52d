//! The queue of pending mutations, one per node id at most, and the budget
//! rule by which a drain of the queue decides when to pause.

use vstd::prelude::*;
use crate::ordered_map::{
    entries_view, first_entry, is_listing, lookup, put_all, without_first, Entry, ICRBTree,
};

verus! {

/// Ceiling on the instructions of one call.
pub const EXECUTION_LIMIT: u64 = 40000000000;

/// A pending mutation of one node.
pub enum OptType {
    /// Mark the node for removal.
    Delete,
    /// Replace the node's metadata.
    Modify(Vec<u8>),
    /// Set the node's metadata and link the node into the graph.
    Insert(Vec<u8>),
}

/// A pending mutation as plain values.
pub enum OptTypeView {
    Delete,
    Modify(Seq<u8>),
    Insert(Seq<u8>),
}

impl View for OptType {
    type V = OptTypeView;

    open spec fn view(&self) -> OptTypeView {
        match self {
            OptType::Delete => OptTypeView::Delete,
            OptType::Modify(m) => OptTypeView::Modify(m@),
            OptType::Insert(m) => OptTypeView::Insert(m@),
        }
    }
}

/// The stored form of a mutation: a tag byte, 0 for delete, 1 for modify,
/// 2 for insert, and then the metadata.
pub open spec fn opt_bytes(opt: OptTypeView) -> Seq<u8> {
    match opt {
        OptTypeView::Delete => seq![0u8],
        OptTypeView::Modify(m) => seq![1u8] + m,
        OptTypeView::Insert(m) => seq![2u8] + m,
    }
}

/// The mutation that stored bytes hold, if they hold one.
pub open spec fn spec_opt(bytes: Seq<u8>) -> Option<OptTypeView> {
    if bytes.len() == 0 {
        None
    } else if bytes[0] == 0 && bytes.len() == 1 {
        Some(OptTypeView::Delete)
    } else if bytes[0] == 1 {
        Some(OptTypeView::Modify(bytes.subrange(1, bytes.len() as int)))
    } else if bytes[0] == 2 {
        Some(OptTypeView::Insert(bytes.subrange(1, bytes.len() as int)))
    } else {
        None
    }
}

/// Reading a stored mutation gives the mutation back.
pub proof fn lemma_opt_round_trip(opt: OptTypeView)
    ensures
        spec_opt(opt_bytes(opt)) == Some(opt),
{
    match opt {
        OptTypeView::Delete => {},
        OptTypeView::Modify(m) => {
            assert((seq![1u8] + m).subrange(1, (seq![1u8] + m).len() as int) =~= m);
        },
        OptTypeView::Insert(m) => {
            assert((seq![2u8] + m).subrange(1, (seq![2u8] + m).len() as int) =~= m);
        },
    }
}

/// The view of an optional mutation.
pub open spec fn opt_view(opt: Option<OptType>) -> Option<OptTypeView> {
    match opt {
        Some(o) => Some(o@),
        None => None,
    }
}

/// A copy of `bytes` from place `from` on.
fn tail_of(bytes: &Vec<u8>, from: usize) -> (r: Vec<u8>)
    requires
        from <= bytes@.len(),
    ensures
        r@ == bytes@.subrange(from as int, bytes@.len() as int),
{
    let mut out: Vec<u8> = Vec::new();
    let mut i: usize = from;
    while i < bytes.len()
        invariant
            from <= i <= bytes@.len(),
            out@ == bytes@.subrange(from as int, i as int),
        decreases bytes@.len() - i,
    {
        out.push(bytes[i]);
        assert(out@ =~= bytes@.subrange(from as int, i + 1));
        i += 1;
    }
    out
}

impl OptType {
    /// The length of the metadata that the mutation carries.
    pub open spec fn payload_len(self) -> nat {
        match self {
            OptType::Delete => 0,
            OptType::Modify(m) => m@.len(),
            OptType::Insert(m) => m@.len(),
        }
    }

    /// The stored form of the mutation.
    pub fn to_bytes(&self) -> (r: Vec<u8>)
        requires
            self.payload_len() < usize::MAX,
        ensures
            r@ == opt_bytes(self@),
            r@.len() == self.payload_len() + 1,
    {
        let mut out: Vec<u8> = Vec::new();
        match self {
            OptType::Delete => {
                out.push(0u8);
            },
            OptType::Modify(m) => {
                out.push(1u8);
                let mut copy: Vec<u8> = m.clone();
                out.append(&mut copy);
            },
            OptType::Insert(m) => {
                out.push(2u8);
                let mut copy: Vec<u8> = m.clone();
                out.append(&mut copy);
            },
        }
        assert(out@ =~= opt_bytes(self@));
        out
    }

    /// The mutation that stored bytes hold; `None` where they hold none.
    pub fn from_bytes(bytes: &Vec<u8>) -> (r: Option<OptType>)
        ensures
            opt_view(r) == spec_opt(bytes@),
    {
        if bytes.len() == 0 {
            return None;
        }
        let tag: u8 = bytes[0];
        if tag == 0 {
            if bytes.len() == 1 {
                Some(OptType::Delete)
            } else {
                None
            }
        } else if tag == 1 {
            Some(OptType::Modify(tail_of(bytes, 1)))
        } else if tag == 2 {
            Some(OptType::Insert(tail_of(bytes, 1)))
        } else {
            None
        }
    }
}

/// A list of mutations with their ids, as plain values.
pub open spec fn plan_view(items: Seq<(u32, OptType)>) -> Seq<(u32, OptTypeView)> {
    Seq::new(items.len(), |i: int| (items[i].0, items[i].1@))
}

/// The entries that a list of mutations is stored as.
pub open spec fn stored_plan(plan: Seq<(u32, OptTypeView)>) -> Seq<(u32, Seq<u8>)> {
    Seq::new(plan.len(), |i: int| (plan[i].0, opt_bytes(plan[i].1)))
}

/// Whether the metadata of every mutation of the list is short enough to
/// be stored.
pub open spec fn payloads_short(items: Seq<(u32, OptType)>) -> bool {
    forall|i: int| 0 <= i < items.len() ==> (#[trigger] items[i]).1.payload_len() < u32::MAX
}

/// Whether `items` holds each pending mutation of the queue once, in
/// ascending order of the ids.
pub open spec fn lists_pending(items: Seq<(u32, OptTypeView)>, entries: Map<u32, Seq<u8>>) -> bool {
    &&& items.len() == entries.dom().len()
    &&& forall|a: int, b: int| 0 <= a < b < items.len() ==> items[a].0 < items[b].0
    &&& forall|k: int|
        0 <= k < items.len() ==> entries.contains_key((#[trigger] items[k]).0) && spec_opt(
            entries[items[k].0],
        ) == Some(items[k].1)
    &&& forall|id: u32|
        entries.contains_key(id) ==> exists|k: int|
            0 <= k < items.len() && (#[trigger] items[k]).0 == id
}

/// Why a mutation was not queued, or a queued one not applied.
#[derive(Clone, Copy, Debug, PartialEq, Eq, Structural)]
pub enum BatchError {
    /// The index is not running.
    NotRunning,
    /// The metadata cell and the graph disagree on the next free id.
    OutOfSync,
    /// An id would get a second pending mutation.
    DuplicateId,
    /// A piece of metadata is too long to store.
    TooLong,
    /// A vector does not have the dimension of the index.
    WrongDimension,
    /// There are not enough ids left for the new nodes.
    IdsExhausted,
    /// The store or a list could not grow.
    GrowFailed,
}

/// The queue of pending mutations, keyed by node id.
pub struct BatchPool {
    pool: ICRBTree,
}

impl BatchPool {
    /// The stored entries of the queue.
    pub closed spec fn entries(&self) -> Map<u32, Seq<u8>> {
        self.pool.entries()
    }

    /// Every entry holds a mutation and is short enough to be stored.
    pub open spec fn wf(&self) -> bool {
        &&& self.entries().dom().finite()
        &&& forall|id: u32| #[trigger]
            self.entries().contains_key(id) ==> spec_opt(self.entries()[id]) is Some
                && self.entries()[id].len() <= u32::MAX
    }

    /// The mutation that is pending for `id`, if there is one.
    pub open spec fn pending(&self, id: u32) -> Option<OptTypeView> {
        match lookup(self.entries(), id) {
            Some(bytes) => spec_opt(bytes),
            None => None,
        }
    }

    /// An empty queue.
    pub fn new() -> (r: Self)
        ensures
            r.wf(),
            r.entries() == Map::<u32, Seq<u8>>::empty(),
    {
        BatchPool { pool: ICRBTree::new() }
    }

    /// The number of pending mutations.
    pub fn len(&self) -> (r: u64)
        ensures
            r == self.entries().dom().len(),
    {
        self.pool.len()
    }

    /// Whether a mutation is pending for `id`.
    pub fn contains(&self, id: u32) -> (r: bool)
        ensures
            r == self.entries().contains_key(id),
    {
        self.pool.get(id).is_some()
    }

    /// Why `opt` cannot be queued for `id`, if it cannot: a mutation is
    /// pending for the id already, or the metadata is too long.
    pub open spec fn spec_insert_error(&self, id: u32, opt: OptType) -> Option<BatchError> {
        if self.entries().contains_key(id) {
            Some(BatchError::DuplicateId)
        } else if opt.payload_len() >= u32::MAX {
            Some(BatchError::TooLong)
        } else {
            None
        }
    }

    /// Queues a mutation for `id`. On an error nothing changes.
    pub fn insert(&mut self, id: u32, opt: OptType) -> (r: Result<(), BatchError>)
        requires
            old(self).wf(),
        ensures
            final(self).wf(),
            match old(self).spec_insert_error(id, opt) {
                Some(e) => r == Err::<(), BatchError>(e) && final(self).entries() == old(self).entries(),
                None => r is Ok && final(self).entries() == old(self).entries().insert(
                    id,
                    opt_bytes(opt@),
                ),
            },
    {
        if self.contains(id) {
            return Err(BatchError::DuplicateId);
        }
        let too_long: bool = match &opt {
            OptType::Delete => false,
            OptType::Modify(m) => m.len() >= 0xffff_ffff,
            OptType::Insert(m) => m.len() >= 0xffff_ffff,
        };
        if too_long {
            return Err(BatchError::TooLong);
        }
        let bytes: Vec<u8> = opt.to_bytes();
        proof {
            lemma_opt_round_trip(opt@);
        }
        let _ = self.pool.insert(id, bytes);
        Ok(())
    }

    /// Queues every mutation of the list, one after the other, whatever is
    /// pending already: of two mutations for one id the later stays.
    pub fn insert_all(&mut self, items: &Vec<(u32, OptType)>)
        requires
            old(self).wf(),
            payloads_short(items@),
        ensures
            final(self).wf(),
            final(self).entries() == put_all(old(self).entries(), stored_plan(plan_view(items@))),
    {
        let ghost all = stored_plan(plan_view(items@));
        let ghost start = self.entries();
        let mut i: usize = 0;
        assert(all.subrange(0, 0) =~= Seq::empty());
        while i < items.len()
            invariant
                i <= items.len(),
                payloads_short(items@),
                all == stored_plan(plan_view(items@)),
                self.wf(),
                self.entries() == put_all(start, all.subrange(0, i as int)),
            decreases items.len() - i,
        {
            let id: u32 = items[i].0;
            assert(items@[i as int].1.payload_len() < u32::MAX);
            let bytes: Vec<u8> = items[i].1.to_bytes();
            proof {
                lemma_opt_round_trip(items@[i as int].1@);
                assert(all[i as int] == (id, bytes@));
                assert(all.subrange(0, i + 1).drop_last() =~= all.subrange(0, i as int));
                assert(all.subrange(0, i + 1).last() == all[i as int]);
            }
            let _ = self.pool.insert(id, bytes);
            i += 1;
        }
        assert(all.subrange(0, items@.len() as int) =~= all);
    }

    /// The pending mutations with their ids, in ascending order of the ids.
    pub fn items(&self) -> (r: Vec<(u32, OptType)>)
        requires
            self.wf(),
        ensures
            lists_pending(plan_view(r@), self.entries()),
    {
        let listing: Vec<Entry> = self.pool.get_items();
        let ghost entries = self.entries();
        let ghost stored = entries_view(listing@);
        let mut out: Vec<(u32, OptType)> = Vec::new();
        let mut i: usize = 0;
        while i < listing.len()
            invariant
                i <= listing.len(),
                self.wf(),
                entries == self.entries(),
                stored == entries_view(listing@),
                is_listing(stored, entries),
                out@.len() == i,
                forall|k: int|
                    0 <= k < i ==> (#[trigger] out@[k]).0 == stored[k].0 && Some(out@[k].1@)
                        == spec_opt(stored[k].1),
            decreases listing.len() - i,
        {
            let id: u32 = listing[i].0;
            proof {
                assert(stored[i as int].0 == id);
                assert(entries.contains_key(stored[i as int].0));
            }
            match OptType::from_bytes(&listing[i].1) {
                Some(opt) => {
                    out.push((id, opt));
                },
                None => {
                    proof {
                        assert(false);
                    }
                },
            }
            i += 1;
        }
        proof {
            let items = plan_view(out@);
            assert forall|a: int, b: int| 0 <= a < b < items.len() implies items[a].0
                < items[b].0 by {
                assert(out@[a].0 == stored[a].0 && out@[b].0 == stored[b].0);
            }
            assert forall|k: int| 0 <= k < items.len() implies entries.contains_key(
                (#[trigger] items[k]).0,
            ) && spec_opt(entries[items[k].0]) == Some(items[k].1) by {
                assert(out@[k].0 == stored[k].0);
                assert(entries.contains_key(stored[k].0));
            }
            assert forall|id: u32| entries.contains_key(id) implies exists|k: int|
                0 <= k < items.len() && (#[trigger] items[k]).0 == id by {
                let k = choose|k: int| 0 <= k < stored.len() && (#[trigger] stored[k]).0 == id;
                assert(out@[k].0 == stored[k].0);
                assert(items[k].0 == id);
            }
        }
        out
    }

    /// Takes the mutation with the least id out of the queue; `None`,
    /// changing nothing, on an empty queue.
    pub fn pop_first(&mut self) -> (r: Option<(u32, OptType)>)
        requires
            old(self).wf(),
        ensures
            final(self).wf(),
            final(self).entries() == without_first(old(self).entries()),
            match first_entry(old(self).entries()) {
                None => r is None,
                Some((id, bytes)) => r matches Some((rid, opt)) && rid == id && Some(opt@)
                    == spec_opt(bytes) && opt.payload_len() < u32::MAX,
            },
    {
        match self.pool.pop_first() {
            None => None,
            Some((id, bytes)) => {
                assert(old(self).entries().contains_key(id));
                match OptType::from_bytes(&bytes) {
                    Some(opt) => Some((id, opt)),
                    None => None,
                }
            },
        }
    }
}

/// What a drain of the queue does after one insertion.
#[derive(Clone, Copy, Debug, PartialEq, Eq, Structural)]
pub enum StepDecision {
    /// Go on with the next entry.
    Continue,
    /// Commit what was done, then go on with the next entry.
    Commit,
    /// Commit is due and the rounds of this call are used up: stop and
    /// report how many entries are left.
    Yield(u64),
}

/// The budget bookkeeping of one drain of the queue.
#[derive(Clone, Copy, Debug, PartialEq, Eq, Structural)]
pub struct Stepper {
    /// The most instructions that one insertion took so far in this call.
    pub maximum_num_instructions: u64,
    /// The commits that fell due so far in this call.
    pub iter_count: u64,
}

/// The larger of the two.
pub open spec fn larger(a: int, b: int) -> int {
    if a >= b {
        a
    } else {
        b
    }
}

/// Instructions that an insertion took, from the counter before and after.
pub open spec fn spent(start: u64, current: u64) -> int {
    if current >= start {
        current - start
    } else {
        0
    }
}

/// Whether another insertion as costly as one and a half times the
/// costliest so far could pass the ceiling.
pub open spec fn over_budget(current: u64, maximum: int) -> bool {
    current + (maximum + maximum / 2) > EXECUTION_LIMIT
}

impl Stepper {
    /// The bookkeeping at the start of a call.
    pub fn new() -> (r: Self)
        ensures
            r.maximum_num_instructions == 0,
            r.iter_count == 0,
    {
        Stepper { maximum_num_instructions: 0, iter_count: 0 }
    }

    /// Takes note of one insertion, which ran from instruction count `start`
    /// to `current` and left `list_len` entries in the queue, and decides how
    /// to go on. Where the budget guard strikes, a commit is due; where that
    /// is the `max_iter`-th commit of this call, the call yields.
    pub fn after_insert(&mut self, start: u64, current: u64, list_len: u64, max_iter: u64) -> (r:
        StepDecision)
        ensures
            final(self).maximum_num_instructions == larger(
                old(self).maximum_num_instructions as int,
                spent(start, current),
            ),
            !over_budget(current, final(self).maximum_num_instructions as int) ==> r
                == StepDecision::Continue && final(self).iter_count == old(self).iter_count,
            over_budget(current, final(self).maximum_num_instructions as int) ==> {
                &&& final(self).iter_count == (if old(self).iter_count == u64::MAX {
                    u64::MAX
                } else {
                    (old(self).iter_count + 1) as u64
                })
                &&& r == (if final(self).iter_count >= max_iter {
                    StepDecision::Yield(list_len)
                } else {
                    StepDecision::Commit
                })
            },
    {
        let took: u64 = if current >= start {
            current - start
        } else {
            0
        };
        if took > self.maximum_num_instructions {
            self.maximum_num_instructions = took;
        }
        let maximum: u128 = self.maximum_num_instructions as u128;
        let projected: u128 = current as u128 + (maximum + maximum / 2);
        if projected > EXECUTION_LIMIT as u128 {
            if self.iter_count < u64::MAX {
                self.iter_count = self.iter_count + 1;
            }
            if self.iter_count >= max_iter {
                StepDecision::Yield(list_len)
            } else {
                StepDecision::Commit
            }
        } else {
            StepDecision::Continue
        }
    }
}

} // verus!
