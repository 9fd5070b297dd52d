//! The running index as one value: the graph, the data map and the queue of
//! pending mutations, with the two operations that fill and drain the queue.

use vstd::prelude::*;
use crate::batch::{
    opt_bytes, payloads_short, plan_view, spec_opt, stored_plan, BatchError, BatchPool, OptType,
    OptTypeView,
};
use crate::graph::Graph;
use crate::id_list::list_takes;
use crate::metadata::{Metadata, MetadataView, RunningMetadata};
use crate::node_store::read_ok;
use crate::ordered_map::{first_entry, put_all, ICRBTree};

verus! {

/// A new item: the bit patterns of its vector, and its metadata.
pub type NewItem = (Vec<u32>, Vec<u8>);

/// A change of metadata: the node's id, and the new metadata.
pub type Modification = (u32, Vec<u8>);

/// The running index.
pub struct Engine {
    pub graph: Graph,
    pub data_map: ICRBTree,
    pub pool: BatchPool,
}

/// The mutations that a submission queues, in the order in which they are
/// queued: the deletions, the modifications, then the insertions, which get
/// the ids from `next` on.
pub open spec fn planned(
    deletes: Seq<u32>,
    modifies: Seq<Modification>,
    inserts: Seq<NewItem>,
    next: u32,
) -> Seq<(u32, OptTypeView)> {
    Seq::new(
        deletes.len() + modifies.len() + inserts.len(),
        |i: int|
            if i < deletes.len() {
                (deletes[i], OptTypeView::Delete)
            } else if i < deletes.len() + modifies.len() {
                (modifies[i - deletes.len()].0, OptTypeView::Modify(modifies[i - deletes.len()].1@))
            } else {
                (
                    (next + (i - deletes.len() - modifies.len())) as u32,
                    OptTypeView::Insert(inserts[i - deletes.len() - modifies.len()].1@),
                )
            },
    )
}

/// Whether no two mutations of the list have one id.
pub open spec fn distinct_keys(plan: Seq<(u32, OptTypeView)>) -> bool {
    forall|a: int, b: int| 0 <= a < b < plan.len() ==> plan[a].0 != plan[b].0
}

/// Whether no mutation of the list has an id for which one is pending.
pub open spec fn none_pending(pending: Map<u32, Seq<u8>>, plan: Seq<(u32, OptTypeView)>) -> bool {
    forall|i: int| 0 <= i < plan.len() ==> !pending.contains_key((#[trigger] plan[i]).0)
}

/// Whether every vector has `dim` components.
pub open spec fn dims_fit(inserts: Seq<NewItem>, dim: u32) -> bool {
    forall|i: int| 0 <= i < inserts.len() ==> (#[trigger] inserts[i]).0@.len() == dim
}

/// Whether the metadata of every mutation is short enough to be stored.
pub open spec fn plan_short(plan: Seq<(u32, OptTypeView)>) -> bool {
    forall|i: int| 0 <= i < plan.len() ==> opt_bytes((#[trigger] plan[i]).1).len() <= u32::MAX
}

/// The backlink entries of `count` new nodes with the ids from `next` on.
pub open spec fn new_links(next: u32, count: nat) -> Seq<(u32, Seq<u8>)> {
    Seq::new(count, |i: int| ((next + i) as u32, Seq::<u8>::empty()))
}

/// The ids of `count` new nodes from `next` on.
pub open spec fn new_ids(next: u32, count: nat) -> Seq<u32> {
    Seq::new(count, |i: int| (next + i) as u32)
}

/// Builds the list of the mutations that a submission queues.
fn build_plan(
    deletes: &Vec<u32>,
    modifies: &Vec<Modification>,
    inserts: &Vec<NewItem>,
    next: u32,
) -> (r: Vec<(u32, OptType)>)
    requires
        next + inserts@.len() <= u32::MAX,
    ensures
        plan_view(r@) == planned(deletes@, modifies@, inserts@, next),
{
    let ghost goal = planned(deletes@, modifies@, inserts@, next);
    let mut plan: Vec<(u32, OptType)> = Vec::new();
    let mut i: usize = 0;
    while i < deletes.len()
        invariant
            i <= deletes.len(),
            plan@.len() == i,
            goal == planned(deletes@, modifies@, inserts@, next),
            forall|k: int|
                0 <= k < i ==> (#[trigger] plan@[k]).0 == goal[k].0 && plan@[k].1@ == goal[k].1,
        decreases deletes.len() - i,
    {
        plan.push((deletes[i], OptType::Delete));
        i += 1;
    }
    let mut j: usize = 0;
    while j < modifies.len()
        invariant
            j <= modifies.len(),
            plan@.len() == deletes@.len() + j,
            goal == planned(deletes@, modifies@, inserts@, next),
            forall|k: int|
                0 <= k < plan@.len() ==> (#[trigger] plan@[k]).0 == goal[k].0 && plan@[k].1@
                    == goal[k].1,
        decreases modifies.len() - j,
    {
        plan.push((modifies[j].0, OptType::Modify(modifies[j].1.clone())));
        j += 1;
    }
    let mut k: usize = 0;
    while k < inserts.len()
        invariant
            k <= inserts.len(),
            next + inserts@.len() <= u32::MAX,
            plan@.len() == deletes@.len() + modifies@.len() + k,
            goal == planned(deletes@, modifies@, inserts@, next),
            forall|x: int|
                0 <= x < plan@.len() ==> (#[trigger] plan@[x]).0 == goal[x].0 && plan@[x].1@
                    == goal[x].1,
        decreases inserts.len() - k,
    {
        let id: u32 = next + k as u32;
        plan.push((id, OptType::Insert(inserts[k].1.clone())));
        k += 1;
    }
    assert(plan_view(plan@) =~= goal);
    plan
}

/// Whether no two mutations of the list have one id.
pub fn keys_distinct(plan: &Vec<(u32, OptType)>) -> (r: bool)
    ensures
        r == distinct_keys(plan_view(plan@)),
{
    let ghost view = plan_view(plan@);
    let mut b: usize = 0;
    while b < plan.len()
        invariant
            b <= plan.len(),
            view == plan_view(plan@),
            forall|x: int, y: int| 0 <= x < y < b ==> view[x].0 != view[y].0,
        decreases plan.len() - b,
    {
        let mut a: usize = 0;
        while a < b
            invariant
                a <= b < plan.len(),
                view == plan_view(plan@),
                forall|x: int| 0 <= x < a ==> view[x].0 != view[b as int].0,
            decreases b - a,
        {
            if plan[a].0 == plan[b].0 {
                assert(view[a as int].0 == view[b as int].0);
                return false;
            }
            a += 1;
        }
        b += 1;
    }
    true
}

/// Whether no mutation of the list has an id for which one is pending.
pub fn all_new(pool: &BatchPool, plan: &Vec<(u32, OptType)>) -> (r: bool)
    ensures
        r == none_pending(pool.entries(), plan_view(plan@)),
{
    let ghost view = plan_view(plan@);
    let mut i: usize = 0;
    while i < plan.len()
        invariant
            i <= plan.len(),
            view == plan_view(plan@),
            forall|x: int| 0 <= x < i ==> !pool.entries().contains_key((#[trigger] view[x]).0),
        decreases plan.len() - i,
    {
        if pool.contains(plan[i].0) {
            assert(pool.entries().contains_key(view[i as int].0));
            return false;
        }
        i += 1;
    }
    true
}

/// Whether the metadata of every mutation is short enough to be stored.
pub fn all_short(plan: &Vec<(u32, OptType)>) -> (r: bool)
    ensures
        r == payloads_short(plan@),
{
    let mut i: usize = 0;
    while i < plan.len()
        invariant
            i <= plan.len(),
            forall|x: int| 0 <= x < i ==> (#[trigger] plan@[x]).1.payload_len() < u32::MAX,
        decreases plan.len() - i,
    {
        let long: bool = match &plan[i].1 {
            OptType::Delete => false,
            OptType::Modify(m) => m.len() >= 0xffff_ffff,
            OptType::Insert(m) => m.len() >= 0xffff_ffff,
        };
        if long {
            assert(!(plan@[i as int].1.payload_len() < u32::MAX));
            return false;
        }
        i += 1;
    }
    true
}

/// Whether every vector has `dim` components.
pub fn all_fit(inserts: &Vec<NewItem>, dim: u32) -> (r: bool)
    ensures
        r == dims_fit(inserts@, dim),
{
    let mut i: usize = 0;
    while i < inserts.len()
        invariant
            i <= inserts.len(),
            forall|x: int| 0 <= x < i ==> (#[trigger] inserts@[x]).0@.len() == dim,
        decreases inserts.len() - i,
    {
        if inserts[i].0.len() != dim as usize {
            assert(inserts@[i as int].0@.len() != dim);
            return false;
        }
        i += 1;
    }
    true
}

/// Whether `after` is `before` with one node allocated for each vector of
/// `inserts`, in order: the ids from the next free one on are taken, each new
/// node has its vector, no out-edges and an empty backlink entry, and every
/// node that was there reads as before.
pub open spec fn nodes_allocated(before: &Graph, after: &Graph, inserts: Seq<NewItem>) -> bool {
    &&& after.next() == before.next() + inserts.len()
    &&& after.same_settings(before)
    &&& forall|i: int|
        0 <= i < inserts.len() ==> #[trigger] after.store().spec_read(before.next() + i)
            == read_ok(inserts[i].0@, Seq::empty())
    &&& forall|j: int|
        #![trigger after.store().spec_read(j)]
        0 <= j < before.next() && before.store().holds(j) ==> after.store().holds(j)
            && after.store().spec_read(j) == before.store().spec_read(j)
    &&& after.links() == put_all(before.links(), new_links(before.next(), inserts.len()))
}

/// Allocates one node for each vector of `inserts`, in order, and returns
/// the ids. The store must hold the records of the new nodes already.
fn allocate_all(graph: &mut Graph, inserts: &Vec<NewItem>) -> (r: Vec<u32>)
    requires
        old(graph).wf(),
        old(graph).next() + inserts@.len() <= u32::MAX,
        dims_fit(inserts@, old(graph).store().dim()),
        forall|j: int|
            old(graph).next() <= j < old(graph).next() + inserts@.len() ==> #[trigger] old(graph)
                .store().holds(j),
    ensures
        final(graph).wf(),
        r@ == new_ids(old(graph).next(), inserts@.len()),
        nodes_allocated(old(graph), final(graph), inserts@),
        old(graph).consistent() ==> final(graph).consistent(),
{
    let ghost start = *graph;
    let ghost first = graph.next();
    let mut ids: Vec<u32> = Vec::new();
    let mut i: usize = 0;
    assert(new_links(first, 0) =~= Seq::empty());
    while i < inserts.len()
        invariant
            i <= inserts.len(),
            first == start.next(),
            first + inserts@.len() <= u32::MAX,
            graph.wf(),
            graph.same_settings(&start),
            graph.next() == first + i,
            dims_fit(inserts@, start.store().dim()),
            ids@ == new_ids(first, i as nat),
            forall|j: int|
                first + i <= j < first + inserts@.len() ==> #[trigger] graph.store().holds(j),
            forall|x: int|
                0 <= x < i ==> #[trigger] graph.store().spec_read(first + x) == read_ok(
                    inserts@[x].0@,
                    Seq::empty(),
                ),
            forall|j: int|
                #![trigger graph.store().spec_read(j)]
                0 <= j < first && start.store().holds(j) ==> graph.store().holds(j)
                    && graph.store().spec_read(j) == start.store().spec_read(j),
            graph.links() == put_all(start.links(), new_links(first, i as nat)),
            start.consistent() ==> graph.consistent(),
        decreases inserts.len() - i,
    {
        let ghost before = *graph;
        assert(inserts@[i as int].0@.len() == start.store().dim());
        assert(before.store().holds(first + i));
        match graph.allocate(&inserts[i].0) {
            Ok(id) => {
                ids.push(id);
            },
            Err(_) => {
                proof {
                    assert(false);
                }
            },
        }
        proof {
            assert(ids@ =~= new_ids(first, (i + 1) as nat));
            let grown = new_links(first, (i + 1) as nat);
            assert(grown.drop_last() =~= new_links(first, i as nat));
            assert(grown.last() == ((first + i) as u32, Seq::<u8>::empty()));
            assert forall|x: int| 0 <= x < i + 1 implies #[trigger] graph.store().spec_read(
                first + x,
            ) == read_ok(inserts@[x].0@, Seq::empty()) by {
                if x < i {
                    assert(before.store().spec_read(first + x) == read_ok(
                        inserts@[x].0@,
                        Seq::empty(),
                    ));
                    assert(before.store().holds(first + x));
                }
            }
            assert forall|j: int|
                0 <= j < first && start.store().holds(j) implies graph.store().holds(j)
                && #[trigger] graph.store().spec_read(j) == start.store().spec_read(j) by {
                assert(before.store().spec_read(j) == start.store().spec_read(j));
            }
            assert forall|j: int|
                first + i + 1 <= j < first + inserts@.len() implies #[trigger] graph.store().holds(
                j,
            ) by {
                assert(before.store().holds(j));
                assert(graph.store().spec_read(j) == before.store().spec_read(j));
            }
        }
        i += 1;
    }
    ids
}

impl Engine {
    /// The graph and the queue are well formed.
    pub open spec fn wf(&self) -> bool {
        &&& self.graph.wf()
        &&& self.pool.wf()
        &&& self.data_map.entries().dom().finite()
    }

    /// Why a submission is refused, if it is. Looked at in this order: the
    /// phase; whether cell and graph agree on the next free id; whether
    /// there are ids enough; the dimensions of the vectors; the lengths of
    /// the metadata; whether an id would get a second pending mutation;
    /// whether the store can hold the new nodes.
    pub open spec fn spec_batch_error(
        &self,
        meta: MetadataView,
        deletes: Seq<u32>,
        modifies: Seq<Modification>,
        inserts: Seq<NewItem>,
    ) -> Option<BatchError> {
        let plan = planned(deletes, modifies, inserts, self.graph.next());
        match meta {
            MetadataView::Running { next_free_id, .. } => if next_free_id != self.graph.next() {
                Some(BatchError::OutOfSync)
            } else if self.graph.next() + inserts.len() > u32::MAX {
                Some(BatchError::IdsExhausted)
            } else if !dims_fit(inserts, self.graph.store().dim()) {
                Some(BatchError::WrongDimension)
            } else if !plan_short(plan) {
                Some(BatchError::TooLong)
            } else if !distinct_keys(plan) || !none_pending(self.pool.entries(), plan) {
                Some(BatchError::DuplicateId)
            } else if inserts.len() > 0 && self.graph.store().cannot_hold(
                self.graph.next() + inserts.len() - 1,
            ) {
                Some(BatchError::GrowFailed)
            } else {
                None
            },
            _ => Some(BatchError::NotRunning),
        }
    }

    /// Queues a submission: a deletion for each id of `batch_delete`, a
    /// modification for each pair of `batch_modify`, and for each pair of
    /// `batch_insert` a new node with the pair's vector and an insertion with
    /// the pair's metadata. Returns the ids of the new nodes, and writes the
    /// next free id into the metadata cell. On an error nothing that can be
    /// read changes.
    pub fn batch_pool(
        &mut self,
        metadata: &mut Metadata,
        batch_delete: Vec<u32>,
        batch_modify: Vec<Modification>,
        batch_insert: Vec<NewItem>,
    ) -> (r: Result<Vec<u32>, BatchError>)
        requires
            old(self).wf(),
        ensures
            final(self).wf(),
            final(self).data_map.entries() == old(self).data_map.entries(),
            old(self).graph.consistent() ==> final(self).graph.consistent(),
            match old(self).spec_batch_error(
                old(metadata)@,
                batch_delete@,
                batch_modify@,
                batch_insert@,
            ) {
                Some(e) => {
                    &&& r == Err::<Vec<u32>, BatchError>(e)
                    &&& final(metadata)@ == old(metadata)@
                    &&& final(self).pool.entries() == old(self).pool.entries()
                    &&& final(self).graph.same_settings(&old(self).graph)
                    &&& final(self).graph.links() == old(self).graph.links()
                    &&& final(self).graph.next() == old(self).graph.next()
                    &&& final(self).graph.store().bytes() == old(self).graph.store().bytes()
                },
                None => {
                    &&& r matches Ok(ids)
                    &&& ids@ == new_ids(old(self).graph.next(), batch_insert@.len())
                    &&& final(metadata)@ == old(metadata)@.with_next_free_id(
                        final(self).graph.next(),
                    )
                    &&& final(self).pool.entries() == put_all(
                        old(self).pool.entries(),
                        stored_plan(
                            planned(
                                batch_delete@,
                                batch_modify@,
                                batch_insert@,
                                old(self).graph.next(),
                            ),
                        ),
                    )
                    &&& nodes_allocated(&old(self).graph, &final(self).graph, batch_insert@)
                },
            },
    {
        let running: RunningMetadata = match metadata.get() {
            Metadata::Running(m) => m,
            _ => {
                return Err(BatchError::NotRunning);
            },
        };
        let next: u32 = self.graph.next_free_id();
        if running.next_free_id != next {
            return Err(BatchError::OutOfSync);
        }
        if batch_insert.len() as u128 + next as u128 > u32::MAX as u128 {
            return Err(BatchError::IdsExhausted);
        }
        let dim: u32 = self.graph.graph_store().vector_dim();
        if !all_fit(&batch_insert, dim) {
            return Err(BatchError::WrongDimension);
        }
        let plan: Vec<(u32, OptType)> = build_plan(&batch_delete, &batch_modify, &batch_insert, next);
        proof {
            lemma_plan_short(plan@);
        }
        if !all_short(&plan) {
            return Err(BatchError::TooLong);
        }
        if !keys_distinct(&plan) || !all_new(&self.pool, &plan) {
            return Err(BatchError::DuplicateId);
        }
        if batch_insert.len() > 0 {
            let last: u32 = next + (batch_insert.len() - 1) as u32;
            match self.graph.reserve(last) {
                Ok(()) => {},
                Err(_) => {
                    return Err(BatchError::GrowFailed);
                },
            }
        }
        let ghost reserved = self.graph;
        let ids: Vec<u32> = allocate_all(&mut self.graph, &batch_insert);
        self.pool.insert_all(&plan);
        metadata.update(
            Metadata::Running(
                RunningMetadata {
                    name: running.name,
                    version: running.version,
                    next_free_id: self.graph.next_free_id(),
                },
            ),
        );
        proof {
            assert(new_links(reserved.next(), batch_insert@.len()) == new_links(
                old(self).graph.next(),
                batch_insert@.len(),
            ));
            assert forall|j: int|
                0 <= j < old(self).graph.next() && old(self).graph.store().holds(
                    j,
                ) implies self.graph.store().holds(j) && #[trigger] self.graph.store().spec_read(j)
                == old(self).graph.store().spec_read(j) by {
                assert(reserved.store().spec_read(j) == old(self).graph.store().spec_read(j));
            }
        }
        Ok(ids)
    }
}

/// What one step of a drain of the queue found.
#[derive(Clone, Copy, Debug, PartialEq, Eq, Structural)]
pub enum StepItem {
    /// The queue is empty: what is left is the consolidation of the
    /// deletions.
    Drained,
    /// A deletion or a modification was applied; `remaining` entries are
    /// left in the queue.
    Applied { id: u32, remaining: u64 },
    /// The metadata of a new node was stored; the node is still to be
    /// linked into the graph. `remaining` entries are left in the queue.
    Insert { id: u32, remaining: u64 },
}

impl Engine {
    /// Whether `after` is this state with the first entry of the queue,
    /// the mutation `opt` for `id`, taken out and applied: a deletion puts
    /// the id into the cemetery, a modification or an insertion stores the
    /// metadata under the id.
    pub open spec fn step_applied(&self, after: &Engine, id: u32, opt: OptTypeView) -> bool {
        &&& after.pool.entries() == self.pool.entries().remove(id)
        &&& after.graph.store() == self.graph.store()
        &&& after.graph.links() == self.graph.links()
        &&& after.graph.next() == self.graph.next()
        &&& after.graph.freed() == self.graph.freed()
        &&& match opt {
            OptTypeView::Delete => after.graph.graves() == self.graph.graves().push(id)
                && after.data_map.entries() == self.data_map.entries(),
            OptTypeView::Modify(m) => after.graph.graves() == self.graph.graves()
                && after.data_map.entries() == self.data_map.entries().insert(id, m),
            OptTypeView::Insert(m) => after.graph.graves() == self.graph.graves()
                && after.data_map.entries() == self.data_map.entries().insert(id, m),
        }
    }

    /// Whether nothing that the contracts speak of differs between the two
    /// states.
    pub open spec fn unchanged(&self, other: &Engine) -> bool {
        &&& self.pool.entries() == other.pool.entries()
        &&& self.data_map.entries() == other.data_map.entries()
        &&& self.graph.store() == other.graph.store()
        &&& self.graph.links() == other.graph.links()
        &&& self.graph.next() == other.graph.next()
        &&& self.graph.freed() == other.graph.freed()
        &&& self.graph.graves() == other.graph.graves()
    }

    /// What a step reports for the mutation `opt` of `id` with `remaining`
    /// entries left.
    pub open spec fn step_report(id: u32, opt: OptTypeView, remaining: u64) -> StepItem {
        match opt {
            OptTypeView::Insert(_) => StepItem::Insert { id, remaining },
            _ => StepItem::Applied { id, remaining },
        }
    }

    /// Whether the first entry of the queue, the mutation `opt`, cannot be
    /// applied: it is a deletion and the cemetery cannot take one more id.
    pub open spec fn step_blocked(&self, opt: OptTypeView) -> bool {
        opt is Delete && !list_takes(self.graph.graves())
    }

    /// Takes the entry with the least id out of the queue and applies it,
    /// so that the queue holds one entry less. On an empty queue nothing
    /// changes and `Drained` is reported. A deletion fails exactly where
    /// the cemetery cannot take one more id; then nothing changes either.
    pub fn next_item(&mut self) -> (r: Result<StepItem, BatchError>)
        requires
            old(self).wf(),
        ensures
            final(self).wf(),
            old(self).graph.symmetric() ==> final(self).graph.symmetric(),
            old(self).graph.consistent() ==> final(self).graph.consistent(),
            match first_entry(old(self).pool.entries()) {
                None => r == Ok::<StepItem, BatchError>(StepItem::Drained) && final(self).unchanged(
                    old(self),
                ),
                Some((id, bytes)) => spec_opt(bytes) matches Some(opt) && if old(self)
                    .step_blocked(opt) {
                    &&& r == Err::<StepItem, BatchError>(BatchError::GrowFailed)
                    &&& final(self).unchanged(old(self))
                } else {
                    &&& r == Ok::<StepItem, BatchError>(
                        Self::step_report(
                            id,
                            opt,
                            final(self).pool.entries().dom().len() as u64,
                        ),
                    )
                    &&& old(self).step_applied(final(self), id, opt)
                    &&& final(self).pool.entries().dom().len() + 1 == old(self).pool.entries()
                        .dom().len()
                },
            },
    {
        let (id, opt): (u32, OptType) = match self.pool.pop_first() {
            None => {
                return Ok(StepItem::Drained);
            },
            Some(entry) => entry,
        };
        let ghost bytes = old(self).pool.entries()[id];
        assert(old(self).pool.entries().contains_key(id));
        match opt {
            OptType::Delete => {
                match self.graph.suspect(id) {
                    Ok(()) => {
                        let remaining: u64 = self.pool.len();
                        Ok(StepItem::Applied { id, remaining })
                    },
                    Err(_) => {
                        let _ = self.pool.insert(id, OptType::Delete);
                        proof {
                            crate::batch::lemma_opt_round_trip(OptTypeView::Delete);
                            assert(bytes =~= opt_bytes(OptTypeView::Delete));
                            assert(self.pool.entries() =~= old(self).pool.entries());
                        }
                        Err(BatchError::GrowFailed)
                    },
                }
            },
            OptType::Modify(new_metadata) => {
                let _ = self.data_map.insert(id, new_metadata);
                let remaining: u64 = self.pool.len();
                Ok(StepItem::Applied { id, remaining })
            },
            OptType::Insert(new_metadata) => {
                let _ = self.data_map.insert(id, new_metadata);
                let remaining: u64 = self.pool.len();
                Ok(StepItem::Insert { id, remaining })
            },
        }
    }
}

/// The metadata of a list of mutations is short enough to be stored exactly
/// if the stored form of each mutation is.
pub proof fn lemma_plan_short(items: Seq<(u32, OptType)>)
    ensures
        payloads_short(items) == plan_short(plan_view(items)),
{
    let plan = plan_view(items);
    if payloads_short(items) {
        assert forall|i: int| 0 <= i < plan.len() implies opt_bytes((#[trigger] plan[i]).1).len()
            <= u32::MAX by {
            assert(items[i].1.payload_len() < u32::MAX);
        }
    }
    if plan_short(plan) {
        assert forall|i: int| 0 <= i < items.len() implies (#[trigger] items[i]).1.payload_len()
            < u32::MAX by {
            assert(opt_bytes(plan[i].1).len() <= u32::MAX);
        }
    }
}

} // verus!
