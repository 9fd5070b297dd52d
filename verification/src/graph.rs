//! The graph engine's bookkeeping: node allocation, out-edges in the node
//! store, the inverse index of backlinks, the free-id list and the cemetery
//! of nodes that await removal.

use vstd::prelude::*;
use crate::backlinks::{stored_set, Backlinks};
use crate::bytes::{lemma_decode_encode_ids, words_bytes};
use crate::id_list::{list_takes, IdList};
use crate::node_store::{read_ok, NodeStore, NodeStoreError};
use crate::link_updates::{
    apply_updates, changed, first_update_error, lemma_plans_retarget, plan_updates, retarget,
    retargeted, target_changes, update_fits,
};
use crate::ordered_map::{entries_view, lookup, put_all, Entry, ICRBTree};

verus! {

/// Default width of the search beam.
pub const DEFAULT_SIZE_L: usize = 125;

/// Bit pattern of the default prune slack, the single-precision number 2.
pub const DEFAULT_SIZE_A_BITS: u32 = 0x4000_0000;

/// Why a graph operation was refused.
#[derive(Clone, Copy, Debug, PartialEq, Eq, Structural)]
pub enum GraphError {
    /// The id was never allocated.
    Unallocated,
    /// The node store refused the read or the write.
    Store(NodeStoreError),
    /// A node that the operation touches has no backlink entry.
    MissingBacklinks,
    /// A backlink entry is no list of ids.
    CorruptBacklinks,
    /// A backlink set would be too long to store.
    TooManyBacklinks,
    /// Every id has been handed out.
    IdsExhausted,
    /// A list of ids could not grow.
    GrowFailed,
}

/// The backlink set stored under `id`, if there is an entry and it is a list
/// of ids.
pub open spec fn spec_link_set(links: Map<u32, Seq<u8>>, id: u32) -> Option<Set<u32>> {
    match lookup(links, id) {
        Some(bytes) => stored_set(bytes),
        None => None,
    }
}

/// The graph engine's state.
pub struct Graph {
    size_l: usize,
    size_r: usize,
    size_a: u32,
    graph_store: NodeStore,
    start_node_index: u32,
    backlinks: ICRBTree,
    free_ids: IdList,
    cemetery: IdList,
    next_free_id: u32,
}

impl Graph {
    /// The node store.
    pub closed spec fn store(&self) -> NodeStore {
        self.graph_store
    }

    /// The stored backlink entries.
    pub closed spec fn links(&self) -> Map<u32, Seq<u8>> {
        self.backlinks.entries()
    }

    /// The id that the next allocated node gets.
    pub closed spec fn next(&self) -> u32 {
        self.next_free_id
    }

    /// The ids that were freed, in the order of freeing.
    pub closed spec fn freed(&self) -> Seq<u32> {
        self.free_ids.ids()
    }

    /// The ids that await removal, in the order in which they were suspected.
    pub closed spec fn graves(&self) -> Seq<u32> {
        self.cemetery.ids()
    }

    /// Width of the search beam.
    pub closed spec fn beam(&self) -> usize {
        self.size_l
    }

    /// Maximum out-degree.
    pub closed spec fn max_degree(&self) -> usize {
        self.size_r
    }

    /// Bit pattern of the prune slack.
    pub closed spec fn slack_bits(&self) -> u32 {
        self.size_a
    }

    /// The node at which every search starts.
    pub closed spec fn entry(&self) -> u32 {
        self.start_node_index
    }

    /// The store is well formed and the maximum out-degree is the store's.
    pub open spec fn wf(&self) -> bool {
        &&& self.store().wf()
        &&& self.max_degree() == self.store().degree()
        &&& self.links().dom().finite()
    }

    /// The out-edges of node `i` as a set; empty where the node cannot be read.
    pub open spec fn edge_set(&self, i: u32) -> Set<u32> {
        match self.store().spec_read(i as int) {
            Ok((_, edges)) => edges.to_set(),
            Err(_) => Set::empty(),
        }
    }

    /// The backlinks of node `j` as a set; empty where there is no entry.
    pub open spec fn link_set(&self, j: u32) -> Set<u32> {
        match spec_link_set(self.links(), j) {
            Some(s) => s,
            None => Set::empty(),
        }
    }

    /// Whether `i` was allocated and not freed since.
    pub open spec fn live(&self, i: u32) -> bool {
        i < self.next() && !self.freed().contains(i)
    }

    /// Every id below the next free one has a record in the store and a
    /// backlink entry that is a list of ids; no other id has an entry, and
    /// none is on the free-id list. So every id below the next free one is
    /// live or on the free-id list, and the next free one is neither.
    pub open spec fn dense(&self) -> bool {
        &&& forall|id: u32|
            id < self.next() ==> self.store().holds(id as int) && (#[trigger] spec_link_set(
                self.links(),
                id,
            )) is Some
        &&& forall|id: u32| #[trigger] self.links().contains_key(id) ==> id < self.next()
        &&& forall|k: int| 0 <= k < self.freed().len() ==> #[trigger] self.freed()[k] < self.next()
    }

    /// Edges and backlinks of live nodes name allocated nodes only.
    pub open spec fn closed(&self) -> bool {
        &&& forall|i: u32, j: u32|
            self.live(i) && #[trigger] self.edge_set(i).contains(j) ==> j < self.next()
        &&& forall|i: u32, j: u32|
            self.live(j) && #[trigger] self.link_set(j).contains(i) ==> i < self.next()
    }

    /// Of two live nodes, one has an edge to the other exactly if the other
    /// has it among its backlinks.
    pub open spec fn symmetric(&self) -> bool {
        forall|i: u32, j: u32|
            self.live(i) && self.live(j) ==> (#[trigger] self.edge_set(i).contains(j)
                <==> #[trigger] self.link_set(j).contains(i))
    }

    /// The three invariants of the graph together.
    pub open spec fn consistent(&self) -> bool {
        &&& self.dense()
        &&& self.closed()
        &&& self.symmetric()
    }

    /// What `get` gives for `id`.
    pub open spec fn spec_get(&self, id: u32) -> Result<(Seq<u32>, Seq<u32>), GraphError> {
        if id >= self.next() {
            Err(GraphError::Unallocated)
        } else {
            match self.store().spec_read(id as int) {
                Ok(node) => Ok(node),
                Err(e) => Err(GraphError::Store(e)),
            }
        }
    }

    /// Sets up the engine over a node store and a backlink map, with
    /// `next_free_id` nodes taken as allocated, an empty free-id list and an
    /// empty cemetery. The beam width and the slack get their defaults, the
    /// maximum out-degree and the entry node come from the store's header.
    /// A graph without nodes is consistent. The two lists are set up in
    /// fresh regions of their own, which always succeeds.
    pub fn new(graph_store: NodeStore, backlinks: ICRBTree, next_free_id: u32) -> (r: Result<
        Graph,
        GraphError,
    >)
        requires
            graph_store.wf(),
            backlinks.entries().dom().finite(),
        ensures
            r is Ok,
            r matches Ok(g) ==> {
                &&& g.wf()
                &&& g.store() == graph_store
                &&& g.links() == backlinks.entries()
                &&& g.next() == next_free_id
                &&& g.freed() == Seq::<u32>::empty()
                &&& g.graves() == Seq::<u32>::empty()
                &&& g.beam() == DEFAULT_SIZE_L
                &&& g.slack_bits() == DEFAULT_SIZE_A_BITS
                &&& g.entry() == graph_store.entry()
                &&& (next_free_id == 0 && backlinks.entries() == Map::<u32, Seq<u8>>::empty()
                    ==> g.consistent())
            },
    {
        let free_ids: IdList = match IdList::new() {
            Some(list) => list,
            None => {
                return Err(GraphError::GrowFailed);
            },
        };
        let cemetery: IdList = match IdList::new() {
            Some(list) => list,
            None => {
                return Err(GraphError::GrowFailed);
            },
        };
        let size_r: usize = graph_store.max_edge_degrees() as usize;
        let start_node_index: u32 = graph_store.start_id();
        Ok(
            Graph {
                size_l: DEFAULT_SIZE_L,
                size_r,
                size_a: DEFAULT_SIZE_A_BITS,
                graph_store,
                start_node_index,
                backlinks,
                free_ids,
                cemetery,
                next_free_id,
            },
        )
    }

    /// Width of the search beam.
    pub fn size_l(&self) -> (r: usize)
        ensures
            r == self.beam(),
    {
        self.size_l
    }

    /// Maximum out-degree.
    pub fn size_r(&self) -> (r: usize)
        ensures
            r == self.max_degree(),
    {
        self.size_r
    }

    /// Bit pattern of the prune slack, a single-precision number.
    pub fn size_a(&self) -> (r: u32)
        ensures
            r == self.slack_bits(),
    {
        self.size_a
    }

    /// The node at which every search starts.
    pub fn start_id(&self) -> (r: u32)
        ensures
            r == self.entry(),
    {
        self.start_node_index
    }

    /// The id that the next allocated node gets.
    pub fn next_free_id(&self) -> (r: u32)
        ensures
            r == self.next(),
    {
        self.next_free_id
    }

    /// The node store, to read from.
    pub fn graph_store(&self) -> (r: &NodeStore)
        ensures
            *r == self.store(),
    {
        &self.graph_store
    }

    /// Gives up the engine for its node store and its backlink map.
    pub fn into_parts(self) -> (r: (NodeStore, ICRBTree))
        ensures
            r.0 == self.store(),
            r.1.entries() == self.links(),
    {
        (self.graph_store, self.backlinks)
    }

    /// Makes `index` the node at which every search starts.
    pub fn set_start_node_index(&mut self, index: u32)
        ensures
            final(self).entry() == index,
            final(self).store() == old(self).store(),
            final(self).links() == old(self).links(),
            final(self).next() == old(self).next(),
            final(self).freed() == old(self).freed(),
            final(self).graves() == old(self).graves(),
            final(self).beam() == old(self).beam(),
            final(self).max_degree() == old(self).max_degree(),
            final(self).slack_bits() == old(self).slack_bits(),
            old(self).symmetric() ==> final(self).symmetric(),
            old(self).consistent() ==> final(self).consistent(),
    {
        self.start_node_index = index;
        proof {
            if old(self).symmetric() {
                old(self).lemma_same_state_symmetric(self);
            }
            if old(self).consistent() {
                old(self).lemma_same_state_consistent(self);
            }
        }
    }

    /// Sets the width of the search beam.
    pub fn set_size_l(&mut self, size_l: usize)
        ensures
            final(self).beam() == size_l,
            final(self).store() == old(self).store(),
            final(self).links() == old(self).links(),
            final(self).next() == old(self).next(),
            final(self).freed() == old(self).freed(),
            final(self).graves() == old(self).graves(),
            final(self).entry() == old(self).entry(),
            final(self).max_degree() == old(self).max_degree(),
            final(self).slack_bits() == old(self).slack_bits(),
            old(self).symmetric() ==> final(self).symmetric(),
            old(self).consistent() ==> final(self).consistent(),
    {
        self.size_l = size_l;
        proof {
            if old(self).symmetric() {
                old(self).lemma_same_state_symmetric(self);
            }
            if old(self).consistent() {
                old(self).lemma_same_state_consistent(self);
            }
        }
    }

    /// Reads node `id`: its vector and its out-edges, of which there are at
    /// most as many as the maximum out-degree.
    pub fn get(&self, id: u32) -> (r: Result<(Vec<u32>, Vec<u32>), GraphError>)
        requires
            self.wf(),
        ensures
            graph_read_view(r) == self.spec_get(id),
            r matches Ok((_, edges)) ==> edges@.len() <= self.max_degree(),
    {
        if id >= self.next_free_id {
            return Err(GraphError::Unallocated);
        }
        match self.graph_store.read_node(id) {
            Ok(node) => Ok(node),
            Err(e) => Err(GraphError::Store(e)),
        }
    }

    /// Why allocating a node for `point` fails, if it does: every id is
    /// taken, or the store refuses the record.
    pub open spec fn spec_alloc_error(&self, point: Seq<u32>) -> Option<GraphError> {
        if self.next() == u32::MAX {
            Some(GraphError::IdsExhausted)
        } else {
            match self.store().spec_write_error(self.next() as int, point, Seq::empty()) {
                Some(e) => Some(GraphError::Store(e)),
                None => None,
            }
        }
    }

    /// Whether everything but the store's records, the backlink entries and
    /// the next free id is the same in both states.
    pub open spec fn same_settings(&self, other: &Graph) -> bool {
        &&& self.freed() == other.freed()
        &&& self.graves() == other.graves()
        &&& self.beam() == other.beam()
        &&& self.entry() == other.entry()
        &&& self.max_degree() == other.max_degree()
        &&& self.slack_bits() == other.slack_bits()
        &&& self.store().count() == other.store().count()
        &&& self.store().dim() == other.store().dim()
        &&& self.store().degree() == other.store().degree()
        &&& self.store().entry() == other.store().entry()
    }

    /// Whether nothing that the contracts speak of differs between the two
    /// states.
    pub open spec fn same_state(&self, other: &Graph) -> bool {
        &&& self.same_settings(other)
        &&& self.store().bytes() == other.store().bytes()
        &&& self.links() == other.links()
        &&& self.next() == other.next()
    }

    /// Allocates the next free id for a node with the vector `point`, no
    /// out-edges and no backlinks, and returns the id. In a dense graph the
    /// new node is live: its id was never handed out, so it is not on the
    /// free-id list. On an error nothing changes.
    pub fn allocate(&mut self, point: &Vec<u32>) -> (r: Result<u32, GraphError>)
        requires
            old(self).wf(),
        ensures
            final(self).wf(),
            final(self).same_settings(old(self)),
            match old(self).spec_alloc_error(point@) {
                Some(e) => r == Err::<u32, GraphError>(e) && final(self).same_state(old(self)),
                None => {
                    &&& r == Ok::<u32, GraphError>(old(self).next())
                    &&& final(self).next() == old(self).next() + 1
                    &&& final(self).store().spec_read(old(self).next() as int) == read_ok(
                        point@,
                        Seq::empty(),
                    )
                    &&& forall|j: int|
                        #![trigger final(self).store().spec_read(j)]
                        j != old(self).next() && old(self).store().holds(j) ==> final(self)
                            .store().holds(j) && final(self).store().spec_read(j) == old(self)
                            .store().spec_read(j)
                    &&& final(self).links() == old(self).links().insert(
                        old(self).next(),
                        Seq::empty(),
                    )
                    &&& old(self).dense() ==> final(self).live(old(self).next())
                },
            },
            old(self).consistent() ==> final(self).consistent(),
    {
        if self.next_free_id == u32::MAX {
            return Err(GraphError::IdsExhausted);
        }
        let id: u32 = self.next_free_id;
        let no_edges: Vec<u32> = Vec::new();
        match self.graph_store.write_node(id, point, &no_edges) {
            Err(e) => {
                proof {
                    if old(self).consistent() {
                        old(self).lemma_same_state_consistent(self);
                    }
                }
                return Err(GraphError::Store(e));
            },
            Ok(()) => {},
        }
        let empty: Backlinks = Backlinks::new();
        let _ = self.backlinks.insert(id, empty.to_bytes());
        self.next_free_id = id + 1;
        proof {
            assert(words_bytes(Seq::<u32>::empty()) =~= Seq::<u8>::empty());
            lemma_decode_encode_ids(Seq::<u32>::empty());
            assert(Seq::<u32>::empty().to_set() =~= Set::<u32>::empty());
            if old(self).dense() {
                if self.freed().contains(id) {
                    let k = choose|k: int| 0 <= k < self.freed().len() && self.freed()[k] == id;
                    assert(old(self).freed()[k] < old(self).next());
                }
            }
            if old(self).consistent() {
                old(self).lemma_alloc_keeps_consistent(self, point@);
            }
        }
        Ok(id)
    }

    /// The invariants speak only of what `same_state` compares.
    pub proof fn lemma_same_state_consistent(&self, other: &Graph)
        requires
            self.consistent(),
            other.store().bytes() == self.store().bytes(),
            other.store().dim() == self.store().dim(),
            other.store().degree() == self.store().degree(),
            other.links() == self.links(),
            other.next() == self.next(),
            other.freed() == self.freed(),
        ensures
            other.consistent(),
    {
        assert forall|i: u32| other.edge_set(i) == self.edge_set(i) && other.link_set(i)
            == self.link_set(i) && other.live(i) == self.live(i) && other.store().holds(i as int)
            == self.store().holds(i as int) by {
            assert(other.store().spec_read(i as int) == self.store().spec_read(i as int));
        }
        assert(other.dense()) by {
            assert forall|id: u32| id < other.next() implies other.store().holds(id as int) && (
            #[trigger] spec_link_set(other.links(), id)) is Some by {
                assert(spec_link_set(self.links(), id) is Some);
                assert(other.store().holds(id as int) == self.store().holds(id as int));
            }
        }
        assert(other.closed()) by {
            assert forall|i: u32, j: u32|
                other.live(i) && #[trigger] other.edge_set(i).contains(j) implies j
                < other.next() by {
                assert(self.live(i));
                assert(self.edge_set(i).contains(j));
            }
            assert forall|i: u32, j: u32|
                other.live(j) && #[trigger] other.link_set(j).contains(i) implies i
                < other.next() by {
                assert(self.live(j));
                assert(self.link_set(j).contains(i));
            }
        }
        assert(other.symmetric()) by {
            assert forall|i: u32, j: u32| other.live(i) && other.live(j) implies (
            #[trigger] other.edge_set(i).contains(j) <==> #[trigger] other.link_set(j).contains(
                i,
            )) by {
                assert(self.live(i) && self.live(j));
                assert(self.edge_set(i).contains(j) <==> self.link_set(j).contains(i));
            }
        }
    }

    /// A state that differs from a consistent one by one allocation is
    /// consistent.
    pub proof fn lemma_alloc_keeps_consistent(&self, after: &Graph, point: Seq<u32>)
        requires
            self.consistent(),
            self.next() < u32::MAX,
            after.freed() == self.freed(),
            after.next() == self.next() + 1,
            after.store().spec_read(self.next() as int) == read_ok(point, Seq::empty()),
            forall|j: int|
                #![trigger after.store().spec_read(j)]
                j != self.next() && self.store().holds(j) ==> after.store().holds(j)
                    && after.store().spec_read(j) == self.store().spec_read(j),
            after.links() == self.links().insert(self.next(), Seq::empty()),
        ensures
            after.consistent(),
    {
        let n = self.next();
        assert(words_bytes(Seq::<u32>::empty()) =~= Seq::<u8>::empty());
        lemma_decode_encode_ids(Seq::<u32>::empty());
        assert(Seq::<u32>::empty().to_set() =~= Set::<u32>::empty());
        assert(spec_link_set(after.links(), n) == Some(Set::<u32>::empty()));
        assert(after.link_set(n) =~= Set::<u32>::empty());
        assert(after.edge_set(n) =~= Set::<u32>::empty());
        assert forall|id: u32| id < n implies after.store().holds(id as int) && spec_link_set(
            after.links(),
            id,
        ) == spec_link_set(self.links(), id) && after.edge_set(id) == self.edge_set(id)
            && after.link_set(id) == self.link_set(id) by {
            assert(spec_link_set(self.links(), id) is Some);
            assert(after.store().spec_read(id as int) == self.store().spec_read(id as int));
        }
        assert(after.dense()) by {
            assert forall|id: u32| id < after.next() implies after.store().holds(id as int) && (
            #[trigger] spec_link_set(after.links(), id)) is Some by {
                if id < n {
                    assert(spec_link_set(self.links(), id) is Some);
                    assert(self.store().holds(id as int));
                    assert(after.store().spec_read(id as int) == self.store().spec_read(
                        id as int,
                    ));
                } else {
                    assert(id == n);
                    assert(after.store().spec_read(n as int) is Ok);
                }
            }
            assert forall|id: u32| #[trigger] after.links().contains_key(id) implies id
                < after.next() by {
                if id != n {
                    assert(self.links().contains_key(id));
                }
            }
        }
        assert(after.closed()) by {
            assert forall|i: u32, j: u32|
                after.live(i) && #[trigger] after.edge_set(i).contains(j) implies j
                < after.next() by {
                if i < n {
                    assert(self.live(i));
                    assert(self.edge_set(i).contains(j));
                }
            }
            assert forall|i: u32, j: u32|
                after.live(j) && #[trigger] after.link_set(j).contains(i) implies i
                < after.next() by {
                if j < n {
                    assert(self.live(j));
                    assert(self.link_set(j).contains(i));
                }
            }
        }
        assert(after.symmetric()) by {
            assert forall|i: u32, j: u32| after.live(i) && after.live(j) implies (
            #[trigger] after.edge_set(i).contains(j) <==> #[trigger] after.link_set(j).contains(
                i,
            )) by {
                if i < n && j < n {
                    assert(self.live(i) && self.live(j));
                    assert(self.edge_set(i).contains(j) <==> self.link_set(j).contains(i));
                } else if i < n {
                    assert(self.live(i));
                    if self.edge_set(i).contains(j) {
                        assert(j < n);
                    }
                } else if j < n {
                    assert(self.live(j));
                    if self.link_set(j).contains(i) {
                        assert(i < n);
                    }
                }
            }
        }
    }

    /// Why giving node `id` the out-edges `new` fails, if it does: the node
    /// cannot be read, there are too many edges, or the backlink entry of a
    /// node that stops or starts being a target cannot be changed.
    pub open spec fn spec_overwrite_error(&self, id: u32, new: Seq<u32>) -> Option<GraphError> {
        match self.spec_get(id) {
            Err(e) => Some(e),
            Ok((_, prev)) => if new.len() > self.max_degree() || new.len() > 0xffff {
                Some(GraphError::Store(NodeStoreError::TooManyEdges))
            } else {
                match first_update_error(self.links(), prev, new, id, false) {
                    Some(e) => Some(e),
                    None => first_update_error(self.links(), new, prev, id, true),
                }
            },
        }
    }

    /// Whether `after` is this state with the out-edges of node `id`
    /// changed from `prev` to `new`: the node keeps its vector, every other
    /// record is as it was, and in the backlink set of every node that
    /// stopped being a target `id` is gone, in that of every node that
    /// became one `id` has come in.
    pub open spec fn edges_overwritten(
        &self,
        after: &Graph,
        id: u32,
        vector: Seq<u32>,
        prev: Seq<u32>,
        new: Seq<u32>,
    ) -> bool {
        &&& after.next() == self.next()
        &&& self.store().spec_read(id as int) == read_ok(vector, prev)
        &&& after.store().spec_read(id as int) == read_ok(vector, new)
        &&& forall|j: int|
            #![trigger after.store().spec_read(j)]
            j != id ==> after.store().holds(j) == self.store().holds(j) && after.store().spec_read(
                j,
            ) == self.store().spec_read(j)
        &&& after.links().dom() == self.links().dom()
        &&& forall|t: u32| #[trigger]
            spec_link_set(after.links(), t) == retargeted(
                spec_link_set(self.links(), t),
                id,
                t,
                prev,
                new,
            )
        &&& forall|t: u32|
            target_changes(t, prev, new) ==> self.links().contains_key(t) && (
            #[trigger] spec_link_set(self.links(), t)) is Some
    }

    /// Gives node `id` the out-edges `new_edges` and brings the backlinks
    /// in line: `id` leaves the backlinks of every node that is no target
    /// any more and enters those of every node that has become one. On an
    /// error nothing changes.
    pub fn overwrite_edges(&mut self, id: u32, new_edges: Vec<u32>) -> (r: Result<(), GraphError>)
        requires
            old(self).wf(),
        ensures
            final(self).wf(),
            final(self).same_settings(old(self)),
            match old(self).spec_overwrite_error(id, new_edges@) {
                Some(e) => r == Err::<(), GraphError>(e) && final(self).same_state(old(self)),
                None => {
                    &&& r is Ok
                    &&& old(self).spec_get(id) matches Ok((vector, prev))
                    &&& old(self).edges_overwritten(final(self), id, vector, prev, new_edges@)
                },
            },
            old(self).symmetric() ==> final(self).symmetric(),
            old(self).consistent() ==> final(self).consistent(),
    {
        let (vector, prev): (Vec<u32>, Vec<u32>) = match self.get(id) {
            Ok(node) => node,
            Err(e) => {
                proof {
                    if old(self).symmetric() {
                        old(self).lemma_same_state_symmetric(self);
                    }
                    if old(self).consistent() {
                        old(self).lemma_same_state_consistent(self);
                    }
                }
                return Err(e);
            },
        };
        if new_edges.len() > self.size_r || new_edges.len() > 0xffff {
            proof {
                if old(self).symmetric() {
                    old(self).lemma_same_state_symmetric(self);
                }
                if old(self).consistent() {
                    old(self).lemma_same_state_consistent(self);
                }
            }
            return Err(GraphError::Store(NodeStoreError::TooManyEdges));
        }
        let mut updates: Vec<Entry> = match plan_updates(
            &self.backlinks,
            id,
            &prev,
            &new_edges,
            false,
        ) {
            Ok(us) => us,
            Err(e) => {
                proof {
                    if old(self).symmetric() {
                        old(self).lemma_same_state_symmetric(self);
                    }
                    if old(self).consistent() {
                        old(self).lemma_same_state_consistent(self);
                    }
                }
                return Err(e);
            },
        };
        let mut additions: Vec<Entry> = match plan_updates(
            &self.backlinks,
            id,
            &new_edges,
            &prev,
            true,
        ) {
            Ok(us) => us,
            Err(e) => {
                proof {
                    if old(self).symmetric() {
                        old(self).lemma_same_state_symmetric(self);
                    }
                    if old(self).consistent() {
                        old(self).lemma_same_state_consistent(self);
                    }
                }
                return Err(e);
            },
        };
        let ghost removals = entries_view(updates@);
        let ghost added = entries_view(additions@);
        updates.append(&mut additions);
        proof {
            assert(entries_view(updates@) =~= removals + added);
            lemma_plans_retarget(old(self).links(), removals, added, id, prev@, new_edges@);
            assert forall|u: int| 0 <= u < updates@.len() implies (#[trigger] updates@[u]).1@.len()
                <= u32::MAX by {
                let all = entries_view(updates@);
                assert(all[u].1 == updates@[u].1@);
                if u < removals.len() {
                    assert(all[u] == removals[u]);
                    assert(update_fits(old(self).links(), removals[u], id, false));
                } else {
                    assert(all[u] == added[u - removals.len()]);
                    assert(update_fits(old(self).links(), added[u - removals.len()], id, true));
                }
            }
        }
        match self.graph_store.write_node(id, &vector, &new_edges) {
            Err(e) => {
                proof {
                    if old(self).symmetric() {
                        old(self).lemma_same_state_symmetric(self);
                    }
                    if old(self).consistent() {
                        old(self).lemma_same_state_consistent(self);
                    }
                }
                return Err(GraphError::Store(e));
            },
            Ok(()) => {},
        }
        apply_updates(&mut self.backlinks, updates);
        proof {
            let before = old(self).store();
            let after = self.store();
            assert(before.shortfall(id as int) == 0);
            assert(after.bytes().len() == before.bytes().len());
            assert forall|j: int| j != id implies after.holds(j) == before.holds(j)
                && #[trigger] after.spec_read(j) == before.spec_read(j) by {}
            assert(old(self).edges_overwritten(self, id, vector@, prev@, new_edges@));
            if old(self).symmetric() {
                old(self).lemma_overwrite_keeps_symmetric(self, id, vector@, prev@, new_edges@);
            }
            if old(self).consistent() {
                old(self).lemma_overwrite_keeps_consistent(self, id, vector@, prev@, new_edges@);
            }
        }
        Ok(())
    }

    /// Backlink symmetry speaks only of what can be read of the store, of
    /// the backlink entries, of the next free id and of the free-id list.
    pub proof fn lemma_same_state_symmetric(&self, other: &Graph)
        requires
            self.symmetric(),
            other.store().bytes() == self.store().bytes(),
            other.store().dim() == self.store().dim(),
            other.store().degree() == self.store().degree(),
            other.links() == self.links(),
            other.next() == self.next(),
            other.freed() == self.freed(),
        ensures
            other.symmetric(),
    {
        assert forall|i: u32, j: u32| other.live(i) && other.live(j) implies (
        #[trigger] other.edge_set(i).contains(j) <==> #[trigger] other.link_set(j).contains(
            i,
        )) by {
            assert(other.store().spec_read(i as int) == self.store().spec_read(i as int));
            assert(self.live(i) && self.live(j));
            assert(self.edge_set(i).contains(j) <==> self.link_set(j).contains(i));
        }
    }

    /// Backlink symmetry alone is kept by a change of one node's out-edges
    /// with the backlinks brought in line: of two live nodes, one has an
    /// edge to the other exactly if the other has it among its backlinks,
    /// after the change as before.
    pub proof fn lemma_overwrite_keeps_symmetric(
        &self,
        after: &Graph,
        id: u32,
        vector: Seq<u32>,
        prev: Seq<u32>,
        new: Seq<u32>,
    )
        requires
            self.symmetric(),
            after.freed() == self.freed(),
            self.edges_overwritten(after, id, vector, prev, new),
        ensures
            after.symmetric(),
    {
        assert(self.edge_set(id) == prev.to_set());
        assert(after.edge_set(id) == new.to_set());
        assert forall|i: u32, j: u32| after.live(i) && after.live(j) implies (
        #[trigger] after.edge_set(i).contains(j) <==> #[trigger] after.link_set(j).contains(
            i,
        )) by {
            assert(self.live(i) && self.live(j));
            assert(self.edge_set(i).contains(j) <==> self.link_set(j).contains(i));
            assert(spec_link_set(after.links(), j) == retargeted(
                spec_link_set(self.links(), j),
                id,
                j,
                prev,
                new,
            ));
            if target_changes(j, prev, new) {
                assert(spec_link_set(self.links(), j) is Some);
            }
            if i == id {
                assert(after.edge_set(i).contains(j) <==> new.contains(j));
                assert(self.edge_set(i).contains(j) <==> prev.contains(j));
            } else {
                assert(after.store().spec_read(i as int) == self.store().spec_read(i as int));
            }
        }
    }

    /// A state that differs from a consistent one by the change of one
    /// node's out-edges, with the backlinks brought in line, is consistent.
    pub proof fn lemma_overwrite_keeps_consistent(
        &self,
        after: &Graph,
        id: u32,
        vector: Seq<u32>,
        prev: Seq<u32>,
        new: Seq<u32>,
    )
        requires
            self.consistent(),
            id < self.next(),
            after.freed() == self.freed(),
            self.edges_overwritten(after, id, vector, prev, new),
        ensures
            after.consistent(),
    {
        assert(self.edge_set(id) == prev.to_set());
        assert(after.edge_set(id) == new.to_set());
        assert forall|i: u32| i < self.next() && i != id implies after.edge_set(i)
            == self.edge_set(i) && after.store().holds(i as int) by {
            assert(spec_link_set(self.links(), i) is Some);
            assert(self.store().holds(i as int));
            assert(after.store().spec_read(i as int) == self.store().spec_read(i as int));
        }
        assert forall|t: u32| #[trigger]
            after.link_set(t) == (match spec_link_set(self.links(), t) {
                Some(s) => retarget(s, id, t, prev, new),
                None => Set::<u32>::empty(),
            }) by {
            assert(spec_link_set(after.links(), t) == retargeted(
                spec_link_set(self.links(), t),
                id,
                t,
                prev,
                new,
            ));
        }
        assert(after.dense()) by {
            assert forall|x: u32| x < after.next() implies after.store().holds(x as int) && (
            #[trigger] spec_link_set(after.links(), x)) is Some by {
                assert(spec_link_set(self.links(), x) is Some);
                assert(spec_link_set(after.links(), x) == retargeted(
                    spec_link_set(self.links(), x),
                    id,
                    x,
                    prev,
                    new,
                ));
                if x == id {
                    assert(after.store().spec_read(id as int) is Ok);
                } else {
                    assert(self.store().holds(x as int));
                    assert(after.store().spec_read(x as int) == self.store().spec_read(x as int));
                }
            }
            assert forall|x: u32| #[trigger] after.links().contains_key(x) implies x
                < after.next() by {
                assert(self.links().contains_key(x));
            }
        }
        assert(after.closed()) by {
            assert forall|i: u32, j: u32|
                after.live(i) && #[trigger] after.edge_set(i).contains(j) implies j
                < after.next() by {
                assert(self.live(i));
                if i == id {
                    assert(new.contains(j));
                    if prev.contains(j) {
                        assert(self.edge_set(id).contains(j));
                    } else {
                        assert(target_changes(j, prev, new));
                        assert(spec_link_set(self.links(), j) is Some);
                        assert(self.links().contains_key(j));
                    }
                } else {
                    assert(self.edge_set(i).contains(j));
                }
            }
            assert forall|i: u32, j: u32|
                after.live(j) && #[trigger] after.link_set(j).contains(i) implies i
                < after.next() by {
                assert(self.live(j));
                assert(spec_link_set(self.links(), j) is Some);
                if i != id {
                    assert(self.link_set(j).contains(i));
                }
            }
        }
        assert(after.symmetric()) by {
            assert forall|i: u32, j: u32| after.live(i) && after.live(j) implies (
            #[trigger] after.edge_set(i).contains(j) <==> #[trigger] after.link_set(j).contains(
                i,
            )) by {
                assert(self.live(i) && self.live(j));
                assert(spec_link_set(self.links(), j) is Some);
                assert(self.edge_set(i).contains(j) <==> self.link_set(j).contains(i));
                if i == id {
                    assert(after.edge_set(i).contains(j) <==> new.contains(j));
                    assert(self.edge_set(i).contains(j) <==> prev.contains(j));
                } else {
                    assert(after.edge_set(i) == self.edge_set(i));
                }
            }
        }
    }

    /// Why freeing node `id` is refused, if it is: the node cannot be read,
    /// the backlink entry of one of its targets cannot be changed, or the
    /// free-id list cannot take one more id.
    pub open spec fn spec_free_error(&self, id: u32) -> Option<GraphError> {
        match self.spec_get(id) {
            Err(e) => Some(e),
            Ok((_, edges)) => match first_update_error(
                self.links(),
                edges,
                Seq::empty(),
                id,
                false,
            ) {
                Some(e) => Some(e),
                None => if list_takes(self.freed()) {
                    None
                } else {
                    Some(GraphError::GrowFailed)
                },
            },
        }
    }

    /// The backlink set of `t` after node `id`, which had the out-edges
    /// `edges`, was freed, given its set before.
    pub open spec fn link_set_after_free(
        before: Option<Set<u32>>,
        id: u32,
        t: u32,
        edges: Seq<u32>,
    ) -> Option<Set<u32>> {
        if t == id {
            Some(Set::empty())
        } else {
            match before {
                Some(set) => Some(
                    if edges.contains(t) {
                        set.remove(id)
                    } else {
                        set
                    },
                ),
                None => None,
            }
        }
    }

    /// Whether `after` is this state with node `id` freed: the id stands at
    /// the end of the free-id list, it is gone from the backlinks of its
    /// targets, its own backlinks are empty, and the store is as it was.
    pub open spec fn node_freed(&self, after: &Graph, id: u32, edges: Seq<u32>) -> bool {
        &&& after.next() == self.next()
        &&& after.freed() == self.freed().push(id)
        &&& after.store().bytes() == self.store().bytes()
        &&& after.links().dom() == self.links().dom().insert(id)
        &&& forall|t: u32| #[trigger]
            spec_link_set(after.links(), t) == Self::link_set_after_free(
                spec_link_set(self.links(), t),
                id,
                t,
                edges,
            )
    }

    /// Frees node `id`: appends it to the free-id list, takes it out of the
    /// backlinks of its targets and empties its own backlinks. The node's
    /// record stays in the store. Where the call fails nothing changes.
    pub fn free(&mut self, id: u32) -> (r: Result<(), GraphError>)
        requires
            old(self).wf(),
        ensures
            final(self).wf(),
            final(self).graves() == old(self).graves(),
            final(self).beam() == old(self).beam(),
            final(self).entry() == old(self).entry(),
            final(self).max_degree() == old(self).max_degree(),
            final(self).slack_bits() == old(self).slack_bits(),
            final(self).store().count() == old(self).store().count(),
            final(self).store().dim() == old(self).store().dim(),
            final(self).store().degree() == old(self).store().degree(),
            final(self).store().entry() == old(self).store().entry(),
            match old(self).spec_free_error(id) {
                Some(e) => r == Err::<(), GraphError>(e) && final(self).same_state(old(self)),
                None => {
                    &&& r is Ok
                    &&& old(self).spec_get(id) matches Ok((_, edges))
                    &&& old(self).node_freed(final(self), id, edges)
                },
            },
            old(self).symmetric() ==> final(self).symmetric(),
            old(self).consistent() ==> final(self).consistent(),
    {
        let (_, edges): (Vec<u32>, Vec<u32>) = match self.get(id) {
            Ok(node) => node,
            Err(e) => {
                proof {
                    if old(self).symmetric() {
                        old(self).lemma_same_state_symmetric(self);
                    }
                    if old(self).consistent() {
                        old(self).lemma_same_state_consistent(self);
                    }
                }
                return Err(e);
            },
        };
        let none: Vec<u32> = Vec::new();
        let updates: Vec<Entry> = match plan_updates(&self.backlinks, id, &edges, &none, false) {
            Ok(us) => us,
            Err(e) => {
                proof {
                    if old(self).symmetric() {
                        old(self).lemma_same_state_symmetric(self);
                    }
                    if old(self).consistent() {
                        old(self).lemma_same_state_consistent(self);
                    }
                }
                return Err(e);
            },
        };
        if !self.free_ids.push(id) {
            proof {
                if old(self).symmetric() {
                    old(self).lemma_same_state_symmetric(self);
                }
                if old(self).consistent() {
                    old(self).lemma_same_state_consistent(self);
                }
            }
            return Err(GraphError::GrowFailed);
        }
        let ghost plan = entries_view(updates@);
        proof {
            assert(plan + Seq::<(u32, Seq<u8>)>::empty() =~= plan);
            lemma_plans_retarget(
                old(self).links(),
                plan,
                Seq::<(u32, Seq<u8>)>::empty(),
                id,
                edges@,
                Seq::<u32>::empty(),
            );
            assert forall|u: int| 0 <= u < updates@.len() implies (#[trigger] updates@[u]).1@.len()
                <= u32::MAX by {
                assert(plan[u].1 == updates@[u].1@);
                assert(update_fits(old(self).links(), plan[u], id, false));
            }
        }
        apply_updates(&mut self.backlinks, updates);
        let empty: Backlinks = Backlinks::new();
        let _ = self.backlinks.insert(id, empty.to_bytes());
        proof {
            assert(words_bytes(Seq::<u32>::empty()) =~= Seq::<u8>::empty());
            lemma_decode_encode_ids(Seq::<u32>::empty());
            assert(Seq::<u32>::empty().to_set() =~= Set::<u32>::empty());
            let mid = put_all(old(self).links(), plan);
            assert forall|t: u32| #[trigger]
                spec_link_set(self.links(), t) == Self::link_set_after_free(
                    spec_link_set(old(self).links(), t),
                    id,
                    t,
                    edges@,
                ) by {
                if t != id {
                    assert(lookup(self.links(), t) == lookup(mid, t));
                    assert(spec_link_set(mid, t) == retargeted(
                        spec_link_set(old(self).links(), t),
                        id,
                        t,
                        edges@,
                        Seq::<u32>::empty(),
                    ));
                }
            }
            assert(self.links().dom() =~= old(self).links().dom().insert(id));
            assert(old(self).node_freed(self, id, edges@));
            if old(self).symmetric() {
                old(self).lemma_free_keeps_symmetric(self, id, edges@);
            }
            if old(self).consistent() {
                old(self).lemma_free_keeps_consistent(self, id, edges@);
            }
        }
        Ok(())
    }

    /// Backlink symmetry alone is kept by the freeing of a node: the node
    /// is live no more, and among the others no edge and no backlink to
    /// another of them has changed.
    pub proof fn lemma_free_keeps_symmetric(&self, after: &Graph, id: u32, edges: Seq<u32>)
        requires
            self.symmetric(),
            after.store().dim() == self.store().dim(),
            after.store().degree() == self.store().degree(),
            self.node_freed(after, id, edges),
        ensures
            after.symmetric(),
    {
        assert forall|i: u32| after.live(i) implies self.live(i) && i != id by {
            let grown = self.freed().push(id);
            if self.freed().contains(i) {
                let k = choose|k: int| 0 <= k < self.freed().len() && self.freed()[k] == i;
                assert(grown[k] == i);
            }
            assert(grown[self.freed().len() as int] == id);
        }
        assert forall|i: u32, j: u32| after.live(i) && after.live(j) implies (
        #[trigger] after.edge_set(i).contains(j) <==> #[trigger] after.link_set(j).contains(
            i,
        )) by {
            assert(self.live(i) && self.live(j) && i != id && j != id);
            assert(after.store().spec_read(i as int) == self.store().spec_read(i as int));
            assert(self.edge_set(i).contains(j) <==> self.link_set(j).contains(i));
            assert(spec_link_set(after.links(), j) == Self::link_set_after_free(
                spec_link_set(self.links(), j),
                id,
                j,
                edges,
            ));
        }
    }

    /// A state that differs from a consistent one by the freeing of one
    /// node is consistent.
    pub proof fn lemma_free_keeps_consistent(&self, after: &Graph, id: u32, edges: Seq<u32>)
        requires
            self.consistent(),
            id < self.next(),
            after.store().dim() == self.store().dim(),
            after.store().degree() == self.store().degree(),
            self.node_freed(after, id, edges),
        ensures
            after.consistent(),
    {
        assert forall|i: u32|
            after.edge_set(i) == self.edge_set(i) && after.store().holds(i as int)
                == self.store().holds(i as int) by {
            assert(after.store().spec_read(i as int) == self.store().spec_read(i as int));
        }
        assert forall|i: u32| after.live(i) implies self.live(i) && i != id by {
            let grown = self.freed().push(id);
            if self.freed().contains(i) {
                let k = choose|k: int| 0 <= k < self.freed().len() && self.freed()[k] == i;
                assert(grown[k] == i);
            }
            assert(grown[self.freed().len() as int] == id);
        }
        assert forall|t: u32| #[trigger] after.link_set(t).subset_of(self.link_set(t)) by {
            assert(spec_link_set(after.links(), t) == Self::link_set_after_free(
                spec_link_set(self.links(), t),
                id,
                t,
                edges,
            ));
            if t == id {
                assert(after.link_set(t) =~= Set::<u32>::empty());
            }
        }
        assert(after.dense()) by {
            assert forall|x: u32| x < after.next() implies after.store().holds(x as int) && (
            #[trigger] spec_link_set(after.links(), x)) is Some by {
                assert(spec_link_set(self.links(), x) is Some);
                assert(spec_link_set(after.links(), x) == Self::link_set_after_free(
                    spec_link_set(self.links(), x),
                    id,
                    x,
                    edges,
                ));
            }
            assert forall|x: u32| #[trigger] after.links().contains_key(x) implies x
                < after.next() by {
                if x != id {
                    assert(self.links().contains_key(x));
                }
            }
        }
        assert(after.closed()) by {
            assert forall|i: u32, j: u32|
                after.live(i) && #[trigger] after.edge_set(i).contains(j) implies j
                < after.next() by {
                assert(self.live(i));
                assert(self.edge_set(i).contains(j));
            }
            assert forall|i: u32, j: u32|
                after.live(j) && #[trigger] after.link_set(j).contains(i) implies i
                < after.next() by {
                assert(self.live(j));
                assert(after.link_set(j).subset_of(self.link_set(j)));
                assert(self.link_set(j).contains(i));
            }
        }
        assert(after.symmetric()) by {
            assert forall|i: u32, j: u32| after.live(i) && after.live(j) implies (
            #[trigger] after.edge_set(i).contains(j) <==> #[trigger] after.link_set(j).contains(
                i,
            )) by {
                assert(self.live(i) && self.live(j) && i != id && j != id);
                assert(self.edge_set(i).contains(j) <==> self.link_set(j).contains(i));
                assert(spec_link_set(after.links(), j) == Self::link_set_after_free(
                    spec_link_set(self.links(), j),
                    id,
                    j,
                    edges,
                ));
                assert(spec_link_set(self.links(), j) is Some);
            }
        }
    }

    /// Makes room in the store for every node up to `last`. Nothing that
    /// can be read changes. Fails, changing nothing, where the store cannot
    /// grow that far.
    pub fn reserve(&mut self, last: u32) -> (r: Result<(), GraphError>)
        requires
            old(self).wf(),
        ensures
            final(self).wf(),
            final(self).same_settings(old(self)),
            final(self).links() == old(self).links(),
            final(self).next() == old(self).next(),
            old(self).store().cannot_hold(last as int) ==> r == Err::<(), GraphError>(
                GraphError::Store(NodeStoreError::GrowFailed),
            ) && final(self).same_state(old(self)),
            !old(self).store().cannot_hold(last as int) ==> {
                &&& r is Ok
                &&& forall|j: int| 0 <= j <= last ==> #[trigger] final(self).store().holds(j)
                &&& forall|j: int|
                    #![trigger final(self).store().spec_read(j)]
                    old(self).store().holds(j) ==> final(self).store().holds(j) && final(self)
                        .store().spec_read(j) == old(self).store().spec_read(j)
            },
            old(self).consistent() ==> final(self).consistent(),
    {
        let r: Result<(), GraphError> = match self.graph_store.reserve(last) {
            Ok(()) => Ok(()),
            Err(e) => Err(GraphError::Store(e)),
        };
        proof {
            if old(self).consistent() {
                old(self).lemma_reads_kept_consistent(self);
            }
        }
        r
    }

    /// A state in which every node that could be read reads as before, and
    /// nothing else differs, is consistent if the state before was.
    pub proof fn lemma_reads_kept_consistent(&self, after: &Graph)
        requires
            self.consistent(),
            after.links() == self.links(),
            after.next() == self.next(),
            after.freed() == self.freed(),
            forall|j: int|
                #![trigger after.store().spec_read(j)]
                self.store().holds(j) ==> after.store().holds(j) && after.store().spec_read(j)
                    == self.store().spec_read(j),
        ensures
            after.consistent(),
    {
        assert forall|i: u32| i < self.next() implies after.edge_set(i) == self.edge_set(i)
            && after.store().holds(i as int) by {
            assert(spec_link_set(self.links(), i) is Some);
            assert(self.store().holds(i as int));
            assert(after.store().spec_read(i as int) == self.store().spec_read(i as int));
        }
        assert forall|i: u32| after.link_set(i) == self.link_set(i) && after.live(i) == self.live(
            i,
        ) by {}
        assert(after.dense()) by {
            assert forall|id: u32| id < after.next() implies after.store().holds(id as int) && (
            #[trigger] spec_link_set(after.links(), id)) is Some by {
                assert(spec_link_set(self.links(), id) is Some);
                assert(self.store().holds(id as int));
                assert(after.store().spec_read(id as int) == self.store().spec_read(id as int));
            }
        }
        assert(after.closed()) by {
            assert forall|i: u32, j: u32|
                after.live(i) && #[trigger] after.edge_set(i).contains(j) implies j
                < after.next() by {
                assert(self.live(i));
                assert(self.edge_set(i).contains(j));
            }
            assert forall|i: u32, j: u32|
                after.live(j) && #[trigger] after.link_set(j).contains(i) implies i
                < after.next() by {
                assert(self.live(j));
                assert(self.link_set(j).contains(i));
            }
        }
        assert(after.symmetric()) by {
            assert forall|i: u32, j: u32| after.live(i) && after.live(j) implies (
            #[trigger] after.edge_set(i).contains(j) <==> #[trigger] after.link_set(j).contains(
                i,
            )) by {
                assert(self.live(i) && self.live(j));
                assert(self.edge_set(i).contains(j) <==> self.link_set(j).contains(i));
            }
        }
    }

    /// The backlinks of node `id` in ascending order.
    pub fn backlink(&self, id: u32) -> (r: Result<Vec<u32>, GraphError>)
        ensures
            r is Ok <==> spec_link_set(self.links(), id) is Some,
            r matches Ok(ids) ==> crate::backlinks::ascending(ids@) && Some(ids@.to_set())
                == spec_link_set(self.links(), id),
            r matches Err(e) ==> e == (if self.links().contains_key(id) {
                GraphError::CorruptBacklinks
            } else {
                GraphError::MissingBacklinks
            }),
    {
        match self.backlinks.get(id) {
            None => Err(GraphError::MissingBacklinks),
            Some(bytes) => match Backlinks::from_bytes(&bytes) {
                Some(set) => Ok(set.0),
                None => Err(GraphError::CorruptBacklinks),
            },
        }
    }

    /// The ids that were freed, in the order of freeing.
    pub fn free_ids(&self) -> (r: Vec<u32>)
        ensures
            r@ == self.freed(),
    {
        self.free_ids.to_vec()
    }

    /// The ids that await removal.
    pub fn cemetery(&self) -> (r: Vec<u32>)
        ensures
            r@ == self.graves(),
    {
        self.cemetery.to_vec()
    }

    /// Marks `id` as awaiting removal: appends it to the cemetery. The call
    /// fails, and nothing changes, exactly where the cemetery cannot take
    /// one more id.
    pub fn suspect(&mut self, id: u32) -> (r: Result<(), GraphError>)
        ensures
            r is Ok <==> list_takes(old(self).graves()),
            r is Ok ==> final(self).graves() == old(self).graves().push(id),
            r matches Err(e) ==> e == GraphError::GrowFailed && final(self).graves() == old(self)
                .graves(),
            final(self).store() == old(self).store(),
            final(self).links() == old(self).links(),
            final(self).next() == old(self).next(),
            final(self).freed() == old(self).freed(),
            final(self).beam() == old(self).beam(),
            final(self).entry() == old(self).entry(),
            final(self).max_degree() == old(self).max_degree(),
            final(self).slack_bits() == old(self).slack_bits(),
            old(self).symmetric() ==> final(self).symmetric(),
            old(self).consistent() ==> final(self).consistent(),
    {
        let pushed: bool = self.cemetery.push(id);
        proof {
            if old(self).symmetric() {
                old(self).lemma_same_state_symmetric(self);
            }
            if old(self).consistent() {
                old(self).lemma_same_state_consistent(self);
            }
        }
        if pushed {
            Ok(())
        } else {
            Err(GraphError::GrowFailed)
        }
    }

    /// Empties the cemetery: puts a fresh list in its place, which always
    /// succeeds.
    pub fn clear_cemetery(&mut self) -> (r: Result<(), GraphError>)
        ensures
            r is Ok,
            final(self).graves() == Seq::<u32>::empty(),
            final(self).store() == old(self).store(),
            final(self).links() == old(self).links(),
            final(self).next() == old(self).next(),
            final(self).freed() == old(self).freed(),
            final(self).beam() == old(self).beam(),
            final(self).entry() == old(self).entry(),
            final(self).max_degree() == old(self).max_degree(),
            final(self).slack_bits() == old(self).slack_bits(),
            old(self).symmetric() ==> final(self).symmetric(),
            old(self).consistent() ==> final(self).consistent(),
    {
        let fresh: Option<IdList> = IdList::new();
        let r: Result<(), GraphError> = match fresh {
            Some(list) => {
                self.cemetery = list;
                Ok(())
            },
            None => Err(GraphError::GrowFailed),
        };
        proof {
            if old(self).symmetric() {
                old(self).lemma_same_state_symmetric(self);
            }
            if old(self).consistent() {
                old(self).lemma_same_state_consistent(self);
            }
        }
        r
    }
}

/// What a read of the graph returned, as plain values.
pub open spec fn graph_read_view(r: Result<(Vec<u32>, Vec<u32>), GraphError>) -> Result<
    (Seq<u32>, Seq<u32>),
    GraphError,
> {
    match r {
        Ok((v, e)) => Ok((v@, e@)),
        Err(err) => Err(err),
    }
}

} // verus!
