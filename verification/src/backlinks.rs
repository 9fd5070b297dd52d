//! Backlink sets: for a node, the ids of the nodes that have an edge to it,
//! kept in ascending order and stored as little-endian words.

use vstd::prelude::*;
use crate::bytes::{decode_ids, encode_ids, spec_decode_ids, words_bytes};

verus! {

/// The set of ids with an edge to one node, as a list in ascending order.
pub struct Backlinks(pub Vec<u32>);

/// Whether a list of ids is in strictly ascending order.
pub open spec fn ascending(ids: Seq<u32>) -> bool {
    forall|i: int, j: int| 0 <= i < j < ids.len() ==> ids[i] < ids[j]
}

impl View for Backlinks {
    type V = Set<u32>;

    open spec fn view(&self) -> Set<u32> {
        self.0@.to_set()
    }
}

/// Number of leading ids of `ids` that are less than `id`.
pub fn lower_bound(ids: &Vec<u32>, id: u32) -> (p: usize)
    requires
        ascending(ids@),
    ensures
        p <= ids@.len(),
        forall|k: int| 0 <= k < p ==> ids@[k] < id,
        forall|k: int| p <= k < ids@.len() ==> ids@[k] >= id,
{
    let mut p: usize = 0;
    while p < ids.len() && ids[p] < id
        invariant
            p <= ids@.len(),
            ascending(ids@),
            forall|k: int| 0 <= k < p ==> ids@[k] < id,
        decreases ids@.len() - p,
    {
        p += 1;
    }
    p
}

impl Backlinks {
    /// Whether the list is in strictly ascending order, as every operation
    /// here leaves it.
    pub open spec fn wf(&self) -> bool {
        ascending(self.0@)
    }

    /// The empty set.
    pub fn new() -> (r: Self)
        ensures
            r.wf(),
            r@ == Set::<u32>::empty(),
            r.0@ == Seq::<u32>::empty(),
    {
        let r = Backlinks(Vec::new());
        assert(r@ =~= Set::<u32>::empty());
        r
    }

    /// Whether `id` is in the set.
    pub fn contains(&self, id: u32) -> (r: bool)
        requires
            self.wf(),
        ensures
            r == self@.contains(id),
    {
        let p: usize = lower_bound(&self.0, id);
        let found: bool = p < self.0.len() && self.0[p] == id;
        proof {
            if found {
                assert(self.0@[p as int] == id);
            } else {
                assert(!self.0@.contains(id));
            }
        }
        found
    }

    /// Puts `id` into the set.
    pub fn insert(&mut self, id: u32)
        requires
            old(self).wf(),
        ensures
            final(self).wf(),
            final(self)@ == old(self)@.insert(id),
    {
        let p: usize = lower_bound(&self.0, id);
        if p < self.0.len() && self.0[p] == id {
            proof {
                assert(self.0@[p as int] == id);
                assert(self@ =~= old(self)@.insert(id));
            }
            return ;
        }
        self.0.insert(p, id);
        proof {
            let before = old(self).0@;
            let after = self.0@;
            assert(after == before.insert(p as int, id));
            assert forall|x: u32| after.contains(x) <==> (before.contains(x) || x == id) by {
                if after.contains(x) {
                    let k = choose|k: int| 0 <= k < after.len() && after[k] == x;
                    if k < p {
                        assert(before[k] == x);
                    } else if k > p {
                        assert(before[k - 1] == x);
                    }
                }
                if before.contains(x) {
                    let k = choose|k: int| 0 <= k < before.len() && before[k] == x;
                    if k < p {
                        assert(after[k] == x);
                    } else {
                        assert(after[k + 1] == x);
                    }
                }
                if x == id {
                    assert(after[p as int] == x);
                }
            }
            assert(self@ =~= old(self)@.insert(id));
            assert forall|i: int, j: int| 0 <= i < j < after.len() implies after[i] < after[j] by {
                if j < p {
                } else if j == p {
                } else if i < p {
                    assert(after[j] == before[j - 1]);
                } else if i == p {
                    assert(after[j] == before[j - 1]);
                } else {
                    assert(after[i] == before[i - 1]);
                    assert(after[j] == before[j - 1]);
                }
            }
        }
    }

    /// Takes `id` out of the set.
    pub fn remove(&mut self, id: u32)
        requires
            old(self).wf(),
        ensures
            final(self).wf(),
            final(self)@ == old(self)@.remove(id),
    {
        let p: usize = lower_bound(&self.0, id);
        if !(p < self.0.len() && self.0[p] == id) {
            proof {
                assert(!self.0@.contains(id));
                assert(self@ =~= old(self)@.remove(id));
            }
            return ;
        }
        let _ = self.0.remove(p);
        proof {
            let before = old(self).0@;
            let after = self.0@;
            assert(after == before.remove(p as int));
            assert forall|x: u32| after.contains(x) <==> (before.contains(x) && x != id) by {
                if after.contains(x) {
                    let k = choose|k: int| 0 <= k < after.len() && after[k] == x;
                    if k < p {
                        assert(before[k] == x);
                    } else {
                        assert(before[k + 1] == x);
                    }
                }
                if before.contains(x) && x != id {
                    let k = choose|k: int| 0 <= k < before.len() && before[k] == x;
                    if k < p {
                        assert(after[k] == x);
                    } else {
                        assert(after[k - 1] == x);
                    }
                }
            }
            assert(self@ =~= old(self)@.remove(id));
            assert forall|i: int, j: int| 0 <= i < j < after.len() implies after[i] < after[j] by {
                if j < p {
                } else if i < p {
                    assert(after[j] == before[j + 1]);
                } else {
                    assert(after[i] == before[i + 1]);
                    assert(after[j] == before[j + 1]);
                }
            }
        }
    }

    /// The set of the ids in `ids`, in whatever order and however often they
    /// stand there.
    pub fn from_ids(ids: &Vec<u32>) -> (r: Self)
        ensures
            r.wf(),
            r@ == ids@.to_set(),
    {
        let mut out: Backlinks = Backlinks::new();
        let mut i: usize = 0;
        assert(ids@.subrange(0, 0).to_set() =~= Set::<u32>::empty());
        while i < ids.len()
            invariant
                i <= ids.len(),
                out.wf(),
                out@ == ids@.subrange(0, i as int).to_set(),
            decreases ids.len() - i,
        {
            out.insert(ids[i]);
            proof {
                let done = ids@.subrange(0, i as int);
                let next = ids@.subrange(0, i + 1);
                assert(next =~= done.push(ids@[i as int]));
                assert forall|x: u32|
                    next.contains(x) <==> (done.contains(x) || x == ids@[i as int]) by {
                    if next.contains(x) {
                        let k = choose|k: int| 0 <= k < next.len() && next[k] == x;
                        if k < i {
                            assert(done[k] == x);
                        }
                    }
                    if done.contains(x) {
                        let k = choose|k: int| 0 <= k < done.len() && done[k] == x;
                        assert(next[k] == x);
                    }
                    if x == ids@[i as int] {
                        assert(next[i as int] == x);
                    }
                }
                assert(next.to_set() =~= done.to_set().insert(ids@[i as int]));
            }
            i += 1;
        }
        assert(ids@.subrange(0, ids@.len() as int) =~= ids@);
        out
    }

    /// The stored form of the set: its ids in ascending order, four
    /// little-endian bytes each.
    pub fn to_bytes(&self) -> (r: Vec<u8>)
        ensures
            r@ == words_bytes(self.0@),
    {
        encode_ids(&self.0)
    }

    /// The set that stored bytes hold; `None` where their length is no
    /// multiple of four. The ids may stand in the bytes in any order.
    pub fn from_bytes(bytes: &Vec<u8>) -> (r: Option<Self>)
        ensures
            r is Some <==> spec_decode_ids(bytes@) is Some,
            r matches Some(b) ==> b.wf() && Some(b@) == stored_set(bytes@),
    {
        match decode_ids(bytes) {
            Some(ids) => Some(Backlinks::from_ids(&ids)),
            None => None,
        }
    }
}

/// The set of ids that stored bytes hold.
pub open spec fn stored_set(bytes: Seq<u8>) -> Option<Set<u32>> {
    match spec_decode_ids(bytes) {
        Some(ids) => Some(ids.to_set()),
        None => None,
    }
}

/// Whether every edge of every node leads to a node of the list.
pub open spec fn targets_exist(edges: Seq<Vec<u32>>) -> bool {
    forall|i: int, k: int|
        0 <= i < edges.len() && 0 <= k < edges[i]@.len() ==> (#[trigger] edges[i]@[k]) < edges.len()
}

/// Whether `back` is the inverse of `edges`: node `i` stands among the
/// backlinks of node `j` exactly if it has an edge to `j`.
pub open spec fn is_inverse(back: Seq<Vec<u32>>, edges: Seq<Vec<u32>>) -> bool {
    &&& back.len() == edges.len()
    &&& forall|j: int| 0 <= j < back.len() ==> ascending(#[trigger] back[j]@)
    &&& forall|i: int, j: int|
        0 <= i < edges.len() && 0 <= j < edges.len() ==> (back[j]@.contains(i as u32)
            <==> #[trigger] edges[i]@.contains(j as u32))
    &&& forall|j: int, x: u32|
        0 <= j < back.len() && #[trigger] back[j]@.contains(x) ==> x < edges.len()
}

/// Whether `sets` holds the backlinks that the edges of the first `done`
/// nodes, and the first `part` edges of the node after them, give.
pub open spec fn inverse_so_far(
    sets: Seq<Backlinks>,
    edges: Seq<Vec<u32>>,
    done: int,
    part: int,
) -> bool {
    &&& sets.len() == edges.len()
    &&& forall|j: int| 0 <= j < sets.len() ==> (#[trigger] sets[j]).wf()
    &&& forall|j: int, x: u32|
        0 <= j < sets.len() ==> (#[trigger] sets[j]@.contains(x) <==> ((x < done
            && edges[x as int]@.contains(j as u32)) || (x == done && done < edges.len()
            && edges[done]@.subrange(0, part).contains(j as u32))))
}

/// The backlinks that the out-edges of a whole graph give: for each node
/// the ids of the nodes with an edge to it, in ascending order. `None`
/// where an edge leads to no node of the graph.
pub fn invert_edges(edges: &Vec<Vec<u32>>) -> (r: Option<Vec<Vec<u32>>>)
    requires
        edges@.len() <= u32::MAX,
    ensures
        r is Some <==> targets_exist(edges@),
        r matches Some(back) ==> is_inverse(back@, edges@),
{
    let n: usize = edges.len();
    let mut sets: Vec<Backlinks> = Vec::new();
    let mut j: usize = 0;
    while j < n
        invariant
            j <= n,
            n == edges@.len(),
            sets@.len() == j,
            forall|x: int| 0 <= x < j ==> (#[trigger] sets@[x]).wf() && sets@[x]@ == Set::<u32>::empty(),
        decreases n - j,
    {
        sets.push(Backlinks::new());
        j += 1;
    }
    let mut i: usize = 0;
    proof {
        assert forall|j: int, x: u32| 0 <= j < sets@.len() implies (#[trigger] sets@[j]@.contains(x)
            <==> ((x < 0 && edges@[x as int]@.contains(j as u32)) || (x == 0 && 0 < edges@.len()
            && edges@[0]@.subrange(0, 0).contains(j as u32)))) by {
            assert(sets@[j]@ == Set::<u32>::empty());
        }
    }
    while i < n
        invariant
            i <= n,
            n == edges@.len(),
            n <= u32::MAX,
            inverse_so_far(sets@, edges@, i as int, 0),
            forall|a: int, k: int|
                0 <= a < i && 0 <= k < edges@[a]@.len() ==> (#[trigger] edges@[a]@[k]) < n,
        decreases n - i,
    {
        let mut k: usize = 0;
        while k < edges[i].len()
            invariant
                i < n,
                n == edges@.len(),
                n <= u32::MAX,
                k <= edges@[i as int]@.len(),
                inverse_so_far(sets@, edges@, i as int, k as int),
                forall|a: int, b: int|
                    0 <= a < i && 0 <= b < edges@[a]@.len() ==> (#[trigger] edges@[a]@[b]) < n,
                forall|b: int| 0 <= b < k ==> (#[trigger] edges@[i as int]@[b]) < n,
            decreases edges@[i as int]@.len() - k,
        {
            let target: u32 = edges[i][k];
            if target as usize >= n {
                proof {
                    assert(!(edges@[i as int]@[k as int] < edges@.len()));
                }
                return None;
            }
            let mut set: Backlinks = Backlinks(sets[target as usize].0.clone());
            assert(set.0@ == sets@[target as int].0@);
            set.insert(i as u32);
            let ghost before = sets@;
            sets.set(target as usize, set);
            proof {
                let row = edges@[i as int]@;
                let seen = row.subrange(0, k as int);
                let seen_next = row.subrange(0, k + 1);
                assert(seen_next =~= seen.push(target));
                assert forall|j: int, x: u32| 0 <= j < sets@.len() implies (
                #[trigger] sets@[j]@.contains(x) <==> ((x < i && edges@[x as int]@.contains(
                    j as u32,
                )) || (x == i && i < edges@.len() && seen_next.contains(j as u32)))) by {
                    assert(before[j]@.contains(x) <==> ((x < i && edges@[x as int]@.contains(
                        j as u32,
                    )) || (x == i && seen.contains(j as u32))));
                    if seen.contains(j as u32) {
                        let p = choose|p: int| 0 <= p < seen.len() && seen[p] == j as u32;
                        assert(seen_next[p] == j as u32);
                    }
                    if seen_next.contains(j as u32) {
                        let p = choose|p: int| 0 <= p < seen_next.len() && seen_next[p] == j as u32;
                        if p < k {
                            assert(seen[p] == j as u32);
                        } else {
                            assert(j == target);
                        }
                    }
                    if j == target {
                        assert(seen_next[k as int] == target);
                        assert(sets@[j]@ == before[j]@.insert(i as u32));
                    } else {
                        assert(sets@[j] == before[j]);
                    }
                }
            }
            k += 1;
        }
        proof {
            let row = edges@[i as int]@;
            assert(row.subrange(0, row.len() as int) =~= row);
            assert forall|j: int, x: u32| 0 <= j < sets@.len() implies (#[trigger] sets@[j]@.contains(
                x,
            ) <==> ((x < i + 1 && edges@[x as int]@.contains(j as u32)) || (x == i + 1 && i + 1
                < edges@.len() && edges@[i + 1]@.subrange(0, 0).contains(j as u32)))) by {
                assert(sets@[j]@.contains(x) <==> ((x < i && edges@[x as int]@.contains(j as u32))
                    || (x == i && row.subrange(0, row.len() as int).contains(j as u32))));
            }
        }
        i += 1;
    }
    let mut back: Vec<Vec<u32>> = Vec::new();
    let mut j: usize = 0;
    while j < n
        invariant
            j <= n,
            n == sets@.len(),
            back@.len() == j,
            forall|x: int| 0 <= x < j ==> (#[trigger] back@[x])@ == sets@[x].0@,
        decreases n - j,
    {
        back.push(sets[j].0.clone());
        j += 1;
    }
    proof {
        assert forall|a: int, b: int|
            0 <= a < edges@.len() && 0 <= b < edges@[a]@.len() implies (#[trigger] edges@[a]@[b])
            < edges@.len() by {}
        assert forall|j: int| 0 <= j < back@.len() implies ascending(#[trigger] back@[j]@) by {
            assert(sets@[j].wf());
        }
        assert forall|a: int, j: int| 0 <= a < edges@.len() && 0 <= j < edges@.len() implies (
        back@[j]@.contains(a as u32) <==> #[trigger] edges@[a]@.contains(j as u32)) by {
            assert(sets@[j]@.contains(a as u32) <==> back@[j]@.contains(a as u32));
        }
        assert forall|j: int, x: u32|
            0 <= j < back@.len() && #[trigger] back@[j]@.contains(x) implies x < edges@.len() by {
            assert(sets@[j]@.contains(x));
        }
    }
    Some(back)
}

} // verus!
