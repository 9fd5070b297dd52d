//! Planning and applying the changes that one node's new out-edges bring to
//! the backlink entries of other nodes.

use vstd::prelude::*;
use crate::backlinks::{ascending, stored_set, Backlinks};
use crate::bytes::{lemma_decode_encode_ids, lemma_words_bytes_len};
use crate::graph::{spec_link_set, GraphError};
use crate::ordered_map::{entries_view, lookup, put_all, Entry, ICRBTree};

verus! {

/// Whether `x` occurs in `ids`.
pub fn contains_id(ids: &Vec<u32>, x: u32) -> (r: bool)
    ensures
        r == ids@.contains(x),
{
    let mut i: usize = 0;
    while i < ids.len()
        invariant
            i <= ids.len(),
            forall|k: int| 0 <= k < i ==> ids@[k] != x,
        decreases ids.len() - i,
    {
        if ids[i] == x {
            return true;
        }
        i += 1;
    }
    false
}

/// The backlink set of `t` after node `id` changed its out-edges from `prev`
/// to `new`: `id` comes in where `t` became a target, goes out where `t`
/// stopped being one.
pub open spec fn retarget(set: Set<u32>, id: u32, t: u32, prev: Seq<u32>, new: Seq<u32>) -> Set<
    u32,
> {
    if new.contains(t) && !prev.contains(t) {
        set.insert(id)
    } else if prev.contains(t) && !new.contains(t) {
        set.remove(id)
    } else {
        set
    }
}

/// `set` with `id` put in or taken out.
pub open spec fn changed(set: Set<u32>, id: u32, add: bool) -> Set<u32> {
    if add {
        set.insert(id)
    } else {
        set.remove(id)
    }
}

/// Why the backlink entry of `t` cannot be changed, if it cannot: there is
/// none, it is no list of ids, or the changed set would be too long to store.
pub open spec fn link_update_error(links: Map<u32, Seq<u8>>, t: u32, id: u32, add: bool) -> Option<
    GraphError,
> {
    match lookup(links, t) {
        None => Some(GraphError::MissingBacklinks),
        Some(bytes) => match stored_set(bytes) {
            None => Some(GraphError::CorruptBacklinks),
            Some(set) => if 4 * changed(set, id, add).len() > u32::MAX {
                Some(GraphError::TooManyBacklinks)
            } else {
                None
            },
        },
    }
}

/// The first error met when the entries of the ids of `from` that are not in
/// `other` are changed one after the other.
pub open spec fn first_update_error(
    links: Map<u32, Seq<u8>>,
    from: Seq<u32>,
    other: Seq<u32>,
    id: u32,
    add: bool,
) -> Option<GraphError>
    decreases from.len(),
{
    if from.len() == 0 {
        None
    } else if other.contains(from[0]) {
        first_update_error(links, from.drop_first(), other, id, add)
    } else {
        match link_update_error(links, from[0], id, add) {
            Some(e) => Some(e),
            None => first_update_error(links, from.drop_first(), other, id, add),
        }
    }
}

/// Whether the update `(key, value)` gives the entry of `key` its set with
/// `id` put in or taken out.
pub open spec fn update_fits(
    links: Map<u32, Seq<u8>>,
    update: (u32, Seq<u8>),
    id: u32,
    add: bool,
) -> bool {
    &&& update.1.len() <= u32::MAX
    &&& spec_link_set(links, update.0) matches Some(set)
    &&& stored_set(update.1) == Some(changed(set, id, add))
}

/// Whether `updates` changes the entry of each id of `from` that is not in
/// `other`, and no other entry.
pub open spec fn plan_covers(
    links: Map<u32, Seq<u8>>,
    updates: Seq<(u32, Seq<u8>)>,
    from: Seq<u32>,
    other: Seq<u32>,
    id: u32,
    add: bool,
) -> bool {
    &&& forall|u: int|
        0 <= u < updates.len() ==> from.contains((#[trigger] updates[u]).0) && !other.contains(
            updates[u].0,
        ) && update_fits(links, updates[u], id, add)
    &&& forall|t: u32|
        from.contains(t) && !other.contains(t) ==> exists|u: int|
            0 <= u < updates.len() && (#[trigger] updates[u]).0 == t
}

/// A list in strictly ascending order has as many items as its set.
pub proof fn lemma_ascending_len(ids: Seq<u32>)
    requires
        ascending(ids),
    ensures
        ids.to_set().len() == ids.len(),
        ids.to_set().finite(),
{
    assert(ids.no_duplicates()) by {
        assert forall|i: int, j: int|
            0 <= i < ids.len() && 0 <= j < ids.len() && i != j implies ids[i] != ids[j] by {
            if i < j {
                assert(ids[i] < ids[j]);
            } else {
                assert(ids[j] < ids[i]);
            }
        }
    }
    ids.unique_seq_to_set();
    vstd::seq_lib::seq_to_set_is_finite(ids);
}

/// Plans the changes to the backlink entries of the ids of `from` that are
/// not in `other`: `id` is put into each (`add`) or taken out of each. Gives
/// the entries to write, or the first error.
pub(crate) fn plan_updates(tree: &ICRBTree, id: u32, from: &Vec<u32>, other: &Vec<u32>, add: bool) -> (r:
    Result<Vec<Entry>, GraphError>)
    ensures
        match first_update_error(tree.entries(), from@, other@, id, add) {
            Some(e) => r == Err::<Vec<Entry>, GraphError>(e),
            None => r matches Ok(us) && plan_covers(
                tree.entries(),
                entries_view(us@),
                from@,
                other@,
                id,
                add,
            ),
        },
{
    let ghost links = tree.entries();
    let mut updates: Vec<Entry> = Vec::new();
    let mut k: usize = 0;
    assert(from@.subrange(0, from@.len() as int) =~= from@);
    while k < from.len()
        invariant
            k <= from.len(),
            links == tree.entries(),
            first_update_error(links, from@, other@, id, add) == first_update_error(
                links,
                from@.subrange(k as int, from@.len() as int),
                other@,
                id,
                add,
            ),
            plan_covers(links, entries_view(updates@), from@.subrange(0, k as int), other@, id, add),
        decreases from.len() - k,
    {
        let t: u32 = from[k];
        let ghost rest = from@.subrange(k as int, from@.len() as int);
        let ghost done = from@.subrange(0, k as int);
        let ghost done_next = from@.subrange(0, k + 1);
        let ghost before = entries_view(updates@);
        proof {
            assert(rest[0] == t);
            assert(rest.drop_first() =~= from@.subrange(k + 1, from@.len() as int));
            assert(done_next =~= done.push(t));
            assert forall|x: u32| done_next.contains(x) <==> (done.contains(x) || x == t) by {
                if done_next.contains(x) {
                    let i = choose|i: int| 0 <= i < done_next.len() && done_next[i] == x;
                    if i < k {
                        assert(done[i] == x);
                    }
                }
                if done.contains(x) {
                    let i = choose|i: int| 0 <= i < done.len() && done[i] == x;
                    assert(done_next[i] == x);
                }
                if x == t {
                    assert(done_next[k as int] == x);
                }
            }
        }
        if contains_id(other, t) {
            proof {
                assert forall|x: u32|
                    done_next.contains(x) && !other@.contains(x) implies exists|u: int|
                    0 <= u < before.len() && (#[trigger] before[u]).0 == x by {
                    assert(done.contains(x));
                }
            }
            k += 1;
            continue ;
        }
        let bytes: Vec<u8> = match tree.get(t) {
            None => {
                return Err(GraphError::MissingBacklinks);
            },
            Some(bytes) => bytes,
        };
        let mut set: Backlinks = match Backlinks::from_bytes(&bytes) {
            None => {
                return Err(GraphError::CorruptBacklinks);
            },
            Some(set) => set,
        };
        let ghost stored = set@;
        if add {
            set.insert(id);
        } else {
            set.remove(id);
        }
        proof {
            lemma_ascending_len(set.0@);
            assert(set@ == changed(stored, id, add));
        }
        if set.0.len() > 0x3fff_ffff {
            return Err(GraphError::TooManyBacklinks);
        }
        let value: Vec<u8> = set.to_bytes();
        proof {
            lemma_words_bytes_len(set.0@);
            lemma_decode_encode_ids(set.0@);
            assert(stored_set(value@) == Some(set@));
        }
        updates.push((t, value));
        proof {
            let after = entries_view(updates@);
            assert(after =~= before.push((t, value@)));
            assert forall|u: int| 0 <= u < after.len() implies done_next.contains(
                (#[trigger] after[u]).0,
            ) && !other@.contains(after[u].0) && update_fits(links, after[u], id, add) by {
                if u < before.len() {
                    assert(after[u] == before[u]);
                    assert(done.contains(before[u].0));
                }
            }
            assert forall|x: u32|
                done_next.contains(x) && !other@.contains(x) implies exists|u: int|
                0 <= u < after.len() && (#[trigger] after[u]).0 == x by {
                if x == t {
                    assert(after[before.len() as int].0 == x);
                } else {
                    assert(done.contains(x));
                    let u = choose|u: int| 0 <= u < before.len() && (#[trigger] before[u]).0 == x;
                    assert(after[u].0 == x);
                }
            }
        }
        k += 1;
    }
    assert(from@.subrange(0, from@.len() as int) =~= from@);
    assert(from@.subrange(from@.len() as int, from@.len() as int) =~= Seq::<u32>::empty());
    Ok(updates)
}

/// Writes the planned entries into the map, one after the other.
pub(crate) fn apply_updates(tree: &mut ICRBTree, updates: Vec<Entry>)
    requires
        old(tree).entries().dom().finite(),
        forall|u: int| 0 <= u < updates@.len() ==> (#[trigger] updates@[u]).1@.len() <= u32::MAX,
    ensures
        final(tree).entries() == put_all(old(tree).entries(), entries_view(updates@)),
        final(tree).entries().dom().finite(),
{
    let ghost all = entries_view(updates@);
    let ghost start = tree.entries();
    let mut i: usize = 0;
    let n: usize = updates.len();
    assert(all.subrange(0, 0) =~= Seq::empty());
    while i < n
        invariant
            i <= n,
            n == updates@.len(),
            all == entries_view(updates@),
            forall|u: int| 0 <= u < updates@.len() ==> (#[trigger] updates@[u]).1@.len() <= u32::MAX,
            tree.entries() == put_all(start, all.subrange(0, i as int)),
            tree.entries().dom().finite(),
        decreases n - i,
    {
        let key: u32 = updates[i].0;
        let value: Vec<u8> = updates[i].1.clone();
        let _ = tree.insert(key, value);
        proof {
            assert(all.subrange(0, i + 1).drop_last() =~= all.subrange(0, i as int));
            assert(all.subrange(0, i + 1).last() == all[i as int]);
        }
        i += 1;
    }
    assert(all.subrange(0, n as int) =~= all);
}

/// Whether `t` is a target of exactly one of the two edge lists.
pub open spec fn target_changes(t: u32, prev: Seq<u32>, new: Seq<u32>) -> bool {
    prev.contains(t) != new.contains(t)
}

/// Whether the update `(key, value)` gives the entry of `key`, a target of
/// exactly one of the two edge lists, its set after the change of edges.
pub open spec fn update_retargets(
    links: Map<u32, Seq<u8>>,
    update: (u32, Seq<u8>),
    id: u32,
    prev: Seq<u32>,
    new: Seq<u32>,
) -> bool {
    &&& target_changes(update.0, prev, new)
    &&& spec_link_set(links, update.0) matches Some(set)
    &&& stored_set(update.1) == Some(retarget(set, id, update.0, prev, new))
}

/// The backlink set of `t` after the change of edges, given its set before.
pub open spec fn retargeted(
    before: Option<Set<u32>>,
    id: u32,
    t: u32,
    prev: Seq<u32>,
    new: Seq<u32>,
) -> Option<Set<u32>> {
    match before {
        Some(set) => Some(retarget(set, id, t, prev, new)),
        None => None,
    }
}

/// Whether some update of the list has the key `t`.
pub open spec fn has_update(updates: Seq<(u32, Seq<u8>)>, t: u32) -> bool {
    exists|u: int| 0 <= u < updates.len() && (#[trigger] updates[u]).0 == t
}

/// Writing a list of updates, each of which gives its key the set after the
/// change of edges, leaves the keys of the map as they were, gives every
/// updated key that set and leaves every other entry alone.
pub proof fn lemma_put_all_retargets(
    links: Map<u32, Seq<u8>>,
    updates: Seq<(u32, Seq<u8>)>,
    id: u32,
    prev: Seq<u32>,
    new: Seq<u32>,
)
    requires
        forall|u: int|
            0 <= u < updates.len() ==> update_retargets(links, #[trigger] updates[u], id, prev, new),
    ensures
        put_all(links, updates).dom() == links.dom(),
        forall|t: u32|
            has_update(updates, t) ==> #[trigger] spec_link_set(put_all(links, updates), t)
                == retargeted(spec_link_set(links, t), id, t, prev, new),
        forall|t: u32|
            !has_update(updates, t) ==> #[trigger] lookup(put_all(links, updates), t) == lookup(
                links,
                t,
            ),
    decreases updates.len(),
{
    if updates.len() == 0 {
    } else {
        let front = updates.drop_last();
        let last = updates.last();
        assert forall|u: int| 0 <= u < front.len() implies update_retargets(
            links,
            #[trigger] front[u],
            id,
            prev,
            new,
        ) by {
            assert(front[u] == updates[u]);
        }
        lemma_put_all_retargets(links, front, id, prev, new);
        let mid = put_all(links, front);
        let after = put_all(links, updates);
        assert(after == mid.insert(last.0, last.1));
        assert(update_retargets(links, updates[updates.len() - 1], id, prev, new));
        assert(links.contains_key(last.0));
        assert(after.dom() =~= links.dom());
        assert forall|t: u32| has_update(updates, t) implies #[trigger] spec_link_set(after, t)
            == retargeted(spec_link_set(links, t), id, t, prev, new) by {
            if t == last.0 {
                assert(lookup(after, t) == Some(last.1));
                assert(spec_link_set(after, t) == stored_set(last.1));
            } else {
                let u = choose|u: int| 0 <= u < updates.len() && (#[trigger] updates[u]).0 == t;
                if u == updates.len() - 1 {
                    assert(updates[u] == last);
                }
                assert(u < front.len());
                assert(front[u] == updates[u]);
                assert(has_update(front, t));
                assert(lookup(after, t) == lookup(mid, t));
                assert(spec_link_set(mid, t) == retargeted(
                    spec_link_set(links, t),
                    id,
                    t,
                    prev,
                    new,
                ));
            }
        }
        assert forall|t: u32| !has_update(updates, t) implies #[trigger] lookup(after, t) == lookup(
            links,
            t,
        ) by {
            assert(updates[updates.len() - 1].0 == last.0);
            assert(t != last.0);
            if has_update(front, t) {
                let u = choose|u: int| 0 <= u < front.len() && (#[trigger] front[u]).0 == t;
                assert(updates[u].0 == t);
            }
            assert(lookup(after, t) == lookup(mid, t));
        }
    }
}

/// Writing the planned removals and additions gives every node the backlink
/// set that the change of edges asks for.
pub proof fn lemma_plans_retarget(
    links: Map<u32, Seq<u8>>,
    removals: Seq<(u32, Seq<u8>)>,
    additions: Seq<(u32, Seq<u8>)>,
    id: u32,
    prev: Seq<u32>,
    new: Seq<u32>,
)
    requires
        plan_covers(links, removals, prev, new, id, false),
        plan_covers(links, additions, new, prev, id, true),
    ensures
        put_all(links, removals + additions).dom() == links.dom(),
        forall|t: u32| #[trigger]
            spec_link_set(put_all(links, removals + additions), t) == retargeted(
                spec_link_set(links, t),
                id,
                t,
                prev,
                new,
            ),
        forall|t: u32|
            target_changes(t, prev, new) ==> links.contains_key(t) && (#[trigger] spec_link_set(
                links,
                t,
            )) is Some,
{
    let updates = removals + additions;
    assert forall|u: int| 0 <= u < updates.len() implies update_retargets(
        links,
        #[trigger] updates[u],
        id,
        prev,
        new,
    ) by {
        if u < removals.len() {
            assert(updates[u] == removals[u]);
            assert(update_fits(links, removals[u], id, false));
        } else {
            assert(updates[u] == additions[u - removals.len()]);
            assert(update_fits(links, additions[u - removals.len()], id, true));
        }
    }
    lemma_put_all_retargets(links, updates, id, prev, new);
    let after = put_all(links, updates);
    assert forall|t: u32| target_changes(t, prev, new) implies has_update(updates, t)
        && links.contains_key(t) && (#[trigger] spec_link_set(links, t)) is Some by {
        if prev.contains(t) && !new.contains(t) {
            let u = choose|u: int| 0 <= u < removals.len() && (#[trigger] removals[u]).0 == t;
            assert(updates[u].0 == t);
            assert(update_retargets(links, updates[u], id, prev, new));
        } else {
            let u = choose|u: int| 0 <= u < additions.len() && (#[trigger] additions[u]).0 == t;
            assert(updates[u + removals.len()].0 == t);
            assert(update_retargets(links, updates[u + removals.len()], id, prev, new));
        }
    }
    assert forall|t: u32| #[trigger]
        spec_link_set(after, t) == retargeted(spec_link_set(links, t), id, t, prev, new) by {
        if has_update(updates, t) {
        } else {
            assert(!target_changes(t, prev, new));
            assert(lookup(after, t) == lookup(links, t));
        }
    }
}

} // verus!
