//! Ordered map from node ids to byte strings, kept as a B-tree inside a byte
//! region of its own, so that the region's bytes alone give the map back.

use vstd::prelude::*;

verus! {

/// An ordered map from `u32` keys to byte strings: the `BTreeMap` of
/// `ic_stable_structures`, stored in a byte vector that the map owns. What
/// the map holds is known to the proofs only through [`tree_entries`] and
/// the contracts of the methods below that call into the B-tree; none of
/// those contracts is proved here.
#[verifier::external_body]
pub struct ICRBTree {
    ic_rbtree: ic_stable_structures::BTreeMap<u32, Vec<u8>, std::cell::RefCell<Vec<u8>>>,
}

/// The entries that a tree holds: what `BTreeMap::get` finds under each key.
pub uninterp spec fn tree_entries(tree: ICRBTree) -> Map<u32, Seq<u8>>;

/// The entries of the map that `BTreeMap::init` gives on a byte region;
/// `None` for a region on which the B-tree code, then or later, does not
/// return.
pub uninterp spec fn image_entries(image: Seq<u8>) -> Option<Map<u32, Seq<u8>>>;

/// One entry of a listing: key and value.
pub type Entry = (u32, Vec<u8>);

/// The bytes of an optional value.
pub open spec fn value_view(value: Option<Vec<u8>>) -> Option<Seq<u8>> {
    match value {
        Some(v) => Some(v@),
        None => None,
    }
}

/// Key and bytes of an optional entry.
pub open spec fn entry_view(entry: Option<Entry>) -> Option<(u32, Seq<u8>)> {
    match entry {
        Some((k, v)) => Some((k, v@)),
        None => None,
    }
}

/// Keys and bytes of a list of entries.
pub open spec fn entries_view(items: Seq<Entry>) -> Seq<(u32, Seq<u8>)> {
    Seq::new(items.len(), |i: int| (items[i].0, items[i].1@))
}

/// The value under `key`, if there is one.
pub open spec fn lookup(entries: Map<u32, Seq<u8>>, key: u32) -> Option<Seq<u8>> {
    if entries.contains_key(key) {
        Some(entries[key])
    } else {
        None
    }
}

/// The entry with the least key, if the map is not empty.
pub open spec fn first_entry(entries: Map<u32, Seq<u8>>) -> Option<(u32, Seq<u8>)> {
    if exists|k: u32| is_first_key(entries, k) {
        let k = choose|k: u32| is_first_key(entries, k);
        Some((k, entries[k]))
    } else {
        None
    }
}

/// Whether `key` is in the map and no key of the map is less.
pub open spec fn is_first_key(entries: Map<u32, Seq<u8>>, key: u32) -> bool {
    &&& entries.contains_key(key)
    &&& forall|other: u32| entries.contains_key(other) ==> key <= other
}

/// The map without its least key; the empty map stays empty.
pub open spec fn without_first(entries: Map<u32, Seq<u8>>) -> Map<u32, Seq<u8>> {
    match first_entry(entries) {
        Some((k, _)) => entries.remove(k),
        None => entries,
    }
}

/// Whether `listing` holds each entry of the map once, in ascending order
/// of the keys.
pub open spec fn is_listing(listing: Seq<(u32, Seq<u8>)>, entries: Map<u32, Seq<u8>>) -> bool {
    &&& listing.len() == entries.dom().len()
    &&& forall|i: int, j: int| 0 <= i < j < listing.len() ==> listing[i].0 < listing[j].0
    &&& forall|i: int|
        0 <= i < listing.len() ==> entries.contains_key(#[trigger] listing[i].0)
            && entries[listing[i].0] == listing[i].1
    &&& forall|k: u32|
        entries.contains_key(k) ==> exists|i: int|
            0 <= i < listing.len() && #[trigger] listing[i].0 == k
}

/// The map after the entries of `items` were put in, one after the other.
pub open spec fn put_all(entries: Map<u32, Seq<u8>>, items: Seq<(u32, Seq<u8>)>) -> Map<
    u32,
    Seq<u8>,
>
    decreases items.len(),
{
    if items.len() == 0 {
        entries
    } else {
        put_all(entries, items.drop_last()).insert(items.last().0, items.last().1)
    }
}

/// The entries that a list of values gets when each is keyed by its place.
pub open spec fn numbered(values: Seq<Vec<u8>>) -> Seq<(u32, Seq<u8>)> {
    Seq::new(values.len(), |i: int| (i as u32, values[i]@))
}

impl ICRBTree {
    /// The entries of this map.
    pub open spec fn entries(&self) -> Map<u32, Seq<u8>> {
        tree_entries(*self)
    }

    /// `BTreeMap::new` of `ic_stable_structures` on an empty byte vector: a
    /// map without entries.
    #[verifier::external_body]
    pub fn new() -> (r: Self)
        ensures
            tree_entries(r) == (Map::<u32, Seq<u8>>::empty()),
            tree_entries(r).dom().finite(),
    {
        ICRBTree {
            ic_rbtree: ic_stable_structures::BTreeMap::new(std::cell::RefCell::new(Vec::new())),
        }
    }

    /// `BTreeMap::init` of `ic_stable_structures` on the given bytes: the
    /// map that the bytes hold. The bytes must be ones that open as a map,
    /// such as those that `into_memory` gave; on others the B-tree code may
    /// stop the program, at once or in a later call.
    #[verifier::external_body]
    pub fn load_memory(memory: Vec<u8>) -> (r: Self)
        requires
            image_entries(memory@) is Some,
        ensures
            Some(tree_entries(r)) == image_entries(memory@),
            tree_entries(r).dom().finite(),
    {
        ICRBTree { ic_rbtree: ic_stable_structures::BTreeMap::init(std::cell::RefCell::new(memory)) }
    }

    /// `BTreeMap::insert` of `ic_stable_structures`: puts the value under the
    /// key and returns the value that was there before. The B-tree stores a
    /// value's length in four bytes, so a longer value is left out. The
    /// byte vector below the map grows as the map needs; like any vector it
    /// is bounded only by the memory of the machine.
    #[verifier::external_body]
    pub fn insert(&mut self, key: u32, value: Vec<u8>) -> (r: Option<Vec<u8>>)
        requires
            value@.len() <= u32::MAX,
        ensures
            tree_entries(*final(self)) == tree_entries(*old(self)).insert(key, value@),
            tree_entries(*final(self)).dom().finite(),
            value_view(r) == lookup(tree_entries(*old(self)), key),
    {
        self.ic_rbtree.insert(key, value)
    }

    /// `BTreeMap::get` of `ic_stable_structures`: the value under the key.
    #[verifier::external_body]
    pub fn get(&self, key: u32) -> (r: Option<Vec<u8>>)
        ensures
            value_view(r) == lookup(tree_entries(*self), key),
    {
        self.ic_rbtree.get(&key)
    }

    /// `BTreeMap::pop_first` of `ic_stable_structures`: takes out the entry
    /// with the least key and returns it; `None`, changing nothing, on an
    /// empty map.
    #[verifier::external_body]
    pub(crate) fn pop_first(&mut self) -> (r: Option<Entry>)
        ensures
            entry_view(r) == first_entry(tree_entries(*old(self))),
            tree_entries(*final(self)) == without_first(tree_entries(*old(self))),
            tree_entries(*final(self)).dom().finite(),
    {
        self.ic_rbtree.pop_first()
    }

    /// `BTreeMap::len` of `ic_stable_structures`: the number of entries.
    #[verifier::external_body]
    pub(crate) fn len(&self) -> (r: u64)
        ensures
            r == tree_entries(*self).dom().len(),
    {
        self.ic_rbtree.len()
    }

    /// `BTreeMap::iter` of `ic_stable_structures`, collected: every entry
    /// once, in ascending order of the keys.
    #[verifier::external_body]
    pub fn get_items(&self) -> (r: Vec<Entry>)
        ensures
            is_listing(entries_view(r@), tree_entries(*self)),
    {
        self.ic_rbtree.iter().collect()
    }

    /// `BTreeMap::into_memory` of `ic_stable_structures`: the byte region of
    /// the map. The claim is that the region alone gives the map back:
    /// opening these bytes gives a map with the same entries.
    #[verifier::external_body]
    pub fn into_memory(self) -> (r: Vec<u8>)
        ensures
            image_entries(r@) == Some(tree_entries(self)),
    {
        self.ic_rbtree.into_memory().into_inner()
    }

    /// Writes the map out to its bytes and opens those bytes again. The map
    /// that comes back has the entries of the one that went in.
    pub fn reload(self) -> (r: Self)
        ensures
            r.entries() == self.entries(),
            r.entries().dom().finite(),
    {
        let memory: Vec<u8> = self.into_memory();
        ICRBTree::load_memory(memory)
    }

    /// Builds a map from a list of entries, put in one after the other: of
    /// two entries with one key the later stays.
    pub fn build_from_vec(items: Vec<Entry>) -> (r: Self)
        requires
            forall|i: int| 0 <= i < items@.len() ==> (#[trigger] items@[i]).1@.len() <= u32::MAX,
        ensures
            r.entries() == put_all(Map::empty(), entries_view(items@)),
            r.entries().dom().finite(),
    {
        let mut tree: ICRBTree = ICRBTree::new();
        let mut i: usize = 0;
        assert(entries_view(items@).subrange(0, 0) =~= Seq::empty());
        while i < items.len()
            invariant
                i <= items.len(),
                forall|k: int| 0 <= k < items@.len() ==> (#[trigger] items@[k]).1@.len() <= u32::MAX,
                tree.entries() == put_all(Map::empty(), entries_view(items@).subrange(0, i as int)),
                tree.entries().dom().finite(),
            decreases items.len() - i,
        {
            let key: u32 = items[i].0;
            let value: Vec<u8> = items[i].1.clone();
            let _ = tree.insert(key, value);
            proof {
                let all = entries_view(items@);
                assert(all.subrange(0, i + 1).drop_last() =~= all.subrange(0, i as int));
                assert(all.subrange(0, i + 1).last() == all[i as int]);
            }
            i += 1;
        }
        assert(entries_view(items@).subrange(0, items@.len() as int) =~= entries_view(items@));
        tree
    }

    /// Builds a map from a list of values, each keyed by its place in the
    /// list.
    pub fn build_from_vec_u8(items: Vec<Vec<u8>>) -> (r: Self)
        requires
            items@.len() <= u32::MAX,
            forall|i: int| 0 <= i < items@.len() ==> (#[trigger] items@[i])@.len() <= u32::MAX,
        ensures
            r.entries() == put_all(Map::empty(), numbered(items@)),
            r.entries().dom().finite(),
    {
        let mut tree: ICRBTree = ICRBTree::new();
        let mut i: usize = 0;
        assert(numbered(items@).subrange(0, 0) =~= Seq::empty());
        while i < items.len()
            invariant
                i <= items.len(),
                items@.len() <= u32::MAX,
                forall|k: int| 0 <= k < items@.len() ==> (#[trigger] items@[k])@.len() <= u32::MAX,
                tree.entries() == put_all(Map::empty(), numbered(items@).subrange(0, i as int)),
                tree.entries().dom().finite(),
            decreases items.len() - i,
        {
            let value: Vec<u8> = items[i].clone();
            let _ = tree.insert(i as u32, value);
            proof {
                let all = numbered(items@);
                assert(all.subrange(0, i + 1).drop_last() =~= all.subrange(0, i as int));
                assert(all.subrange(0, i + 1).last() == all[i as int]);
            }
            i += 1;
        }
        assert(numbered(items@).subrange(0, items@.len() as int) =~= numbered(items@));
        tree
    }
}

/// Whether no two entries of the list have one key.
pub open spec fn keys_differ(items: Seq<(u32, Seq<u8>)>) -> bool {
    forall|a: int, b: int| 0 <= a < b < items.len() ==> items[a].0 != items[b].0
}

/// The map built from entries with different keys has exactly these
/// entries.
pub proof fn lemma_put_all_distinct(items: Seq<(u32, Seq<u8>)>)
    requires
        keys_differ(items),
    ensures
        put_all(Map::empty(), items).dom().finite(),
        put_all(Map::empty(), items).dom().len() == items.len(),
        forall|i: int|
            0 <= i < items.len() ==> put_all(Map::empty(), items).contains_key(
                (#[trigger] items[i]).0,
            ) && put_all(Map::empty(), items)[items[i].0] == items[i].1,
        forall|k: u32| #[trigger]
            put_all(Map::empty(), items).contains_key(k) ==> exists|i: int|
                0 <= i < items.len() && (#[trigger] items[i]).0 == k,
    decreases items.len(),
{
    let built = put_all(Map::<u32, Seq<u8>>::empty(), items);
    if items.len() == 0 {
        assert(built.dom() =~= Set::<u32>::empty());
    } else {
        let front = items.drop_last();
        let last = items.last();
        assert(keys_differ(front)) by {
            assert forall|a: int, b: int| 0 <= a < b < front.len() implies front[a].0
                != front[b].0 by {
                assert(front[a] == items[a] && front[b] == items[b]);
            }
        }
        lemma_put_all_distinct(front);
        let before = put_all(Map::<u32, Seq<u8>>::empty(), front);
        assert(built == before.insert(last.0, last.1));
        assert(!before.contains_key(last.0)) by {
            if before.contains_key(last.0) {
                let i = choose|i: int| 0 <= i < front.len() && (#[trigger] front[i]).0 == last.0;
                assert(items[i].0 == items[items.len() - 1].0);
            }
        }
        assert(built.dom() =~= before.dom().insert(last.0));
        assert forall|i: int| 0 <= i < items.len() implies built.contains_key(
            (#[trigger] items[i]).0,
        ) && built[items[i].0] == items[i].1 by {
            if i < front.len() {
                assert(front[i] == items[i]);
                assert(before.contains_key(front[i].0));
                assert(items[i].0 != items[items.len() - 1].0);
            }
        }
        assert forall|k: u32| #[trigger] built.contains_key(k) implies exists|i: int|
            0 <= i < items.len() && (#[trigger] items[i]).0 == k by {
            if k == last.0 {
                assert(items[items.len() - 1].0 == k);
            } else {
                assert(before.contains_key(k));
                let i = choose|i: int| 0 <= i < front.len() && (#[trigger] front[i]).0 == k;
                assert(items[i].0 == k);
            }
        }
    }
}

/// A map that was built from entries with different keys, written out and
/// opened again, lists exactly these entries, in ascending order of the
/// keys: what `get_items` gives after `build_from_vec`, `into_memory` and
/// `load_memory` is the list sorted by key.
pub proof fn lemma_listing_is_sorted_input(
    items: Seq<(u32, Seq<u8>)>,
    listing: Seq<(u32, Seq<u8>)>,
)
    requires
        keys_differ(items),
        is_listing(listing, put_all(Map::empty(), items)),
    ensures
        listing.len() == items.len(),
        forall|i: int, j: int| 0 <= i < j < listing.len() ==> listing[i].0 < listing[j].0,
        forall|i: int| 0 <= i < listing.len() ==> items.contains(#[trigger] listing[i]),
        forall|i: int| 0 <= i < items.len() ==> listing.contains(#[trigger] items[i]),
{
    let built = put_all(Map::<u32, Seq<u8>>::empty(), items);
    lemma_put_all_distinct(items);
    assert forall|i: int| 0 <= i < listing.len() implies items.contains(#[trigger] listing[i]) by {
        let k = listing[i].0;
        assert(built.contains_key(k));
        let x = choose|x: int| 0 <= x < items.len() && (#[trigger] items[x]).0 == k;
        assert(built[items[x].0] == items[x].1);
        assert(items[x] == listing[i]);
    }
    assert forall|i: int| 0 <= i < items.len() implies listing.contains(#[trigger] items[i]) by {
        let k = items[i].0;
        assert(built.contains_key(k));
        let x = choose|x: int| 0 <= x < listing.len() && (#[trigger] listing[x]).0 == k;
        assert(built[listing[x].0] == listing[x].1);
        assert(listing[x] == items[i]);
    }
}

} // verus!
