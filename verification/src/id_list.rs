//! Append-only lists of node ids, kept in a stable vector.

use vstd::prelude::*;

verus! {

/// A list of node ids: the stable `Vec` of `ic_stable_structures`, stored in
/// a byte vector that the list owns. What the list holds is known to the
/// proofs only through [`list_ids`], [`list_takes`] and the contracts of
/// the three methods below, none of which is proved here.
#[verifier::external_body]
pub struct IdList {
    ids: ic_stable_structures::Vec<u32, std::cell::RefCell<Vec<u8>>>,
}

/// The ids that a list holds, in the order in which they were appended.
pub uninterp spec fn list_ids(list: IdList) -> Seq<u32>;

/// Whether `Vec::push` of `ic_stable_structures` succeeds on a list that
/// holds `ids`: whether the list's region can still grow by what one more
/// item takes.
pub uninterp spec fn list_takes(ids: Seq<u32>) -> bool;

impl IdList {
    /// The ids of this list.
    pub open spec fn ids(&self) -> Seq<u32> {
        list_ids(*self)
    }

    /// `Vec::new` of `ic_stable_structures` on an empty byte vector: an
    /// empty list. It writes a header of 17 bytes, for which the empty
    /// vector grows by one page; that growth is never refused, so the call
    /// succeeds on every run.
    #[verifier::external_body]
    pub(crate) fn new() -> (r: Option<Self>)
        ensures
            r is Some,
            r matches Some(list) ==> list_ids(list) == Seq::<u32>::empty(),
    {
        match ic_stable_structures::Vec::new(std::cell::RefCell::new(Vec::new())) {
            Ok(ids) => Some(IdList { ids }),
            Err(_) => None,
        }
    }

    /// `Vec::push` of `ic_stable_structures`: appends the id and returns
    /// `true`, or returns `false` and leaves the list as it was where the
    /// region could not grow. Every id takes the same room, so whether the
    /// region can grow depends on the ids that the list holds alone.
    #[verifier::external_body]
    pub(crate) fn push(&mut self, id: u32) -> (r: bool)
        ensures
            r == list_takes(list_ids(*old(self))),
            r ==> list_ids(*final(self)) == list_ids(*old(self)).push(id),
            !r ==> list_ids(*final(self)) == list_ids(*old(self)),
    {
        self.ids.push(&id).is_ok()
    }

    /// `Vec::iter` of `ic_stable_structures`, collected: the ids in the
    /// order in which they were appended.
    #[verifier::external_body]
    pub(crate) fn to_vec(&self) -> (r: Vec<u32>)
        ensures
            r@ == list_ids(*self),
    {
        self.ids.iter().collect()
    }
}

} // verus!
