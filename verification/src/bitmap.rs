//! Bitmaps of received chunks in their serialized form: a `bitvec` bit
//! vector over bytes, least significant bit first, as `bincode` writes it.

use vstd::prelude::*;

verus! {

/// The bytes that `bincode::serialize` gives for a bitmap; `None` where it
/// reports an error.
pub uninterp spec fn encoded_bitmap(bits: Seq<bool>) -> Option<Seq<u8>>;

/// The bitmap that `bincode::deserialize` reads from bytes; `None` where it
/// reports an error.
pub uninterp spec fn decoded_bitmap(bytes: Seq<u8>) -> Option<Seq<bool>>;

/// The bytes of an optional byte vector.
pub open spec fn bytes_of(value: Option<Vec<u8>>) -> Option<Seq<u8>> {
    match value {
        Some(v) => Some(v@),
        None => None,
    }
}

/// The bits of an optional bit vector.
pub open spec fn bits_of(value: Option<Vec<bool>>) -> Option<Seq<bool>> {
    match value {
        Some(v) => Some(v@),
        None => None,
    }
}

/// `bincode::serialize` on a `bitvec` bit vector over bytes, least
/// significant bit first, that holds the given bits: the serialized bytes,
/// or `None` where the serializer reports an error. Nothing is claimed of
/// the bytes but that they depend on the bits alone.
#[verifier::external_body]
pub(crate) fn encode_bitmap(bits: &Vec<bool>) -> (r: Option<Vec<u8>>)
    ensures
        bytes_of(r) == encoded_bitmap(bits@),
{
    let bv: bitvec::vec::BitVec<u8, bitvec::order::Lsb0> = bits.iter().copied().collect();
    bincode::serialize(&bv).ok()
}

/// `bincode::deserialize` to a `bitvec` bit vector over bytes, least
/// significant bit first: the bits that the bytes hold, or `None` where the
/// deserializer reports an error. Nothing is claimed of the bits but that
/// they depend on the bytes alone.
#[verifier::external_body]
pub(crate) fn decode_bitmap(bytes: &Vec<u8>) -> (r: Option<Vec<bool>>)
    ensures
        bits_of(r) == decoded_bitmap(bytes@),
{
    match bincode::deserialize::<bitvec::vec::BitVec<u8, bitvec::order::Lsb0>>(bytes.as_slice()) {
        Ok(bv) => Some(bv.iter().by_vals().collect()),
        Err(_) => None,
    }
}

/// A bitmap of `n` bits, none of them set.
pub open spec fn no_bits(n: nat) -> Seq<bool> {
    Seq::new(n, |i: int| false)
}

/// Whether every bit of the bitmap is set.
pub open spec fn all_set(bits: Seq<bool>) -> bool {
    forall|i: int| 0 <= i < bits.len() ==> bits[i]
}

/// Whether `indices` lists the places of the bits that are not set, in
/// ascending order.
pub open spec fn lists_unset(indices: Seq<usize>, bits: Seq<bool>) -> bool {
    &&& forall|a: int, b: int| 0 <= a < b < indices.len() ==> indices[a] < indices[b]
    &&& forall|a: int|
        0 <= a < indices.len() ==> (#[trigger] indices[a]) < bits.len()
            && !bits[indices[a] as int]
    &&& forall|i: int| 0 <= i < bits.len() && !#[trigger] bits[i] ==> indices.contains(i as usize)
}

/// A bitmap of `n` bits, none of them set.
pub fn zero_bits(n: usize) -> (r: Vec<bool>)
    ensures
        r@ == no_bits(n as nat),
{
    let mut bits: Vec<bool> = Vec::new();
    let mut i: usize = 0;
    while i < n
        invariant
            i <= n,
            bits@ == no_bits(i as nat),
        decreases n - i,
    {
        bits.push(false);
        assert(bits@ =~= no_bits((i + 1) as nat));
        i += 1;
    }
    bits
}

/// Whether every bit is set.
pub fn is_complete(bits: &Vec<bool>) -> (r: bool)
    ensures
        r == all_set(bits@),
{
    let mut i: usize = 0;
    while i < bits.len()
        invariant
            i <= bits.len(),
            forall|k: int| 0 <= k < i ==> bits@[k],
        decreases bits.len() - i,
    {
        if !bits[i] {
            return false;
        }
        i += 1;
    }
    true
}

/// The places of the bits that are not set, in ascending order.
pub fn unset_indices(bits: &Vec<bool>) -> (r: Vec<usize>)
    ensures
        lists_unset(r@, bits@),
{
    let mut out: Vec<usize> = Vec::new();
    let mut i: usize = 0;
    while i < bits.len()
        invariant
            i <= bits.len(),
            forall|a: int, b: int| 0 <= a < b < out@.len() ==> out@[a] < out@[b],
            forall|a: int| 0 <= a < out@.len() ==> (#[trigger] out@[a]) < i && !bits@[out@[a] as int],
            forall|k: int| 0 <= k < i && !#[trigger] bits@[k] ==> out@.contains(k as usize),
        decreases bits.len() - i,
    {
        if !bits[i] {
            let ghost before = out@;
            out.push(i);
            proof {
                assert forall|k: int| 0 <= k < i + 1 && !#[trigger] bits@[k] implies out@.contains(
                    k as usize,
                ) by {
                    if k < i {
                        assert(before.contains(k as usize));
                        let a = choose|a: int| 0 <= a < before.len() && before[a] == k as usize;
                        assert(out@[a] == k as usize);
                    } else {
                        assert(out@[before.len() as int] == k as usize);
                    }
                }
            }
        }
        i += 1;
    }
    out
}

/// The places of the bits not set in a serialized bitmap, in ascending
/// order; `None` where the bytes hold no bitmap.
pub fn extract_false_indices_from_serialized_bitvec(bytes: &Vec<u8>) -> (r: Option<Vec<usize>>)
    ensures
        r is Some <==> decoded_bitmap(bytes@) is Some,
        r matches Some(indices) ==> decoded_bitmap(bytes@) matches Some(bits) && lists_unset(
            indices@,
            bits,
        ),
{
    match decode_bitmap(bytes) {
        Some(bits) => Some(unset_indices(&bits)),
        None => None,
    }
}

} // verus!
