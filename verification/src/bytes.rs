//! Little-endian encodings of 32-bit words and of lists of them.

use vstd::prelude::*;
use vstd::bytes::*;
use vstd::slice::*;

verus! {

/// The bytes of a list of words: each word as four little-endian bytes, in
/// order.
pub open spec fn words_bytes(ws: Seq<u32>) -> Seq<u8>
    decreases ws.len(),
{
    if ws.len() == 0 {
        Seq::empty()
    } else {
        words_bytes(ws.drop_last()) + spec_u32_to_le_bytes(ws.last())
    }
}

/// The word encoded by the four bytes of `bytes` that start at `off`.
pub open spec fn word_at(bytes: Seq<u8>, off: int) -> u32 {
    spec_u32_from_le_bytes(bytes.subrange(off, off + 4))
}

/// The `n` words encoded by the `4 * n` bytes of `bytes` that start at `off`.
pub open spec fn words_at(bytes: Seq<u8>, off: int, n: nat) -> Seq<u32> {
    Seq::new(n, |k: int| word_at(bytes, off + 4 * k))
}

/// A list of `n` words takes `4 * n` bytes.
pub proof fn lemma_words_bytes_len(ws: Seq<u32>)
    ensures
        words_bytes(ws).len() == 4 * ws.len(),
    decreases ws.len(),
{
    lemma_auto_spec_u32_to_from_le_bytes();
    if ws.len() > 0 {
        lemma_words_bytes_len(ws.drop_last());
    }
}

/// The `k`-th group of four bytes of an encoded list encodes its `k`-th word.
pub proof fn lemma_words_bytes_at(ws: Seq<u32>, k: int)
    requires
        0 <= k < ws.len(),
    ensures
        words_bytes(ws).len() == 4 * ws.len(),
        words_bytes(ws).subrange(4 * k, 4 * k + 4) == spec_u32_to_le_bytes(ws[k]),
        word_at(words_bytes(ws), 4 * k) == ws[k],
    decreases ws.len(),
{
    lemma_auto_spec_u32_to_from_le_bytes();
    lemma_words_bytes_len(ws);
    lemma_words_bytes_len(ws.drop_last());
    let head = words_bytes(ws.drop_last());
    let tail = spec_u32_to_le_bytes(ws.last());
    assert(words_bytes(ws) == head + tail);
    if k == ws.len() - 1 {
        assert((head + tail).subrange(4 * k, 4 * k + 4) =~= tail);
    } else {
        lemma_words_bytes_at(ws.drop_last(), k);
        assert((head + tail).subrange(4 * k, 4 * k + 4) =~= head.subrange(4 * k, 4 * k + 4));
    }
}

/// Decoding what was encoded gives the list back, wherever the encoding
/// stands in a longer byte string.
pub proof fn lemma_words_at_of_words_bytes(bytes: Seq<u8>, off: int, ws: Seq<u32>)
    requires
        0 <= off,
        off + 4 * ws.len() <= bytes.len(),
        bytes.subrange(off, off + 4 * ws.len()) == words_bytes(ws),
    ensures
        words_at(bytes, off, ws.len()) == ws,
{
    let decoded = words_at(bytes, off, ws.len());
    assert forall|k: int| 0 <= k < ws.len() implies #[trigger] decoded[k] == ws[k] by {
        lemma_words_bytes_at(ws, k);
        assert(bytes.subrange(off + 4 * k, off + 4 * k + 4) =~= bytes.subrange(
            off,
            off + 4 * ws.len(),
        ).subrange(4 * k, 4 * k + 4));
    }
    assert(words_at(bytes, off, ws.len()) =~= ws);
}

/// Encoding what was decoded from a byte string of `4 * n` bytes gives the
/// byte string back.
pub proof fn lemma_words_bytes_of_words_at(bytes: Seq<u8>, n: nat)
    requires
        bytes.len() == 4 * n,
    ensures
        words_bytes(words_at(bytes, 0, n)) == bytes,
    decreases n,
{
    lemma_auto_spec_u32_to_from_le_bytes();
    let ws = words_at(bytes, 0, n);
    if n == 0 {
        assert(bytes =~= Seq::<u8>::empty());
    } else {
        let m = (n - 1) as nat;
        let front = bytes.subrange(0, (4 * m) as int);
        lemma_words_bytes_of_words_at(front, m);
        let shorter = words_at(front, 0, m);
        assert forall|k: int| 0 <= k < m implies #[trigger] shorter[k] == ws[k] by {
            assert(front.subrange(4 * k, 4 * k + 4) =~= bytes.subrange(4 * k, 4 * k + 4));
        }
        assert(ws.drop_last() =~= shorter);
        let last4 = bytes.subrange((4 * m) as int, (4 * m + 4) as int);
        assert(ws.last() == spec_u32_from_le_bytes(last4));
        assert(spec_u32_to_le_bytes(ws.last()) == last4);
        assert(front + last4 =~= bytes);
    }
}

/// Appends the encoding of `ws` to `out`.
pub fn append_words(out: &mut Vec<u8>, ws: &Vec<u32>)
    ensures
        final(out)@ == old(out)@ + words_bytes(ws@),
{
    let mut i: usize = 0;
    assert(ws@.subrange(0, 0) =~= Seq::<u32>::empty());
    assert(out@ =~= old(out)@ + words_bytes(ws@.subrange(0, 0)));
    while i < ws.len()
        invariant
            i <= ws.len(),
            out@ == old(out)@ + words_bytes(ws@.subrange(0, i as int)),
        decreases ws.len() - i,
    {
        let four: Vec<u8> = u32_to_le_bytes(ws[i]);
        let ghost before = out@;
        out.push(four[0]);
        out.push(four[1]);
        out.push(four[2]);
        out.push(four[3]);
        proof {
            let done = ws@.subrange(0, i as int);
            let next = ws@.subrange(0, i + 1);
            assert(next.drop_last() =~= done);
            assert(next.last() == ws@[i as int]);
            assert(out@ =~= before + four@);
            assert(out@ =~= old(out)@ + words_bytes(next));
        }
        i += 1;
    }
    assert(ws@.subrange(0, ws.len() as int) =~= ws@);
}

/// Decodes the `n` words that start at byte `off` of `bytes`.
pub fn read_words(bytes: &[u8], off: usize, n: usize) -> (r: Vec<u32>)
    requires
        off + 4 * n <= bytes@.len(),
    ensures
        r@ == words_at(bytes@, off as int, n as nat),
{
    let mut out: Vec<u32> = Vec::new();
    let total: usize = bytes.len();
    let mut k: usize = 0;
    while k < n
        invariant
            k <= n,
            total == bytes@.len(),
            off + 4 * n <= total,
            out@.len() == k,
            forall|j: int| 0 <= j < k ==> #[trigger] out@[j] == word_at(bytes@, off + 4 * j),
        decreases n - k,
    {
        let start: usize = off + 4 * k;
        let word: u32 = u32_from_le_bytes(slice_subrange(bytes, start, start + 4));
        out.push(word);
        k += 1;
    }
    assert(out@ =~= words_at(bytes@, off as int, n as nat));
    out
}

/// The encoding of a list of ids.
pub fn encode_ids(ids: &Vec<u32>) -> (r: Vec<u8>)
    ensures
        r@ == words_bytes(ids@),
{
    let mut out: Vec<u8> = Vec::new();
    append_words(&mut out, ids);
    assert(Seq::<u8>::empty() + words_bytes(ids@) =~= words_bytes(ids@));
    out
}

/// The list of ids that a byte string encodes, if its length is a multiple
/// of four.
pub open spec fn spec_decode_ids(bytes: Seq<u8>) -> Option<Seq<u32>> {
    if bytes.len() % 4 == 0 {
        Some(words_at(bytes, 0, (bytes.len() / 4) as nat))
    } else {
        None
    }
}

/// Decodes a list of ids; `None` where the length is no multiple of four.
pub fn decode_ids(bytes: &Vec<u8>) -> (r: Option<Vec<u32>>)
    ensures
        r is Some <==> spec_decode_ids(bytes@) is Some,
        r matches Some(ids) ==> spec_decode_ids(bytes@) == Some(ids@),
{
    let len: usize = bytes.len();
    if len % 4 != 0 {
        return None;
    }
    let n: usize = len / 4;
    Some(read_words(bytes.as_slice(), 0, n))
}

/// Decoding an encoded list of ids gives the list back.
pub proof fn lemma_decode_encode_ids(ids: Seq<u32>)
    ensures
        spec_decode_ids(words_bytes(ids)) == Some(ids),
{
    lemma_words_bytes_len(ids);
    let bytes = words_bytes(ids);
    assert(bytes.subrange(0, (4 * ids.len()) as int) =~= bytes);
    lemma_words_at_of_words_bytes(bytes, 0, ids);
    assert(bytes.len() / 4 == ids.len());
}

} // verus!
