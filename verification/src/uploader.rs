//! The client side of the bootstrap: cutting a segment image into chunks,
//! reading the server's bitmap from its pages, and deciding what to send.

use vstd::prelude::*;
use crate::bitmap::{
    all_set, bits_of, decode_bitmap, decoded_bitmap, is_complete, lists_unset, unset_indices,
};
use crate::loader::{chunk_in_place, spec_page, MISSING_CHUNKS_RESPONSE_SIZE};

verus! {

/// Number of chunks of `chunk_byte_size` bytes that `bytes_len` bytes take.
pub open spec fn spec_num_chunks(bytes_len: int, chunk_byte_size: int) -> int {
    (bytes_len + chunk_byte_size - 1) / chunk_byte_size
}

/// Number of chunks of `chunk_byte_size` bytes that `bytes_len` bytes take;
/// `None` for chunks of no bytes.
pub fn num_chunks(bytes_len: usize, chunk_byte_size: usize) -> (r: Option<usize>)
    ensures
        r is None <==> chunk_byte_size == 0,
        r matches Some(n) ==> n == spec_num_chunks(bytes_len as int, chunk_byte_size as int),
{
    if chunk_byte_size == 0 {
        return None;
    }
    let whole: usize = bytes_len / chunk_byte_size;
    let rest: usize = bytes_len % chunk_byte_size;
    proof {
        lemma_ceil_div(bytes_len as int, chunk_byte_size as int);
    }
    if rest == 0 {
        Some(whole)
    } else {
        Some(whole + 1)
    }
}

/// Rounding a quotient up is adding one where there is a remainder.
pub proof fn lemma_ceil_div(a: int, b: int)
    requires
        a >= 0,
        b > 0,
    ensures
        (a + b - 1) / b == (if a % b == 0 {
            a / b
        } else {
            a / b + 1
        }),
        a / b <= a,
        a % b != 0 ==> a / b < a,
{
    let q = a / b;
    let r = a % b;
    assert(a == q * b + r && 0 <= r < b) by (nonlinear_arith)
        requires
            q == a / b,
            r == a % b,
            b > 0,
    ;
    if r == 0 {
        assert((q * b + b - 1) / b == q) by (nonlinear_arith)
            requires
                b > 0,
        ;
    } else {
        assert((q * b + r + b - 1) / b == q + 1) by (nonlinear_arith)
            requires
                b > 0,
                0 < r < b,
        ;
    }
    assert(q <= a) by (nonlinear_arith)
        requires
            a == q * b + r,
            0 <= r,
            b > 0,
            a >= 0,
    ;
    if r != 0 {
        assert(q < a) by (nonlinear_arith)
            requires
                a == q * b + r,
                0 < r,
                b > 0,
                q >= 0,
        ;
    }
}

/// The chunk with index `i` of `data`: at most `size` bytes from byte
/// `i * size` on.
pub open spec fn spec_chunk(data: Seq<u8>, size: int, i: int) -> Seq<u8> {
    if i * size + size <= data.len() {
        data.subrange(i * size, i * size + size)
    } else {
        data.subrange(i * size, data.len() as int)
    }
}

/// A segment image that is read chunk by chunk.
pub struct ChunkReader {
    data: Vec<u8>,
    chunk_byte_size: usize,
}

impl ChunkReader {
    /// The bytes of the image.
    pub closed spec fn bytes(&self) -> Seq<u8> {
        self.data@
    }

    /// The size of a chunk.
    pub closed spec fn chunk_size(&self) -> usize {
        self.chunk_byte_size
    }

    /// A reader of `data` in chunks of `chunk_byte_size` bytes.
    pub fn new(data: Vec<u8>, chunk_byte_size: usize) -> (r: Self)
        ensures
            r.bytes() == data@,
            r.chunk_size() == chunk_byte_size,
    {
        ChunkReader { data, chunk_byte_size }
    }

    /// The size of the image in bytes.
    pub fn file_size(&self) -> (r: usize)
        ensures
            r == self.bytes().len(),
    {
        self.data.len()
    }

    /// The chunk with the given index. The chunk must start within the
    /// image or at its end.
    pub fn read(&self, chunk_index: usize) -> (r: Vec<u8>)
        requires
            chunk_index * self.chunk_size() <= self.bytes().len(),
        ensures
            r@ == spec_chunk(self.bytes(), self.chunk_size() as int, chunk_index as int),
            r@.len() <= self.chunk_size(),
    {
        let len: usize = self.data.len();
        let start: usize = chunk_index * self.chunk_byte_size;
        let end: usize = if len - start >= self.chunk_byte_size {
            start + self.chunk_byte_size
        } else {
            len
        };
        let mut out: Vec<u8> = Vec::new();
        let mut i: usize = start;
        while i < end
            invariant
                start <= i <= end <= self.data@.len(),
                out@ == self.data@.subrange(start as int, i as int),
            decreases end - i,
        {
            out.push(self.data[i]);
            assert(out@ =~= self.data@.subrange(start as int, i + 1));
            i += 1;
        }
        out
    }

    /// Whether chunk `chunk_index` starts within the image or at its end.
    pub fn starts_within(&self, chunk_index: usize) -> (r: bool)
        ensures
            r == (chunk_index * self.chunk_size() <= self.bytes().len()),
    {
        assert(chunk_index * self.chunk_byte_size <= usize::MAX * usize::MAX) by (nonlinear_arith)
            requires
                chunk_index <= usize::MAX,
                self.chunk_byte_size <= usize::MAX,
        ;
        (chunk_index as u128) * (self.chunk_byte_size as u128) <= self.data.len() as u128
    }
}

/// A segment in which every chunk of an image stands where its index puts
/// it begins with the image.
pub proof fn lemma_chunks_give_image(segment: Seq<u8>, data: Seq<u8>, size: int)
    requires
        size > 0,
        forall|i: int|
            0 <= i && i * size < data.len() ==> chunk_in_place(
                segment,
                size,
                i,
                #[trigger] spec_chunk(data, size, i),
            ),
    ensures
        data.len() <= segment.len(),
        segment.subrange(0, data.len() as int) == data,
{
    assert forall|x: int| 0 <= x < data.len() implies x < segment.len() && segment[x] == data[x] by {
        let i = x / size;
        let off = x % size;
        assert(x == i * size + off && 0 <= off < size && i >= 0) by (nonlinear_arith)
            requires
                i == x / size,
                off == x % size,
                size > 0,
                x >= 0,
        ;
        let chunk = spec_chunk(data, size, i);
        assert(chunk_in_place(segment, size, i, chunk));
        assert(off < chunk.len());
        assert(segment.subrange(i * size, i * size + chunk.len())[off] == chunk[off]);
    }
    if data.len() > 0 {
        let last = data.len() - 1;
        let i = last / size;
        let off = last % size;
        assert(last == i * size + off && 0 <= off < size && i >= 0) by (nonlinear_arith)
            requires
                i == last / size,
                off == last % size,
                size > 0,
                last >= 0,
        ;
        assert(chunk_in_place(segment, size, i, spec_chunk(data, size, i)));
    }
    assert(segment.subrange(0, data.len() as int) =~= data);
}

/// What an upload does after it has read the server's bitmap.
pub enum UploadLoop {
    /// Every chunk has arrived.
    Done,
    /// Chunks are missing: send those whose bit is not set.
    Continue(Vec<bool>),
}

/// Decides how an upload goes on, from the server's bitmap. `None` where the
/// bitmap has too few bits for an image of `file_size` bytes in chunks of
/// `chunk_byte_size` bytes.
pub fn upload_round(uploaded_chunks: Vec<bool>, file_size: usize, chunk_byte_size: usize) -> (r:
    Option<UploadLoop>)
    ensures
        r is None <==> file_size > uploaded_chunks@.len() * chunk_byte_size,
        r matches Some(UploadLoop::Done) ==> all_set(uploaded_chunks@),
        r matches Some(UploadLoop::Continue(bits)) ==> !all_set(uploaded_chunks@) && bits@
            == uploaded_chunks@,
{
    let bits_len: usize = uploaded_chunks.len();
    assert(bits_len * chunk_byte_size <= usize::MAX * usize::MAX) by (nonlinear_arith)
        requires
            bits_len <= usize::MAX,
            chunk_byte_size <= usize::MAX,
    ;
    let room: u128 = (bits_len as u128) * (chunk_byte_size as u128);
    if file_size as u128 > room {
        return None;
    }
    if is_complete(&uploaded_chunks) {
        Some(UploadLoop::Done)
    } else {
        Some(UploadLoop::Continue(uploaded_chunks))
    }
}

/// One chunk to send: its index and its bytes.
pub type ChunkToSend = (usize, Vec<u8>);

/// The chunks to send in one round: for each bit that is not set and whose
/// chunk starts within the image or at its end, the index and the chunk, in
/// ascending order of the indices.
pub fn plan_uploads(reader: &ChunkReader, uploaded_chunks: &Vec<bool>) -> (r: Vec<ChunkToSend>)
    ensures
        forall|a: int, b: int| 0 <= a < b < r@.len() ==> r@[a].0 < r@[b].0,
        forall|a: int|
            0 <= a < r@.len() ==> {
                &&& (#[trigger] r@[a]).0 < uploaded_chunks@.len()
                &&& !uploaded_chunks@[r@[a].0 as int]
                &&& r@[a].0 * reader.chunk_size() <= reader.bytes().len()
                &&& r@[a].1@ == spec_chunk(
                    reader.bytes(),
                    reader.chunk_size() as int,
                    r@[a].0 as int,
                )
            },
        forall|i: int|
            0 <= i < uploaded_chunks@.len() && !#[trigger] uploaded_chunks@[i] && i
                * reader.chunk_size() <= reader.bytes().len() ==> exists|a: int|
                0 <= a < r@.len() && r@[a].0 == i,
{
    let missing: Vec<usize> = unset_indices(uploaded_chunks);
    let bits_len: usize = uploaded_chunks.len();
    let mut out: Vec<ChunkToSend> = Vec::new();
    let mut k: usize = 0;
    while k < missing.len()
        invariant
            k <= missing.len(),
            lists_unset(missing@, uploaded_chunks@),
            forall|a: int, b: int| 0 <= a < b < out@.len() ==> out@[a].0 < out@[b].0,
            forall|a: int| 0 <= a < out@.len() && k > 0 ==> (#[trigger] out@[a]).0 <= missing@[k - 1],
            forall|a: int|
                0 <= a < out@.len() ==> {
                    &&& (#[trigger] out@[a]).0 < uploaded_chunks@.len()
                    &&& !uploaded_chunks@[out@[a].0 as int]
                    &&& out@[a].0 * reader.chunk_size() <= reader.bytes().len()
                    &&& out@[a].1@ == spec_chunk(
                        reader.bytes(),
                        reader.chunk_size() as int,
                        out@[a].0 as int,
                    )
                },
            k == 0 ==> out@.len() == 0,
            forall|x: int|
                0 <= x < k && (#[trigger] missing@[x]) * reader.chunk_size()
                    <= reader.bytes().len() ==> exists|a: int|
                    0 <= a < out@.len() && out@[a].0 == missing@[x],
        decreases missing.len() - k,
    {
        let index: usize = missing[k];
        if reader.starts_within(index) {
            let chunk: Vec<u8> = reader.read(index);
            let ghost before = out@;
            out.push((index, chunk));
            proof {
                assert forall|x: int|
                    0 <= x < k + 1 && (#[trigger] missing@[x]) * reader.chunk_size()
                        <= reader.bytes().len() implies exists|a: int|
                    0 <= a < out@.len() && out@[a].0 == missing@[x] by {
                    if x < k {
                        let a = choose|a: int| 0 <= a < before.len() && before[a].0 == missing@[x];
                        assert(out@[a].0 == missing@[x]);
                    } else {
                        assert(out@[before.len() as int].0 == missing@[x]);
                    }
                }
                assert forall|a: int, b: int| 0 <= a < b < out@.len() implies out@[a].0
                    < out@[b].0 by {
                    if b == before.len() {
                        assert(out@[a] == before[a]);
                        if k > 0 {
                            assert(before[a].0 <= missing@[k - 1]);
                            assert(missing@[k - 1] < missing@[k as int]);
                        }
                    }
                }
            }
        } else {
            proof {
                assert forall|a: int| 0 <= a < out@.len() implies (#[trigger] out@[a]).0
                    <= missing@[k as int] by {
                    if k > 0 {
                        assert(out@[a].0 <= missing@[k - 1]);
                        assert(missing@[k - 1] < missing@[k as int]);
                    }
                }
            }
        }
        k += 1;
    }
    proof {
        assert forall|i: int|
            0 <= i < uploaded_chunks@.len() && !#[trigger] uploaded_chunks@[i] && i
                * reader.chunk_size() <= reader.bytes().len() implies exists|a: int|
            0 <= a < out@.len() && out@[a].0 == i by {
            assert(i < bits_len);
            assert(missing@.contains(i as usize));
            let x = choose|x: int| 0 <= x < missing@.len() && missing@[x] == i as usize;
            assert(missing@[x] == i);
            assert(missing@[x] * reader.chunk_size() <= reader.bytes().len());
        }
    }
    out
}

/// The pages of a list joined in order.
pub open spec fn joined(pages: Seq<Vec<u8>>) -> Seq<u8>
    decreases pages.len(),
{
    if pages.len() == 0 {
        Seq::empty()
    } else {
        joined(pages.drop_last()) + pages.last()@
    }
}

/// Joins the pages in order.
pub fn join_pages(pages: &Vec<Vec<u8>>) -> (r: Vec<u8>)
    ensures
        r@ == joined(pages@),
{
    let mut data: Vec<u8> = Vec::new();
    let mut i: usize = 0;
    assert(pages@.subrange(0, 0) =~= Seq::<Vec<u8>>::empty());
    while i < pages.len()
        invariant
            i <= pages.len(),
            data@ == joined(pages@.subrange(0, i as int)),
        decreases pages.len() - i,
    {
        let mut page: Vec<u8> = pages[i].clone();
        data.append(&mut page);
        proof {
            assert(pages@.subrange(0, i + 1).drop_last() =~= pages@.subrange(0, i as int));
            assert(pages@.subrange(0, i + 1).last() == pages@[i as int]);
        }
        i += 1;
    }
    assert(pages@.subrange(0, pages@.len() as int) =~= pages@);
    data
}

/// The server's bitmap from the pages in which it was fetched; `None` where
/// the joined pages hold no bitmap.
pub fn get_missing_chunks(pages: &Vec<Vec<u8>>) -> (r: Option<Vec<bool>>)
    ensures
        bits_of(r) == decoded_bitmap(joined(pages@)),
{
    let data: Vec<u8> = join_pages(pages);
    decode_bitmap(&data)
}

/// The pages of a byte string, fetched in order up to the first that is
/// past the end, join to the byte string.
pub proof fn lemma_pages_join(bytes: Seq<u8>, pages: Seq<Vec<u8>>)
    requires
        forall|i: int| 0 <= i < pages.len() ==> spec_page(bytes, i) == Some((#[trigger] pages[i])@),
        spec_page(bytes, pages.len() as int) is None,
    ensures
        joined(pages) == bytes,
{
    lemma_pages_prefix(bytes, pages, pages.len());
    let w = MISSING_CHUNKS_RESPONSE_SIZE as int;
    assert(w * pages.len() >= bytes.len());
    if pages.len() > 0 {
        assert(spec_page(bytes, pages.len() - 1) is Some);
        assert(pages.subrange(0, pages.len() as int) =~= pages);
    } else {
        assert(bytes =~= Seq::<u8>::empty());
    }
}

/// The first `n` pages of a byte string join to its first `n` times 2 MiB
/// bytes, or to all of it where it is shorter.
pub proof fn lemma_pages_prefix(bytes: Seq<u8>, pages: Seq<Vec<u8>>, n: nat)
    requires
        n <= pages.len(),
        forall|i: int| 0 <= i < pages.len() ==> spec_page(bytes, i) == Some((#[trigger] pages[i])@),
    ensures
        joined(pages.subrange(0, n as int)) == bytes.subrange(
            0,
            if MISSING_CHUNKS_RESPONSE_SIZE * n <= bytes.len() {
                (MISSING_CHUNKS_RESPONSE_SIZE * n) as int
            } else {
                bytes.len() as int
            },
        ),
    decreases n,
{
    let w = MISSING_CHUNKS_RESPONSE_SIZE as int;
    if n == 0 {
        assert(pages.subrange(0, 0) =~= Seq::<Vec<u8>>::empty());
        assert(bytes.subrange(0, 0) =~= Seq::<u8>::empty());
    } else {
        let m = (n - 1) as nat;
        lemma_pages_prefix(bytes, pages, m);
        let front = pages.subrange(0, n as int);
        assert(front.drop_last() =~= pages.subrange(0, m as int));
        assert(front.last() == pages[m as int]);
        assert(spec_page(bytes, m as int) == Some(pages[m as int]@));
        assert(w * m < bytes.len());
        let end = if w * n <= bytes.len() {
            w * n
        } else {
            bytes.len() as int
        };
        assert(bytes.subrange(0, w * m) + bytes.subrange(w * m, end) =~= bytes.subrange(0, end));
    }
}

/// What a set-up does first, from the server's status code.
#[derive(Clone, Copy, Debug, PartialEq, Eq, Structural)]
pub enum SetupAction {
    /// Status 0: start loading, then upload.
    Initialize,
    /// Status 1: loading has started, go on with the upload.
    SkipInitialize,
}

/// What a set-up does first; `None` for a server that is running already
/// and for any status code that is not known.
pub fn setup_action(status_code: u8) -> (r: Option<SetupAction>)
    ensures
        r == (if status_code == 0 {
            Some(SetupAction::Initialize)
        } else if status_code == 1 {
            Some(SetupAction::SkipInitialize)
        } else {
            None
        }),
{
    if status_code == 0 {
        Some(SetupAction::Initialize)
    } else if status_code == 1 {
        Some(SetupAction::SkipInitialize)
    } else {
        None
    }
}

} // verus!
