//! Fixed-stride records of `(vector, edges)` laid out in one segment, behind
//! a header that fixes the layout.
//!
//! All numbers are little-endian. The header stands at offset 0: the node
//! count, the vector dimension `D`, the maximum out-degree `K` and the entry
//! node, 32 bits each. Record `i` stands at offset `16 + i * S` with the
//! stride `S = 2 + 4 * D + 4 * K`: the number of edges in 16 bits, the `D`
//! components of the vector and `K` edge slots, 32 bits each, of which the
//! unused ones are zero.
//!
//! A vector is carried as the bit patterns of its components, one 32-bit
//! word each, so that what is read is bit-identical to what was written.

use vstd::prelude::*;
use vstd::bytes::*;
use vstd::slice::*;
use crate::bytes::{
    append_words, lemma_words_at_of_words_bytes, lemma_words_bytes_len,
    lemma_words_bytes_of_words_at, read_words, words_at, words_bytes,
};
use crate::segment::{overlay, pages_for, zeros, ICMemory};

verus! {

/// Length of the header at the start of the segment: node count, vector
/// dimension, maximum out-degree and entry node, four bytes each.
pub const HEADER_BYTES: u64 = 16;

/// Why a node could not be read or written.
#[derive(Clone, Copy, Debug, PartialEq, Eq, Structural)]
pub enum NodeStoreError {
    /// The record, or the header, lies beyond the end of the segment.
    OutOfRange,
    /// The record claims more edges than the layout has room for.
    Corrupt,
    /// The vector does not have the dimension that the layout fixes.
    WrongDimension,
    /// More edges than the maximum out-degree.
    TooManyEdges,
    /// The segment cannot grow far enough to hold the record.
    GrowFailed,
}

/// The bytes of a record: the edge count in two bytes, the vector, the
/// edges, and zero bytes in the edge slots that are not used.
pub open spec fn record_bytes(vector: Seq<u32>, edges: Seq<u32>, degree: int) -> Seq<u8> {
    spec_u16_to_le_bytes(edges.len() as u16) + words_bytes(vector) + words_bytes(edges) + zeros(
        4 * (degree - edges.len()),
    )
}

/// The edge count claimed by the record at `off`.
pub open spec fn record_edge_count(bytes: Seq<u8>, off: int) -> int {
    spec_u16_from_le_bytes(bytes.subrange(off, off + 2)) as int
}

/// The vector of the record at `off`.
pub open spec fn record_vector(bytes: Seq<u8>, off: int, dim: nat) -> Seq<u32> {
    words_at(bytes, off + 2, dim)
}

/// The edges of the record at `off`.
pub open spec fn record_edges(bytes: Seq<u8>, off: int, dim: nat) -> Seq<u32> {
    words_at(bytes, off + 2 + 4 * dim, record_edge_count(bytes, off) as nat)
}

/// What the record at `off` reads as: its vector and edges, unless it claims
/// more edges than there are slots.
pub open spec fn record_read(bytes: Seq<u8>, off: int, dim: nat, degree: nat) -> Result<
    (Seq<u32>, Seq<u32>),
    NodeStoreError,
> {
    if record_edge_count(bytes, off) > degree {
        Err(NodeStoreError::Corrupt)
    } else {
        Ok((record_vector(bytes, off, dim), record_edges(bytes, off, dim)))
    }
}

/// A successful read of `(vector, edges)`.
pub open spec fn read_ok(vector: Seq<u32>, edges: Seq<u32>) -> Result<
    (Seq<u32>, Seq<u32>),
    NodeStoreError,
> {
    Ok((vector, edges))
}

/// What a read returned, as plain values.
pub open spec fn read_view(r: Result<(Vec<u32>, Vec<u32>), NodeStoreError>) -> Result<
    (Seq<u32>, Seq<u32>),
    NodeStoreError,
> {
    match r {
        Ok((v, e)) => Ok((v@, e@)),
        Err(err) => Err(err),
    }
}

/// Two byte strings that agree on a range decode to the same words there.
pub proof fn lemma_words_at_agree(a: Seq<u8>, b: Seq<u8>, off: int, n: nat)
    requires
        0 <= off,
        off + 4 * n <= a.len(),
        off + 4 * n <= b.len(),
        forall|x: int| off <= x < off + 4 * n ==> a[x] == b[x],
    ensures
        words_at(a, off, n) == words_at(b, off, n),
{
    let wa = words_at(a, off, n);
    let wb = words_at(b, off, n);
    assert forall|k: int| 0 <= k < n implies #[trigger] wa[k] == wb[k] by {
        assert(a.subrange(off + 4 * k, off + 4 * k + 4) =~= b.subrange(off + 4 * k, off + 4 * k + 4));
    }
    assert(wa =~= wb);
}

/// Two byte strings that agree on a record read the same there.
pub proof fn lemma_record_read_agree(a: Seq<u8>, b: Seq<u8>, off: int, dim: nat, degree: nat)
    requires
        0 <= off,
        off + 2 + 4 * dim + 4 * degree <= a.len(),
        off + 2 + 4 * dim + 4 * degree <= b.len(),
        forall|x: int| off <= x < off + 2 + 4 * dim + 4 * degree ==> a[x] == b[x],
    ensures
        record_read(a, off, dim, degree) == record_read(b, off, dim, degree),
{
    assert(a.subrange(off, off + 2) =~= b.subrange(off, off + 2));
    lemma_words_at_agree(a, b, off + 2, dim);
    let n = record_edge_count(a, off);
    if n <= degree {
        lemma_words_at_agree(a, b, off + 2 + 4 * dim, n as nat);
    }
}

/// A record reads as what its bytes encode.
pub proof fn lemma_record_read_written(
    bytes: Seq<u8>,
    off: int,
    vector: Seq<u32>,
    edges: Seq<u32>,
    degree: nat,
)
    requires
        0 <= off,
        edges.len() <= degree,
        edges.len() <= 0xffff,
        off + 2 + 4 * vector.len() + 4 * degree <= bytes.len(),
        bytes.subrange(off, off + 2 + 4 * vector.len() + 4 * degree) == record_bytes(
            vector,
            edges,
            degree as int,
        ),
    ensures
        record_bytes(vector, edges, degree as int).len() == 2 + 4 * vector.len() + 4 * degree,
        record_read(bytes, off, vector.len(), degree) == read_ok(vector, edges),
{
    lemma_auto_spec_u16_to_from_le_bytes();
    lemma_words_bytes_len(vector);
    lemma_words_bytes_len(edges);
    let dim = vector.len() as int;
    let n_edges = edges.len() as int;
    let count = edges.len() as u16;
    let rec = record_bytes(vector, edges, degree as int);
    let stride = 2 + 4 * dim + 4 * degree;
    assert(rec.len() == stride);
    assert forall|x: int| 0 <= x < stride implies bytes[off + x] == rec[x] by {
        assert(bytes.subrange(off, off + stride)[x] == bytes[off + x]);
    }
    let head = spec_u16_to_le_bytes(count);
    let vec_part = words_bytes(vector);
    let edge_part = words_bytes(edges);
    assert(head.len() == 2);
    assert(rec.subrange(0, 2) =~= head);
    assert(rec.subrange(2, 2 + 4 * dim) =~= vec_part);
    assert(rec.subrange(2 + 4 * dim, 2 + 4 * dim + 4 * n_edges) =~= edge_part);
    assert(bytes.subrange(off, off + 2) =~= rec.subrange(0, 2));
    assert(record_edge_count(bytes, off) == edges.len());
    assert(bytes.subrange(off + 2, off + 2 + 4 * dim) =~= rec.subrange(2, 2 + 4 * dim));
    lemma_words_at_of_words_bytes(bytes, off + 2, vector);
    assert(bytes.subrange(off + 2 + 4 * dim, off + 2 + 4 * dim + 4 * n_edges) =~= rec.subrange(
        2 + 4 * dim,
        2 + 4 * dim + 4 * n_edges,
    ));
    lemma_words_at_of_words_bytes(bytes, off + 2 + 4 * dim, edges);
}

/// Records with different numbers do not overlap.
pub proof fn lemma_records_apart(i: int, j: int, stride: int)
    requires
        0 <= i,
        0 <= j,
        i != j,
        0 <= stride,
    ensures
        16 + j * stride + stride <= 16 + i * stride || 16 + i * stride + stride <= 16 + j * stride,
{
    if j < i {
        assert((j + 1) * stride <= i * stride) by (nonlinear_arith)
            requires
                j + 1 <= i,
                0 <= stride,
        ;
        assert((j + 1) * stride == j * stride + stride) by (nonlinear_arith);
    } else {
        assert((i + 1) * stride <= j * stride) by (nonlinear_arith)
            requires
                i + 1 <= j,
                0 <= stride,
        ;
        assert((i + 1) * stride == i * stride + stride) by (nonlinear_arith);
    }
}

/// A node store: header and records in a segment.
pub struct NodeStore {
    storage: ICMemory,
    num_vectors: u32,
    vector_dim: u32,
    edge_degrees: u32,
    start_id: u32,
}

impl NodeStore {
    /// The bytes of the segment below the store.
    pub closed spec fn bytes(&self) -> Seq<u8> {
        self.storage@
    }

    /// Node count as the header has it.
    pub closed spec fn count(&self) -> u32 {
        self.num_vectors
    }

    /// Number of components of every vector.
    pub closed spec fn dim(&self) -> u32 {
        self.vector_dim
    }

    /// Maximum number of out-edges of every node.
    pub closed spec fn degree(&self) -> u32 {
        self.edge_degrees
    }

    /// The entry node as the header has it.
    pub closed spec fn entry(&self) -> u32 {
        self.start_id
    }

    /// The header holds the four layout fields, and the segment has room for it.
    pub open spec fn wf(&self) -> bool {
        &&& self.bytes().len() >= 16
        &&& self.bytes().subrange(0, 16) == words_bytes(
            seq![self.count(), self.dim(), self.degree(), self.entry()],
        )
    }

    /// Length of one record in bytes.
    pub open spec fn stride(&self) -> int {
        2 + 4 * self.dim() + 4 * self.degree()
    }

    /// Offset of record `i` in the segment.
    pub open spec fn node_offset(&self, i: int) -> int {
        16 + i * self.stride()
    }

    /// Whether record `i` lies within the segment.
    pub open spec fn holds(&self, i: int) -> bool {
        0 <= i && self.node_offset(i) + self.stride() <= self.bytes().len()
    }

    /// The edge count that record `i` claims.
    pub open spec fn edge_count(&self, i: int) -> int {
        record_edge_count(self.bytes(), self.node_offset(i))
    }

    /// The vector of record `i`.
    pub open spec fn vector(&self, i: int) -> Seq<u32> {
        record_vector(self.bytes(), self.node_offset(i), self.dim() as nat)
    }

    /// The edges of record `i`.
    pub open spec fn edges(&self, i: int) -> Seq<u32> {
        record_edges(self.bytes(), self.node_offset(i), self.dim() as nat)
    }

    /// What reading node `i` gives.
    pub open spec fn spec_read(&self, i: int) -> Result<(Seq<u32>, Seq<u32>), NodeStoreError> {
        if !self.holds(i) {
            Err(NodeStoreError::OutOfRange)
        } else {
            record_read(self.bytes(), self.node_offset(i), self.dim() as nat, self.degree() as nat)
        }
    }

    /// Number of bytes by which the segment falls short of holding record `i`.
    pub open spec fn shortfall(&self, i: int) -> int {
        if self.holds(i) {
            0
        } else {
            self.node_offset(i) + self.stride() - self.bytes().len()
        }
    }

    /// Whether the segment cannot grow far enough to hold record `i`.
    pub open spec fn cannot_hold(&self, i: int) -> bool {
        &&& !self.holds(i)
        &&& (pages_for(self.bytes().len() as int) + pages_for(self.shortfall(i))) * 65536
            > usize::MAX
    }

    /// Why writing `(vector, edges)` as node `i` fails, if it does. A vector
    /// of the wrong dimension is reported first, then too many edges (more
    /// than the maximum out-degree, or than the two-byte count can say),
    /// then a segment that cannot grow.
    pub open spec fn spec_write_error(&self, i: int, vector: Seq<u32>, edges: Seq<u32>) -> Option<
        NodeStoreError,
    > {
        if vector.len() != self.dim() {
            Some(NodeStoreError::WrongDimension)
        } else if edges.len() > self.degree() || edges.len() > 0xffff {
            Some(NodeStoreError::TooManyEdges)
        } else if self.cannot_hold(i) {
            Some(NodeStoreError::GrowFailed)
        } else {
            None
        }
    }

    /// Node count as the header has it.
    pub fn num_vectors(&self) -> (r: u32)
        ensures
            r == self.count(),
    {
        self.num_vectors
    }

    /// Number of components of every vector.
    pub fn vector_dim(&self) -> (r: u32)
        ensures
            r == self.dim(),
    {
        self.vector_dim
    }

    /// Maximum number of out-edges of every node.
    pub fn max_edge_degrees(&self) -> (r: u32)
        ensures
            r == self.degree(),
    {
        self.edge_degrees
    }

    /// The entry node as the header has it.
    pub fn start_id(&self) -> (r: u32)
        ensures
            r == self.entry(),
    {
        self.start_id
    }

    /// Length of the segment below the store, in bytes.
    pub fn byte_len(&self) -> (r: usize)
        ensures
            r == self.bytes().len(),
    {
        self.storage.byte_len()
    }

    /// Gives the segment back.
    pub fn into_storage(self) -> (r: ICMemory)
        ensures
            r@ == self.bytes(),
    {
        self.storage
    }

    /// Lays a new store over a segment: writes a header with the given node
    /// count, dimension and maximum out-degree and with entry node 0. A
    /// segment too short for the header is grown by one page first.
    pub fn new(num_vectors: u32, vector_dim: u32, edge_degrees: u32, storage: ICMemory) -> (r: Self)
        ensures
            r.wf(),
            r.count() == num_vectors,
            r.dim() == vector_dim,
            r.degree() == edge_degrees,
            r.entry() == 0,
            storage@.len() >= 16 ==> r.bytes().len() == storage@.len(),
            storage@.len() < 16 ==> r.bytes().len() == storage@.len() + 65536,
            forall|x: int| 16 <= x < storage@.len() ==> r.bytes()[x] == storage@[x],
            forall|x: int| 16 <= x < r.bytes().len() && storage@.len() <= x ==> r.bytes()[x] == 0,
    {
        let mut storage = storage;
        if storage.byte_len() < 16 {
            let _ = storage.grow(1);
        }
        let ghost grown = storage@;
        let mut fields: Vec<u32> = Vec::new();
        fields.push(num_vectors);
        fields.push(vector_dim);
        fields.push(edge_degrees);
        fields.push(0);
        let mut header: Vec<u8> = Vec::new();
        append_words(&mut header, &fields);
        proof {
            lemma_words_bytes_len(fields@);
            assert(header@ =~= words_bytes(fields@));
        }
        storage.write(0, header.as_slice());
        let store = NodeStore { storage, num_vectors, vector_dim, edge_degrees, start_id: 0 };
        proof {
            assert(fields@ =~= seq![num_vectors, vector_dim, edge_degrees, 0u32]);
            assert(store.bytes().subrange(0, 16) =~= header@);
        }
        store
    }

    /// Makes `id` the entry node, in the header too.
    pub fn set_start_id(&mut self, id: u32)
        requires
            old(self).wf(),
        ensures
            final(self).wf(),
            final(self).count() == old(self).count(),
            final(self).dim() == old(self).dim(),
            final(self).degree() == old(self).degree(),
            final(self).entry() == id,
            final(self).bytes().len() == old(self).bytes().len(),
            forall|x: int|
                16 <= x < old(self).bytes().len() ==> final(self).bytes()[x] == old(self).bytes()[x],
    {
        let mut fields: Vec<u32> = Vec::new();
        fields.push(self.num_vectors);
        fields.push(self.vector_dim);
        fields.push(self.edge_degrees);
        fields.push(id);
        let mut header: Vec<u8> = Vec::new();
        append_words(&mut header, &fields);
        proof {
            lemma_words_bytes_len(fields@);
            assert(header@ =~= words_bytes(fields@));
        }
        self.storage.write(0, header.as_slice());
        self.start_id = id;
        proof {
            assert(fields@ =~= seq![self.count(), self.dim(), self.degree(), id]);
            assert(self.bytes().subrange(0, 16) =~= header@);
        }
    }

    /// Reads node `i`: its vector and its edges.
    pub fn read_node(&self, i: u32) -> (r: Result<(Vec<u32>, Vec<u32>), NodeStoreError>)
        ensures
            read_view(r) == self.spec_read(i as int),
    {
        let len: u128 = self.storage.byte_len() as u128;
        let dim: u128 = self.vector_dim as u128;
        let deg: u128 = self.edge_degrees as u128;
        let stride: u128 = 2 + 4 * dim + 4 * deg;
        assert(i * stride <= 0xffff_ffff * stride) by (nonlinear_arith)
            requires
                i <= 0xffff_ffff,
                stride >= 0,
        ;
        let off: u128 = 16 + (i as u128) * stride;
        if off + stride > len {
            return Err(NodeStoreError::OutOfRange);
        }
        let stride_len: usize = stride as usize;
        let mut buf: Vec<u8> = vec![0u8; stride_len];
        self.storage.read(off as u64, &mut buf);
        let count: u16 = u16_from_le_bytes(slice_subrange(buf.as_slice(), 0, 2));
        proof {
            assert(buf@.subrange(0, 2) =~= self.bytes().subrange(off as int, off + 2));
        }
        if count as u32 > self.edge_degrees {
            return Err(NodeStoreError::Corrupt);
        }
        let dim_len: usize = self.vector_dim as usize;
        let vector: Vec<u32> = read_words(buf.as_slice(), 2, dim_len);
        let edges: Vec<u32> = read_words(buf.as_slice(), 2 + 4 * dim_len, count as usize);
        proof {
            lemma_words_at_subrange(self.bytes(), off as int, off + stride, 2, dim_len as nat);
            lemma_words_at_subrange(
                self.bytes(),
                off as int,
                off + stride,
                2 + 4 * dim_len,
                count as nat,
            );
        }
        Ok((vector, edges))
    }

    /// Writes `(vector, edges)` as node `i`, growing the segment first where
    /// the record lies beyond its end. On an error nothing changes.
    pub fn write_node(&mut self, i: u32, vector: &Vec<u32>, edges: &Vec<u32>) -> (r: Result<
        (),
        NodeStoreError,
    >)
        requires
            old(self).wf(),
        ensures
            final(self).wf(),
            final(self).count() == old(self).count(),
            final(self).dim() == old(self).dim(),
            final(self).degree() == old(self).degree(),
            final(self).entry() == old(self).entry(),
            match old(self).spec_write_error(i as int, vector@, edges@) {
                Some(e) => r == Err::<(), NodeStoreError>(e) && final(self).bytes() == old(self).bytes(),
                None => {
                    &&& r is Ok
                    &&& final(self).bytes() == overlay(
                        old(self).bytes() + zeros(
                            pages_for(old(self).shortfall(i as int)) * 65536,
                        ),
                        old(self).node_offset(i as int),
                        record_bytes(vector@, edges@, old(self).degree() as int),
                    )
                    &&& final(self).spec_read(i as int) == read_ok(vector@, edges@)
                    &&& forall|j: int|
                        #![trigger final(self).spec_read(j)]
                        j != i && old(self).holds(j) ==> final(self).holds(j) && final(self)
                            .spec_read(j) == old(self).spec_read(j)
                },
            },
    {
        if vector.len() != self.vector_dim as usize {
            return Err(NodeStoreError::WrongDimension);
        }
        if edges.len() > self.edge_degrees as usize || edges.len() > 0xffff {
            return Err(NodeStoreError::TooManyEdges);
        }
        let len: u128 = self.storage.byte_len() as u128;
        let dim: u128 = self.vector_dim as u128;
        let deg: u128 = self.edge_degrees as u128;
        let stride: u128 = 2 + 4 * dim + 4 * deg;
        assert(i * stride <= 0xffff_ffff * stride) by (nonlinear_arith)
            requires
                i <= 0xffff_ffff,
                stride >= 0,
        ;
        let off: u128 = 16 + (i as u128) * stride;
        let need: u128 = off + stride;
        if need > len {
            let pages: u128 = (need - len + 65535) / 65536;
            assert(pages == pages_for(old(self).shortfall(i as int)));
            if pages > u64::MAX as u128 {
                return Err(NodeStoreError::GrowFailed);
            }
            let before: i64 = self.storage.grow(pages as u64);
            if before == -1 {
                return Err(NodeStoreError::GrowFailed);
            }
        }
        let ghost grown = self.storage@;
        let count: u16 = edges.len() as u16;
        let mut rec: Vec<u8> = u16_to_le_bytes(count);
        append_words(&mut rec, vector);
        append_words(&mut rec, edges);
        proof {
            lemma_words_bytes_len(vector@);
            lemma_words_bytes_len(edges@);
        }
        rec.resize(stride as usize, 0u8);
        proof {
            assert(rec@ =~= record_bytes(vector@, edges@, deg as int));
            assert(grown =~= old(self).bytes() + zeros(
                pages_for(old(self).shortfall(i as int)) * 65536,
            ));
        }
        self.storage.write(off as u64, rec.as_slice());
        proof {
            let after = self.bytes();
            assert(after.subrange(0, 16) =~= old(self).bytes().subrange(0, 16));
            assert(after.subrange(off as int, off + stride) =~= rec@);
            lemma_record_read_written(after, off as int, vector@, edges@, deg as nat);
            assert forall|j: int| j != i && old(self).holds(j) implies self.holds(j)
                && #[trigger] self.spec_read(j) == old(self).spec_read(j) by {
                lemma_records_apart(i as int, j, stride as int);
                lemma_record_read_agree(
                    after,
                    old(self).bytes(),
                    old(self).node_offset(j),
                    dim as nat,
                    deg as nat,
                );
            }
        }
        Ok(())
    }

    /// Grows the segment, where it is too short, so that it holds record
    /// `i`, and with it every record before. The new bytes are zero. Fails,
    /// changing nothing, where the segment cannot grow that far.
    pub fn reserve(&mut self, i: u32) -> (r: Result<(), NodeStoreError>)
        requires
            old(self).wf(),
        ensures
            final(self).wf(),
            final(self).count() == old(self).count(),
            final(self).dim() == old(self).dim(),
            final(self).degree() == old(self).degree(),
            final(self).entry() == old(self).entry(),
            old(self).cannot_hold(i as int) ==> r == Err::<(), NodeStoreError>(
                NodeStoreError::GrowFailed,
            ) && final(self).bytes() == old(self).bytes(),
            !old(self).cannot_hold(i as int) ==> {
                &&& r is Ok
                &&& final(self).bytes() == old(self).bytes() + zeros(
                    pages_for(old(self).shortfall(i as int)) * 65536,
                )
                &&& forall|j: int| 0 <= j <= i ==> #[trigger] final(self).holds(j)
                &&& forall|j: int|
                    #![trigger final(self).spec_read(j)]
                    old(self).holds(j) ==> final(self).holds(j) && final(self).spec_read(j)
                        == old(self).spec_read(j)
            },
    {
        let len: u128 = self.storage.byte_len() as u128;
        let dim: u128 = self.vector_dim as u128;
        let deg: u128 = self.edge_degrees as u128;
        let stride: u128 = 2 + 4 * dim + 4 * deg;
        assert(i * stride <= 0xffff_ffff * stride) by (nonlinear_arith)
            requires
                i <= 0xffff_ffff,
                stride >= 0,
        ;
        let need: u128 = 16 + (i as u128) * stride + stride;
        if need > len {
            let pages: u128 = (need - len + 65535) / 65536;
            assert(pages == pages_for(old(self).shortfall(i as int)));
            if pages > u64::MAX as u128 {
                return Err(NodeStoreError::GrowFailed);
            }
            let before: i64 = self.storage.grow(pages as u64);
            if before == -1 {
                return Err(NodeStoreError::GrowFailed);
            }
        } else {
            assert(self.bytes() + zeros(0) =~= self.bytes());
        }
        proof {
            let after = self.bytes();
            assert(after.subrange(0, 16) =~= old(self).bytes().subrange(0, 16));
            assert forall|j: int| 0 <= j <= i implies #[trigger] self.holds(j) by {
                assert(j * stride <= i * stride) by (nonlinear_arith)
                    requires
                        0 <= j <= i,
                        stride >= 0,
                ;
            }
            assert forall|j: int| old(self).holds(j) implies self.holds(j) && #[trigger] self.spec_read(
                j,
            ) == old(self).spec_read(j) by {
                lemma_record_read_agree(
                    after,
                    old(self).bytes(),
                    old(self).node_offset(j),
                    dim as nat,
                    deg as nat,
                );
            }
        }
        Ok(())
    }

    /// Opens the store that a segment holds: reads the layout from the header.
    /// Fails where the segment is shorter than a header.
    pub fn load(storage: ICMemory) -> (r: Result<Self, NodeStoreError>)
        ensures
            r is Ok <==> storage@.len() >= 16,
            r matches Ok(s) ==> {
                &&& s.wf()
                &&& s.bytes() == storage@
                &&& seq![s.count(), s.dim(), s.degree(), s.entry()] == words_at(storage@, 0, 4)
            },
            r matches Err(e) ==> e == NodeStoreError::OutOfRange,
    {
        if storage.byte_len() < 16 {
            return Err(NodeStoreError::OutOfRange);
        }
        let mut header: Vec<u8> = vec![0u8; 16];
        storage.read(0, &mut header);
        let fields: Vec<u32> = read_words(header.as_slice(), 0, 4);
        let store = NodeStore {
            storage,
            num_vectors: fields[0],
            vector_dim: fields[1],
            edge_degrees: fields[2],
            start_id: fields[3],
        };
        proof {
            let ws = seq![store.count(), store.dim(), store.degree(), store.entry()];
            assert(ws =~= fields@);
            lemma_words_bytes_of_words_at(header@, 4);
            lemma_words_at_subrange(storage@, 0, 16, 0, 4);
        }
        Ok(store)
    }
}

/// Decoding inside a window of a byte string is decoding in the byte string
/// at the shifted offset.
pub proof fn lemma_words_at_subrange(bytes: Seq<u8>, from: int, to: int, off: int, n: nat)
    requires
        0 <= from <= to <= bytes.len(),
        0 <= off,
        off + 4 * n <= to - from,
    ensures
        words_at(bytes.subrange(from, to), off, n) == words_at(bytes, from + off, n),
{
    let inner = words_at(bytes.subrange(from, to), off, n);
    let outer = words_at(bytes, from + off, n);
    assert forall|k: int| 0 <= k < n implies #[trigger] inner[k] == outer[k] by {
        assert(bytes.subrange(from, to).subrange(off + 4 * k, off + 4 * k + 4) =~= bytes.subrange(
            from + off + 4 * k,
            from + off + 4 * k + 4,
        ));
    }
    assert(inner =~= outer);
}

} // verus!
