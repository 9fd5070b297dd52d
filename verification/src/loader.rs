//! The chunked bootstrap protocol: three streams of chunks are uploaded into
//! three segments, each chunk at the offset that its index gives, while a
//! bitmap per stream records what has arrived. A bitmap is serialized only
//! where it leaves the loader, in the answers to questions for missing
//! chunks.

use vstd::prelude::*;
use crate::bitmap::{
    all_set, bytes_of, encode_bitmap, encoded_bitmap, is_complete, no_bits, zero_bits,
};
use crate::bytes::{read_words, word_at};
use crate::metadata::{InitialMetadata, LoadingMetadata, Metadata, MetadataView, RunningMetadata};
use crate::segment::{overlay, pages_for, zeros, ICMemory};

verus! {

/// Largest number of bitmap bytes that one answer to `missing_chunks` carries.
pub const MISSING_CHUNKS_RESPONSE_SIZE: usize = 2097152;

/// The three streams of the bootstrap.
#[derive(Clone, Copy, Debug, PartialEq, Eq, Structural)]
pub enum ChunkType {
    Graph,
    DataMap,
    BacklinksMap,
}

/// Why a step of the bootstrap was refused.
#[derive(Clone, Copy, Debug, PartialEq, Eq, Structural)]
pub enum LoaderError {
    /// The step needs the initial phase.
    NotInitial,
    /// The step needs the loading phase.
    NotLoading,
    /// The step needs the loading or the running phase.
    NothingToReset,
    /// A chunk count or a segment size is beyond what can be addressed.
    TooLarge,
    /// A bitmap could not be serialized.
    Encoding,
    /// The chunk is longer than the chunk size.
    ChunkTooLong,
    /// The chunk would lie beyond the end of its segment.
    OutOfSegment,
    /// The stream has no chunk with this index.
    IndexOutOfRange,
    /// Not every chunk has arrived.
    Incomplete,
    /// The graph segment is too short for a header.
    MissingHeader,
}

/// The bitmap of a stream in a loading record; empty otherwise.
pub open spec fn received(meta: MetadataView, stream: ChunkType) -> Seq<bool> {
    match meta {
        MetadataView::Loading {
            uploaded_graph_chunks,
            uploaded_datamap_chunks,
            uploaded_backlinks_chunks,
            ..
        } => match stream {
            ChunkType::Graph => uploaded_graph_chunks,
            ChunkType::DataMap => uploaded_datamap_chunks,
            ChunkType::BacklinksMap => uploaded_backlinks_chunks,
        },
        _ => Seq::empty(),
    }
}

/// The chunk size of a loading record; 0 otherwise.
pub open spec fn chunk_size(meta: MetadataView) -> u64 {
    match meta {
        MetadataView::Loading { chunk_byte_size, .. } => chunk_byte_size,
        _ => 0,
    }
}

/// A loading record with the bitmap of one stream replaced.
pub open spec fn with_bitmap(meta: MetadataView, stream: ChunkType, bits: Seq<bool>)
    -> MetadataView {
    match meta {
        MetadataView::Loading {
            uploaded_graph_chunks,
            uploaded_datamap_chunks,
            uploaded_backlinks_chunks,
            chunk_byte_size,
            name,
            version,
            db_key,
        } => MetadataView::Loading {
            uploaded_graph_chunks: if stream == ChunkType::Graph {
                bits
            } else {
                uploaded_graph_chunks
            },
            uploaded_datamap_chunks: if stream == ChunkType::DataMap {
                bits
            } else {
                uploaded_datamap_chunks
            },
            uploaded_backlinks_chunks: if stream == ChunkType::BacklinksMap {
                bits
            } else {
                uploaded_backlinks_chunks
            },
            chunk_byte_size,
            name,
            version,
            db_key,
        },
        other => other,
    }
}

/// Whether the chunk with index `i` stands in the segment at the offset
/// that its index gives.
pub open spec fn chunk_in_place(segment: Seq<u8>, size: int, i: int, chunk: Seq<u8>) -> bool {
    &&& chunk.len() <= size
    &&& i * size + chunk.len() <= segment.len()
    &&& segment.subrange(i * size, i * size + chunk.len()) == chunk
}

/// The page of `bytes` with number `section`, or `None` past the end.
pub open spec fn spec_page(bytes: Seq<u8>, section: int) -> Option<Seq<u8>> {
    let start = MISSING_CHUNKS_RESPONSE_SIZE * section;
    if start >= bytes.len() {
        None
    } else if start + MISSING_CHUNKS_RESPONSE_SIZE <= bytes.len() {
        Some(bytes.subrange(start, start + MISSING_CHUNKS_RESPONSE_SIZE))
    } else {
        Some(bytes.subrange(start, bytes.len() as int))
    }
}

/// The page of `bytes` with number `section`: at most 2 MiB of it, or
/// `None` exactly when the page starts at or past the end.
pub fn page_of(bytes: &Vec<u8>, section: u64) -> (r: Option<Vec<u8>>)
    ensures
        bytes_of(r) == spec_page(bytes@, section as int),
        r is None <==> MISSING_CHUNKS_RESPONSE_SIZE * section >= bytes@.len(),
{
    let len: usize = bytes.len();
    let start: u128 = (MISSING_CHUNKS_RESPONSE_SIZE as u128) * (section as u128);
    if start >= len as u128 {
        return None;
    }
    let start: usize = start as usize;
    let end: usize = if len - start >= MISSING_CHUNKS_RESPONSE_SIZE {
        start + MISSING_CHUNKS_RESPONSE_SIZE
    } else {
        len
    };
    let mut out: Vec<u8> = Vec::new();
    let mut i: usize = start;
    while i < end
        invariant
            start <= i <= end <= bytes@.len(),
            out@ == bytes@.subrange(start as int, i as int),
        decreases end - i,
    {
        out.push(bytes[i]);
        assert(out@ =~= bytes@.subrange(start as int, i + 1));
        i += 1;
    }
    Some(out)
}

/// Number of pages that `num_chunks` chunks of `chunk_byte_size` bytes take.
pub open spec fn pages_needed(chunk_byte_size: u64, num_chunks: u64) -> int {
    pages_for(num_chunks * chunk_byte_size)
}

/// Whether a segment cannot be brought to hold `num_chunks` chunks.
pub open spec fn cannot_make_room(segment: Seq<u8>, chunk_byte_size: u64, num_chunks: u64) -> bool {
    &&& pages_needed(chunk_byte_size, num_chunks) > pages_for(segment.len() as int)
    &&& pages_needed(chunk_byte_size, num_chunks) * 65536 > usize::MAX
}

/// Number of zero bytes by which a segment grows to hold `num_chunks` chunks.
pub open spec fn room_added(segment: Seq<u8>, chunk_byte_size: u64, num_chunks: u64) -> int {
    if pages_needed(chunk_byte_size, num_chunks) > pages_for(segment.len() as int) {
        (pages_needed(chunk_byte_size, num_chunks) - pages_for(segment.len() as int)) * 65536
    } else {
        0
    }
}

/// Whether the segment can be brought to hold `num_chunks` chunks of
/// `chunk_byte_size` bytes.
fn has_room(chunk_byte_size: u64, num_chunks: u64, segment: &ICMemory) -> (r: bool)
    ensures
        r == !cannot_make_room(segment@, chunk_byte_size, num_chunks),
{
    assert(num_chunks * chunk_byte_size <= 0xffff_ffff_ffff_ffff * 0xffff_ffff_ffff_ffff)
        by (nonlinear_arith)
        requires
            num_chunks <= 0xffff_ffff_ffff_ffff,
            chunk_byte_size <= 0xffff_ffff_ffff_ffff,
    ;
    let bytes: u128 = (num_chunks as u128) * (chunk_byte_size as u128);
    let pages: u128 = (bytes + 65535) / 65536;
    let current: u128 = segment.size() as u128;
    if pages <= current {
        return true;
    }
    pages <= (usize::MAX as u128) / 65536
}

/// Grows the segment, where it is shorter, to the pages that `num_chunks`
/// chunks of `chunk_byte_size` bytes take.
fn grow_page_size(chunk_byte_size: u64, num_chunks: u64, segment: &mut ICMemory)
    requires
        !cannot_make_room(old(segment)@, chunk_byte_size, num_chunks),
    ensures
        final(segment)@ == old(segment)@ + zeros(
            room_added(old(segment)@, chunk_byte_size, num_chunks),
        ),
{
    assert(num_chunks * chunk_byte_size <= 0xffff_ffff_ffff_ffff * 0xffff_ffff_ffff_ffff)
        by (nonlinear_arith)
        requires
            num_chunks <= 0xffff_ffff_ffff_ffff,
            chunk_byte_size <= 0xffff_ffff_ffff_ffff,
    ;
    let bytes: u128 = (num_chunks as u128) * (chunk_byte_size as u128);
    let pages: u128 = (bytes + 65535) / 65536;
    let current: u128 = segment.size() as u128;
    if pages > current {
        let delta: u64 = (pages - current) as u64;
        let _ = segment.grow(delta);
    } else {
        assert(segment@ + zeros(0) =~= segment@);
    }
}

/// A segment whose length is a whole number of pages, grown to hold the
/// chunks, holds them and is still a whole number of pages long.
pub proof fn lemma_room(segment: Seq<u8>, chunk_byte_size: u64, num_chunks: u64)
    requires
        segment.len() % 65536 == 0,
    ensures
        (segment + zeros(room_added(segment, chunk_byte_size, num_chunks))).len() % 65536 == 0,
        (segment + zeros(room_added(segment, chunk_byte_size, num_chunks))).len() >= num_chunks
            * chunk_byte_size,
        room_added(segment, chunk_byte_size, num_chunks) >= 0,
{
    assert(num_chunks * chunk_byte_size >= 0) by (nonlinear_arith)
        requires
            num_chunks >= 0,
            chunk_byte_size >= 0,
    ;
}

/// Two chunks with different indices, neither longer than the chunk size,
/// do not overlap.
pub proof fn lemma_chunks_apart(i: int, j: int, size: int, len_i: int, len_j: int)
    requires
        0 <= i,
        0 <= j,
        i != j,
        0 <= len_i <= size,
        0 <= len_j <= size,
    ensures
        i * size + len_i <= j * size || j * size + len_j <= i * size,
{
    if i < j {
        assert((i + 1) * size <= j * size) by (nonlinear_arith)
            requires
                i + 1 <= j,
                0 <= size,
        ;
        assert((i + 1) * size == i * size + size) by (nonlinear_arith);
    } else {
        assert((j + 1) * size <= i * size) by (nonlinear_arith)
            requires
                j + 1 <= i,
                0 <= size,
        ;
        assert((j + 1) * size == j * size + size) by (nonlinear_arith);
    }
}

/// The state of the bootstrap: the metadata cell and the three segments.
pub struct ChunkLoader {
    metadata: Metadata,
    graph: ICMemory,
    data_map: ICMemory,
    backlinks: ICMemory,
    placed_graph: Ghost<Map<int, Seq<u8>>>,
    placed_data_map: Ghost<Map<int, Seq<u8>>>,
    placed_backlinks: Ghost<Map<int, Seq<u8>>>,
}

impl ChunkLoader {
    /// The content of the metadata cell.
    pub closed spec fn meta(&self) -> MetadataView {
        self.metadata@
    }

    /// The bytes of the segment of a stream.
    pub closed spec fn segment(&self, stream: ChunkType) -> Seq<u8> {
        match stream {
            ChunkType::Graph => self.graph@,
            ChunkType::DataMap => self.data_map@,
            ChunkType::BacklinksMap => self.backlinks@,
        }
    }

    /// For each chunk index of a stream, the chunk that was uploaded last
    /// under it since loading started.
    pub closed spec fn placed(&self, stream: ChunkType) -> Map<int, Seq<u8>> {
        match stream {
            ChunkType::Graph => self.placed_graph@,
            ChunkType::DataMap => self.placed_data_map@,
            ChunkType::BacklinksMap => self.placed_backlinks@,
        }
    }

    /// Whether every chunk of the stream whose bit is set stands in the
    /// segment where its index puts it.
    pub open spec fn stream_in_place(&self, stream: ChunkType) -> bool {
        &&& self.segment(stream).len() % 65536 == 0
        &&& forall|i: int|
            0 <= i < received(self.meta(), stream).len() && #[trigger] received(
                self.meta(),
                stream,
            )[i] ==> self.placed(stream).contains_key(i) && chunk_in_place(
                self.segment(stream),
                chunk_size(self.meta()) as int,
                i,
                self.placed(stream)[i],
            )
    }

    /// The metadata cell is set, each segment is a whole number of pages
    /// long, and while loading the bitmaps and the segments correspond.
    pub open spec fn wf(&self) -> bool {
        &&& !(self.meta() is Unset)
        &&& self.segment(ChunkType::Graph).len() % 65536 == 0
        &&& self.segment(ChunkType::DataMap).len() % 65536 == 0
        &&& self.segment(ChunkType::BacklinksMap).len() % 65536 == 0
        &&& self.meta() is Loading ==> {
            &&& self.stream_in_place(ChunkType::Graph)
            &&& self.stream_in_place(ChunkType::DataMap)
            &&& self.stream_in_place(ChunkType::BacklinksMap)
        }
    }

    /// A named index in its initial phase, with three empty segments.
    pub fn new(name: String, version: String) -> (r: Self)
        ensures
            r.wf(),
            r.meta() == (MetadataView::Initial { name: name@, version: version@ }),
            r.segment(ChunkType::Graph) == Seq::<u8>::empty(),
            r.segment(ChunkType::DataMap) == Seq::<u8>::empty(),
            r.segment(ChunkType::BacklinksMap) == Seq::<u8>::empty(),
    {
        ChunkLoader {
            metadata: Metadata::Initial(InitialMetadata { name, version }),
            graph: ICMemory::new(Vec::new()),
            data_map: ICMemory::new(Vec::new()),
            backlinks: ICMemory::new(Vec::new()),
            placed_graph: Ghost(Map::empty()),
            placed_data_map: Ghost(Map::empty()),
            placed_backlinks: Ghost(Map::empty()),
        }
    }

    /// Why loading cannot start, if it cannot: the index is not in its
    /// initial phase, a chunk count is beyond what can be addressed, or a
    /// segment cannot grow far enough.
    pub open spec fn spec_loading_error(&self, ng: u64, nd: u64, nb: u64, size: u64) -> Option<
        LoaderError,
    > {
        if !(self.meta() is Initial) {
            Some(LoaderError::NotInitial)
        } else if ng > usize::MAX || nd > usize::MAX || nb > usize::MAX {
            Some(LoaderError::TooLarge)
        } else if cannot_make_room(self.segment(ChunkType::Graph), size, ng) || cannot_make_room(
            self.segment(ChunkType::DataMap),
            size,
            nd,
        ) || cannot_make_room(self.segment(ChunkType::BacklinksMap), size, nb) {
            Some(LoaderError::TooLarge)
        } else {
            None
        }
    }

    /// Whether the segment of a stream is what it was in `before`, grown to
    /// hold `num_chunks` chunks, and nothing is recorded as uploaded.
    pub open spec fn stream_opened(
        &self,
        before: &ChunkLoader,
        stream: ChunkType,
        size: u64,
        num_chunks: u64,
    ) -> bool {
        &&& self.segment(stream) == before.segment(stream) + zeros(
            room_added(before.segment(stream), size, num_chunks),
        )
        &&& self.segment(stream).len() >= num_chunks * size
        &&& self.placed(stream) == Map::<int, Seq<u8>>::empty()
        &&& received(self.meta(), stream) == no_bits(num_chunks as nat)
    }

    /// Starts loading: the three streams get bitmaps of `num_graph_chunks`,
    /// `num_datamap_chunks` and `num_backlinks_chunks` bits, none set, and
    /// each segment is grown to hold that many chunks of `chunk_byte_size`
    /// bytes. On an error nothing changes.
    pub fn start_loading(
        &mut self,
        num_graph_chunks: u64,
        num_datamap_chunks: u64,
        num_backlinks_chunks: u64,
        chunk_byte_size: u64,
        db_key: String,
    ) -> (r: Result<(), LoaderError>)
        requires
            old(self).wf(),
        ensures
            final(self).wf(),
            match old(self).spec_loading_error(
                num_graph_chunks,
                num_datamap_chunks,
                num_backlinks_chunks,
                chunk_byte_size,
            ) {
                Some(e) => r == Err::<(), LoaderError>(e) && final(self).unchanged(old(self)),
                None => {
                    &&& r is Ok
                    &&& final(self).meta() is Loading
                    &&& chunk_size(final(self).meta()) == chunk_byte_size
                    &&& final(self).meta().name() == old(self).meta().name()
                    &&& final(self).meta().version() == old(self).meta().version()
                    &&& final(self).meta() matches MetadataView::Loading { db_key: key, .. }
                        && key == db_key@
                    &&& final(self).stream_opened(
                        old(self),
                        ChunkType::Graph,
                        chunk_byte_size,
                        num_graph_chunks,
                    )
                    &&& final(self).stream_opened(
                        old(self),
                        ChunkType::DataMap,
                        chunk_byte_size,
                        num_datamap_chunks,
                    )
                    &&& final(self).stream_opened(
                        old(self),
                        ChunkType::BacklinksMap,
                        chunk_byte_size,
                        num_backlinks_chunks,
                    )
                },
            },
    {
        let initial: InitialMetadata = match self.metadata.get() {
            Metadata::Initial(m) => m,
            _ => {
                return Err(LoaderError::NotInitial);
            },
        };
        if num_graph_chunks > usize::MAX as u64 || num_datamap_chunks > usize::MAX as u64
            || num_backlinks_chunks > usize::MAX as u64 {
            return Err(LoaderError::TooLarge);
        }
        if !has_room(chunk_byte_size, num_graph_chunks, &self.graph) || !has_room(
            chunk_byte_size,
            num_datamap_chunks,
            &self.data_map,
        ) || !has_room(chunk_byte_size, num_backlinks_chunks, &self.backlinks) {
            return Err(LoaderError::TooLarge);
        }
        let uploaded_graph_chunks: Vec<bool> = zero_bits(num_graph_chunks as usize);
        let uploaded_datamap_chunks: Vec<bool> = zero_bits(num_datamap_chunks as usize);
        let uploaded_backlinks_chunks: Vec<bool> = zero_bits(num_backlinks_chunks as usize);
        grow_page_size(chunk_byte_size, num_graph_chunks, &mut self.graph);
        grow_page_size(chunk_byte_size, num_datamap_chunks, &mut self.data_map);
        grow_page_size(chunk_byte_size, num_backlinks_chunks, &mut self.backlinks);
        self.metadata = Metadata::Loading(
            LoadingMetadata {
                uploaded_graph_chunks,
                uploaded_datamap_chunks,
                uploaded_backlinks_chunks,
                chunk_byte_size,
                name: initial.name,
                version: initial.version,
                db_key,
            },
        );
        self.placed_graph = Ghost(Map::empty());
        self.placed_data_map = Ghost(Map::empty());
        self.placed_backlinks = Ghost(Map::empty());
        proof {
            lemma_room(old(self).segment(ChunkType::Graph), chunk_byte_size, num_graph_chunks);
            lemma_room(old(self).segment(ChunkType::DataMap), chunk_byte_size, num_datamap_chunks);
            lemma_room(
                old(self).segment(ChunkType::BacklinksMap),
                chunk_byte_size,
                num_backlinks_chunks,
            );
        }
        Ok(())
    }

    /// Whether nothing that the contracts speak of differs between the two
    /// states.
    pub open spec fn unchanged(&self, other: &ChunkLoader) -> bool {
        &&& self.meta() == other.meta()
        &&& forall|stream: ChunkType|
            #![trigger self.segment(stream)]
            #![trigger self.placed(stream)]
            self.segment(stream) == other.segment(stream) && self.placed(stream) == other.placed(
                stream,
            )
    }

    /// Why a chunk is refused, if it is. The phase is looked at first, then
    /// the chunk's length, its place in the segment, and its index.
    pub open spec fn spec_upload_error(&self, chunk_len: nat, index: u64, stream: ChunkType)
        -> Option<LoaderError> {
        if !(self.meta() is Loading) {
            Some(LoaderError::NotLoading)
        } else if chunk_len > chunk_size(self.meta()) {
            Some(LoaderError::ChunkTooLong)
        } else if chunk_size(self.meta()) * index + chunk_len > self.segment(stream).len() {
            Some(LoaderError::OutOfSegment)
        } else if index >= received(self.meta(), stream).len() {
            Some(LoaderError::IndexOutOfRange)
        } else {
            None
        }
    }

    /// Whether `self` is `before` with one chunk taken in: the chunk's
    /// bytes stand in the stream's segment at `index * chunk size`, the
    /// chunk's bit is set, and everything else is as it was.
    pub open spec fn chunk_taken(
        &self,
        before: &ChunkLoader,
        chunk: Seq<u8>,
        index: u64,
        stream: ChunkType,
    ) -> bool {
        &&& self.meta() == with_bitmap(
            before.meta(),
            stream,
            received(before.meta(), stream).update(index as int, true),
        )
        &&& self.segment(stream) == overlay(
            before.segment(stream),
            chunk_size(before.meta()) * index,
            chunk,
        )
        &&& self.placed(stream) == before.placed(stream).insert(index as int, chunk)
        &&& forall|other: ChunkType|
            #![trigger self.segment(other)]
            #![trigger self.placed(other)]
            other != stream ==> self.segment(other) == before.segment(other) && self.placed(other)
                == before.placed(other)
    }

    /// Takes in one chunk of a stream: writes it into the stream's segment
    /// at `chunk_index * chunk size` and sets its bit. A chunk that comes
    /// again overwrites what came before; its bit stays set. On an error
    /// nothing changes.
    pub fn upload_chunk(&mut self, chunk: Vec<u8>, chunk_index: u64, chunk_type: ChunkType) -> (r:
        Result<(), LoaderError>)
        requires
            old(self).wf(),
        ensures
            final(self).wf(),
            match old(self).spec_upload_error(chunk@.len(), chunk_index, chunk_type) {
                Some(e) => r == Err::<(), LoaderError>(e) && final(self).unchanged(old(self)),
                None => r is Ok && final(self).chunk_taken(
                    old(self),
                    chunk@,
                    chunk_index,
                    chunk_type,
                ),
            },
    {
        let mut loading: LoadingMetadata = match self.metadata.get() {
            Metadata::Loading(m) => m,
            _ => {
                return Err(LoaderError::NotLoading);
            },
        };
        let size: u64 = loading.chunk_byte_size;
        let bits_len: usize = match chunk_type {
            ChunkType::Graph => loading.uploaded_graph_chunks.len(),
            ChunkType::DataMap => loading.uploaded_datamap_chunks.len(),
            ChunkType::BacklinksMap => loading.uploaded_backlinks_chunks.len(),
        };
        if chunk.len() as u128 > size as u128 {
            return Err(LoaderError::ChunkTooLong);
        }
        assert(size * chunk_index <= 0xffff_ffff_ffff_ffff * 0xffff_ffff_ffff_ffff)
            by (nonlinear_arith)
            requires
                size <= 0xffff_ffff_ffff_ffff,
                chunk_index <= 0xffff_ffff_ffff_ffff,
        ;
        let offset: u128 = (size as u128) * (chunk_index as u128);
        let segment_len: usize = self.stream_segment(chunk_type).byte_len();
        if offset + chunk.len() as u128 > segment_len as u128 {
            return Err(LoaderError::OutOfSegment);
        }
        if chunk_index >= bits_len as u64 {
            return Err(LoaderError::IndexOutOfRange);
        }
        match chunk_type {
            ChunkType::Graph => {
                self.graph.write(offset as u64, chunk.as_slice());
                loading.uploaded_graph_chunks.set(chunk_index as usize, true);
                self.placed_graph = Ghost(self.placed_graph@.insert(chunk_index as int, chunk@));
            },
            ChunkType::DataMap => {
                self.data_map.write(offset as u64, chunk.as_slice());
                loading.uploaded_datamap_chunks.set(chunk_index as usize, true);
                self.placed_data_map = Ghost(
                    self.placed_data_map@.insert(chunk_index as int, chunk@),
                );
            },
            ChunkType::BacklinksMap => {
                self.backlinks.write(offset as u64, chunk.as_slice());
                loading.uploaded_backlinks_chunks.set(chunk_index as usize, true);
                self.placed_backlinks = Ghost(
                    self.placed_backlinks@.insert(chunk_index as int, chunk@),
                );
            },
        }
        self.metadata = Metadata::Loading(loading);
        proof {
            assert(self.chunk_taken(old(self), chunk@, chunk_index, chunk_type));
            old(self).lemma_chunk_keeps_place(self, chunk@, chunk_index, chunk_type);
        }
        Ok(())
    }

    /// Taking in a chunk leaves every chunk that was in place in place.
    pub proof fn lemma_chunk_keeps_place(
        &self,
        after: &ChunkLoader,
        chunk: Seq<u8>,
        index: u64,
        stream: ChunkType,
    )
        requires
            self.wf(),
            self.spec_upload_error(chunk.len(), index, stream) is None,
            after.chunk_taken(self, chunk, index, stream),
        ensures
            after.wf(),
    {
        let size = chunk_size(self.meta()) as int;
        let bits = received(self.meta(), stream);
        let new_bits = bits.update(index as int, true);
        assert(received(after.meta(), stream) == new_bits);
        assert(self.stream_in_place(stream));
        assert(chunk_size(after.meta()) == size);
        assert(after.segment(stream).len() == self.segment(stream).len());
        assert forall|other: ChunkType| other != stream implies after.stream_in_place(other) by {
            assert(self.stream_in_place(other));
            assert(after.segment(other) == self.segment(other));
            assert(after.placed(other) == self.placed(other));
            assert(received(after.meta(), other) == received(self.meta(), other));
        }
        assert(after.stream_in_place(stream)) by {
            let seg = self.segment(stream);
            let seg2 = after.segment(stream);
            assert forall|i: int| 0 <= i < new_bits.len() && #[trigger] new_bits[i] implies after.placed(
                stream,
            ).contains_key(i) && chunk_in_place(seg2, size, i, after.placed(stream)[i]) by {
                if i == index {
                    assert(seg2.subrange(i * size, i * size + chunk.len()) =~= chunk);
                } else {
                    assert(bits[i]);
                    let c = self.placed(stream)[i];
                    assert(chunk_in_place(seg, size, i, c));
                    lemma_chunks_apart(i, index as int, size, c.len() as int, chunk.len() as int);
                    assert(seg2.subrange(i * size, i * size + c.len()) =~= seg.subrange(
                        i * size,
                        i * size + c.len(),
                    ));
                }
            }
        }
        assert(after.stream_in_place(ChunkType::Graph));
        assert(after.stream_in_place(ChunkType::DataMap));
        assert(after.stream_in_place(ChunkType::BacklinksMap));
    }

    /// The answer to a question for missing chunks: page `section` of the
    /// stream's serialized bitmap, `None` exactly when the page starts at or
    /// past the end of the serialized bitmap.
    pub fn missing_chunks(&self, section: u64, chunk_type: ChunkType) -> (r: Result<
        Option<Vec<u8>>,
        LoaderError,
    >)
        ensures
            !(self.meta() is Loading) ==> r == Err::<Option<Vec<u8>>, LoaderError>(
                LoaderError::NotLoading,
            ),
            self.meta() is Loading ==> match encoded_bitmap(received(self.meta(), chunk_type)) {
                None => r == Err::<Option<Vec<u8>>, LoaderError>(LoaderError::Encoding),
                Some(bytes) => r matches Ok(page) && bytes_of(page) == spec_page(
                    bytes,
                    section as int,
                ) && (page is None <==> MISSING_CHUNKS_RESPONSE_SIZE * section >= bytes.len()),
            },
    {
        match &self.metadata {
            Metadata::Loading(loading) => {
                let encoded: Option<Vec<u8>> = match chunk_type {
                    ChunkType::Graph => encode_bitmap(&loading.uploaded_graph_chunks),
                    ChunkType::DataMap => encode_bitmap(&loading.uploaded_datamap_chunks),
                    ChunkType::BacklinksMap => encode_bitmap(&loading.uploaded_backlinks_chunks),
                };
                match encoded {
                    Some(bytes) => Ok(page_of(&bytes, section)),
                    None => Err(LoaderError::Encoding),
                }
            },
            _ => Err(LoaderError::NotLoading),
        }
    }

    /// Why running cannot start, if it cannot: the index is not loading, a
    /// chunk is missing, or the graph segment has no room for a header.
    pub open spec fn spec_running_error(&self) -> Option<LoaderError> {
        if !(self.meta() is Loading) {
            Some(LoaderError::NotLoading)
        } else if !(all_set(received(self.meta(), ChunkType::Graph)) && all_set(
            received(self.meta(), ChunkType::DataMap),
        ) && all_set(received(self.meta(), ChunkType::BacklinksMap))) {
            Some(LoaderError::Incomplete)
        } else if self.segment(ChunkType::Graph).len() < 16 {
            Some(LoaderError::MissingHeader)
        } else {
            None
        }
    }

    /// Whether every chunk of the stream has arrived and stands in the
    /// segment where its index puts it.
    pub open spec fn stream_complete(&self, stream: ChunkType) -> bool {
        &&& all_set(received(self.meta(), stream))
        &&& forall|i: int|
            0 <= i < received(self.meta(), stream).len() ==> #[trigger] self.placed(
                stream,
            ).contains_key(i) && chunk_in_place(
                self.segment(stream),
                chunk_size(self.meta()) as int,
                i,
                self.placed(stream)[i],
            )
    }

    /// A stream whose set bits have their chunks in place, and all of whose
    /// bits are set, is complete.
    pub proof fn lemma_complete(&self, stream: ChunkType)
        requires
            self.stream_in_place(stream),
            all_set(received(self.meta(), stream)),
        ensures
            self.stream_complete(stream),
    {
        let bits = received(self.meta(), stream);
        assert forall|i: int| 0 <= i < bits.len() implies #[trigger] self.placed(
            stream,
        ).contains_key(i) && chunk_in_place(
            self.segment(stream),
            chunk_size(self.meta()) as int,
            i,
            self.placed(stream)[i],
        ) by {
            assert(bits[i]);
        }
    }

    /// Starts running once every chunk of every stream has arrived. The id
    /// of the next node is the node count in the header of the graph
    /// segment. The segments stay as they are: each holds, chunk by chunk,
    /// what was uploaded under the chunk's index. On an error nothing
    /// changes.
    pub fn start_running(&mut self) -> (r: Result<(), LoaderError>)
        requires
            old(self).wf(),
        ensures
            final(self).wf(),
            forall|stream: ChunkType|
                #![trigger final(self).segment(stream)]
                #![trigger final(self).placed(stream)]
                final(self).segment(stream) == old(self).segment(stream) && final(self).placed(
                    stream,
                ) == old(self).placed(stream),
            match old(self).spec_running_error() {
                Some(e) => r == Err::<(), LoaderError>(e) && final(self).meta() == old(self).meta(),
                None => {
                    &&& r is Ok
                    &&& final(self).meta() matches MetadataView::Running {
                        name,
                        version,
                        next_free_id,
                    }
                    &&& Some(name) == old(self).meta().name()
                    &&& Some(version) == old(self).meta().version()
                    &&& next_free_id == word_at(old(self).segment(ChunkType::Graph), 0)
                    &&& old(self).stream_complete(ChunkType::Graph)
                    &&& old(self).stream_complete(ChunkType::DataMap)
                    &&& old(self).stream_complete(ChunkType::BacklinksMap)
                },
            },
    {
        let loading: LoadingMetadata = match self.metadata.get() {
            Metadata::Loading(m) => m,
            _ => {
                return Err(LoaderError::NotLoading);
            },
        };
        let is_done: bool = is_complete(&loading.uploaded_graph_chunks) && is_complete(
            &loading.uploaded_datamap_chunks,
        ) && is_complete(&loading.uploaded_backlinks_chunks);
        if !is_done {
            return Err(LoaderError::Incomplete);
        }
        if self.graph.byte_len() < 16 {
            return Err(LoaderError::MissingHeader);
        }
        let mut first: Vec<u8> = vec![0u8; 4];
        self.graph.read(0, &mut first);
        let words: Vec<u32> = read_words(first.as_slice(), 0, 1);
        let num_vectors: u32 = words[0];
        proof {
            assert(first@.subrange(0, 4) =~= self.graph@.subrange(0, 4));
            old(self).lemma_complete(ChunkType::Graph);
            old(self).lemma_complete(ChunkType::DataMap);
            old(self).lemma_complete(ChunkType::BacklinksMap);
        }
        self.metadata = Metadata::Running(
            RunningMetadata { name: loading.name, version: loading.version, next_free_id: num_vectors },
        );
        Ok(())
    }

    /// Goes back to the initial phase from loading or running, keeping name
    /// and version. An index in its initial phase has nothing to go back
    /// from: the call is refused and nothing changes. The segments are not
    /// touched.
    pub fn reset(&mut self) -> (r: Result<(), LoaderError>)
        requires
            old(self).wf(),
        ensures
            final(self).wf(),
            forall|stream: ChunkType|
                #![trigger final(self).segment(stream)]
                #![trigger final(self).placed(stream)]
                final(self).segment(stream) == old(self).segment(stream) && final(self).placed(
                    stream,
                ) == old(self).placed(stream),
            r is Ok <==> old(self).meta() is Loading || old(self).meta() is Running,
            r matches Err(e) ==> e == LoaderError::NothingToReset && final(self).meta() == old(self)
                .meta(),
            r is Ok ==> final(self).meta() is Initial && final(self).meta().name() == old(self)
                .meta().name() && final(self).meta().version() == old(self).meta().version(),
    {
        let next: Metadata = match self.metadata.get() {
            Metadata::Loading(m) => Metadata::Initial(
                InitialMetadata { name: m.name, version: m.version },
            ),
            Metadata::Running(m) => Metadata::Initial(
                InitialMetadata { name: m.name, version: m.version },
            ),
            _ => {
                return Err(LoaderError::NothingToReset);
            },
        };
        self.metadata = next;
        Ok(())
    }

    /// Sets the index's name in the metadata cell.
    pub fn change_name(&mut self, name: String)
        requires
            old(self).wf(),
        ensures
            final(self).wf(),
            final(self).meta() == old(self).meta().with_name(name@),
            forall|stream: ChunkType|
                #![trigger final(self).segment(stream)]
                #![trigger final(self).placed(stream)]
                final(self).segment(stream) == old(self).segment(stream) && final(self).placed(
                    stream,
                ) == old(self).placed(stream),
    {
        let _ = self.metadata.change_name(name);
        proof {
            old(self).lemma_bitmaps_kept(self);
        }
    }

    /// Sets the index's version in the metadata cell.
    pub fn change_version(&mut self, version: String)
        requires
            old(self).wf(),
        ensures
            final(self).wf(),
            final(self).meta() == old(self).meta().with_version(version@),
            forall|stream: ChunkType|
                #![trigger final(self).segment(stream)]
                #![trigger final(self).placed(stream)]
                final(self).segment(stream) == old(self).segment(stream) && final(self).placed(
                    stream,
                ) == old(self).placed(stream),
    {
        let _ = self.metadata.change_version(version);
        proof {
            old(self).lemma_bitmaps_kept(self);
        }
    }

    /// Sets the upload key of a loading index. Fails, changing nothing, in
    /// any other phase.
    pub fn change_db_key(&mut self, db_key: String) -> (r: Result<(), ()>)
        requires
            old(self).wf(),
        ensures
            final(self).wf(),
            r is Ok <==> old(self).meta() is Loading,
            final(self).meta() == old(self).meta().with_db_key(db_key@),
            forall|stream: ChunkType|
                #![trigger final(self).segment(stream)]
                #![trigger final(self).placed(stream)]
                final(self).segment(stream) == old(self).segment(stream) && final(self).placed(
                    stream,
                ) == old(self).placed(stream),
    {
        let r: Result<(), ()> = self.metadata.change_db_key(db_key);
        proof {
            old(self).lemma_bitmaps_kept(self);
        }
        r
    }

    /// A state with the same segments, the same uploads on record, the same
    /// bitmaps and the same chunk size is well formed if this one is.
    pub proof fn lemma_bitmaps_kept(&self, after: &ChunkLoader)
        requires
            self.wf(),
            !(after.meta() is Unset),
            after.meta() is Loading ==> self.meta() is Loading,
            chunk_size(after.meta()) == chunk_size(self.meta()),
            forall|stream: ChunkType|
                #![trigger after.segment(stream)]
                after.segment(stream) == self.segment(stream) && after.placed(stream)
                    == self.placed(stream) && (after.meta() is Loading ==> received(
                    after.meta(),
                    stream,
                ) == received(self.meta(), stream)),
        ensures
            after.wf(),
    {
        assert(after.segment(ChunkType::Graph) == self.segment(ChunkType::Graph));
        assert(after.segment(ChunkType::DataMap) == self.segment(ChunkType::DataMap));
        assert(after.segment(ChunkType::BacklinksMap) == self.segment(ChunkType::BacklinksMap));
        if after.meta() is Loading {
            assert(self.stream_in_place(ChunkType::Graph));
            assert(self.stream_in_place(ChunkType::DataMap));
            assert(self.stream_in_place(ChunkType::BacklinksMap));
        }
    }

    /// Puts a loader together again from a metadata cell in its initial or
    /// running phase and three segments, each a whole number of pages long:
    /// the inverse of `into_parts` outside the loading phase. `None` for
    /// any other cell and for a segment of any other length.
    pub fn from_parts(metadata: Metadata, graph: ICMemory, data_map: ICMemory, backlinks: ICMemory)
        -> (r: Option<Self>)
        ensures
            r is Some <==> (metadata@ is Initial || metadata@ is Running) && graph@.len() % 65536
                == 0 && data_map@.len() % 65536 == 0 && backlinks@.len() % 65536 == 0,
            r matches Some(loader) ==> {
                &&& loader.wf()
                &&& loader.meta() == metadata@
                &&& loader.segment(ChunkType::Graph) == graph@
                &&& loader.segment(ChunkType::DataMap) == data_map@
                &&& loader.segment(ChunkType::BacklinksMap) == backlinks@
            },
    {
        let phase_fits: bool = match &metadata {
            Metadata::Initial(_) => true,
            Metadata::Running(_) => true,
            _ => false,
        };
        if !phase_fits || graph.byte_len() % 65536 != 0 || data_map.byte_len() % 65536 != 0
            || backlinks.byte_len() % 65536 != 0 {
            return None;
        }
        Some(
            ChunkLoader {
                metadata,
                graph,
                data_map,
                backlinks,
                placed_graph: Ghost(Map::empty()),
                placed_data_map: Ghost(Map::empty()),
                placed_backlinks: Ghost(Map::empty()),
            },
        )
    }

    /// The metadata cell, to read from.
    pub fn metadata(&self) -> (r: &Metadata)
        ensures
            r@ == self.meta(),
    {
        &self.metadata
    }

    /// The phase as a number: 0 initial, 1 loading, 2 running.
    pub fn status_code(&self) -> (r: u8)
        requires
            self.wf(),
        ensures
            Some(r) == self.meta().status_code(),
    {
        match self.metadata.status_code() {
            Some(code) => code,
            None => 0,
        }
    }

    /// The segment of a stream, to read from.
    pub fn stream_segment(&self, stream: ChunkType) -> (r: &ICMemory)
        ensures
            r@ == self.segment(stream),
    {
        match stream {
            ChunkType::Graph => &self.graph,
            ChunkType::DataMap => &self.data_map,
            ChunkType::BacklinksMap => &self.backlinks,
        }
    }

    /// Gives up the loader for its metadata and its three segments: graph,
    /// data map, backlinks.
    pub fn into_parts(self) -> (r: (Metadata, ICMemory, ICMemory, ICMemory))
        ensures
            r.0@ == self.meta(),
            r.1@ == self.segment(ChunkType::Graph),
            r.2@ == self.segment(ChunkType::DataMap),
            r.3@ == self.segment(ChunkType::BacklinksMap),
    {
        (self.metadata, self.graph, self.data_map, self.backlinks)
    }
}

} // verus!
