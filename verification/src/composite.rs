//! The bootstrap composite: the three segment images of a freshly built
//! index in one byte string, behind a header that says where each begins.

use vstd::prelude::*;
use vstd::bytes::*;
use crate::backlinks::Backlinks;
use crate::bytes::words_bytes;
use crate::node_store::NodeStore;
use crate::ordered_map::{image_entries, numbered, put_all, ICRBTree};

verus! {

/// Length of the header of a composite in bytes.
pub const COMPOSITE_HEADER_BYTES: usize = 40;

/// The header of a composite: the lengths of the data-map image, the graph
/// image and the backlink-map image as 64-bit words, then the medoid, the
/// node count, the vector dimension and the maximum out-degree as 32-bit
/// words, all little-endian.
pub open spec fn composite_header(
    data_map_len: u64,
    graph_len: u64,
    backlinks_len: u64,
    medoid: u32,
    num_vectors: u32,
    dim: u32,
    degree: u32,
) -> Seq<u8> {
    spec_u64_to_le_bytes(data_map_len) + spec_u64_to_le_bytes(graph_len) + spec_u64_to_le_bytes(
        backlinks_len,
    ) + spec_u32_to_le_bytes(medoid) + spec_u32_to_le_bytes(num_vectors) + spec_u32_to_le_bytes(
        dim,
    ) + spec_u32_to_le_bytes(degree)
}

/// A composite: the header, then the data-map image, the graph image and
/// the backlink-map image.
pub open spec fn composite_bytes(
    data_map: Seq<u8>,
    graph: Seq<u8>,
    backlinks: Seq<u8>,
    medoid: u32,
    num_vectors: u32,
    dim: u32,
    degree: u32,
) -> Seq<u8> {
    composite_header(
        data_map.len() as u64,
        graph.len() as u64,
        backlinks.len() as u64,
        medoid,
        num_vectors,
        dim,
        degree,
    ) + data_map + graph + backlinks
}

/// Appends a copy of `bytes` to `out`.
fn append_copy(out: &mut Vec<u8>, bytes: &Vec<u8>)
    ensures
        final(out)@ == old(out)@ + bytes@,
{
    let mut copy: Vec<u8> = bytes.clone();
    out.append(&mut copy);
}

/// Puts three segment images together behind a header.
pub fn compose(
    data_map: &Vec<u8>,
    graph: &Vec<u8>,
    backlinks: &Vec<u8>,
    medoid: u32,
    num_vectors: u32,
    dim: u32,
    degree: u32,
) -> (r: Vec<u8>)
    ensures
        r@ == composite_bytes(data_map@, graph@, backlinks@, medoid, num_vectors, dim, degree),
{
    let mut bytes: Vec<u8> = Vec::new();
    let mut part: Vec<u8> = u64_to_le_bytes(data_map.len() as u64);
    bytes.append(&mut part);
    let mut part: Vec<u8> = u64_to_le_bytes(graph.len() as u64);
    bytes.append(&mut part);
    let mut part: Vec<u8> = u64_to_le_bytes(backlinks.len() as u64);
    bytes.append(&mut part);
    let mut part: Vec<u8> = u32_to_le_bytes(medoid);
    bytes.append(&mut part);
    let mut part: Vec<u8> = u32_to_le_bytes(num_vectors);
    bytes.append(&mut part);
    let mut part: Vec<u8> = u32_to_le_bytes(dim);
    bytes.append(&mut part);
    let mut part: Vec<u8> = u32_to_le_bytes(degree);
    bytes.append(&mut part);
    assert(bytes@ =~= composite_header(
        data_map@.len() as u64,
        graph@.len() as u64,
        backlinks@.len() as u64,
        medoid,
        num_vectors,
        dim,
        degree,
    ));
    append_copy(&mut bytes, data_map);
    append_copy(&mut bytes, graph);
    append_copy(&mut bytes, backlinks);
    bytes
}

/// Whether `bytes` is the stored form of a list of backlinks: the ids of the
/// list in ascending order, each once, four little-endian bytes each.
pub open spec fn is_stored_form(bytes: Seq<u8>, links: Seq<u32>) -> bool {
    exists|ids: Seq<u32>|
        crate::backlinks::ascending(ids) && ids.to_set() == links.to_set() && bytes
            == #[trigger] words_bytes(ids)
}

/// Whether each byte string is the stored form of the list of backlinks at
/// its place.
pub open spec fn is_stored_backlinks(stored: Seq<Vec<u8>>, backlinks: Seq<Vec<u32>>) -> bool {
    &&& stored.len() == backlinks.len()
    &&& forall|i: int|
        0 <= i < stored.len() ==> is_stored_form((#[trigger] stored[i])@, backlinks[i]@)
}

/// The stored form of each list of backlinks; `None` where a list is too
/// long to be stored.
pub fn store_backlinks(backlinks: &Vec<Vec<u32>>) -> (r: Option<Vec<Vec<u8>>>)
    ensures
        r matches Some(stored) ==> is_stored_backlinks(stored@, backlinks@) && forall|i: int|
            0 <= i < stored@.len() ==> (#[trigger] stored@[i])@.len() <= u32::MAX,
        r is None ==> exists|i: int|
            0 <= i < backlinks@.len() && 4 * (#[trigger] backlinks@[i])@.to_set().len()
                > u32::MAX,
{
    let mut out: Vec<Vec<u8>> = Vec::new();
    let mut i: usize = 0;
    while i < backlinks.len()
        invariant
            i <= backlinks.len(),
            out@.len() == i,
            forall|k: int| 0 <= k < i ==> is_stored_form((#[trigger] out@[k])@, backlinks@[k]@),
            forall|k: int| 0 <= k < out@.len() ==> (#[trigger] out@[k])@.len() <= u32::MAX,
        decreases backlinks.len() - i,
    {
        let set: Backlinks = Backlinks::from_ids(&backlinks[i]);
        proof {
            crate::link_updates::lemma_ascending_len(set.0@);
            crate::bytes::lemma_words_bytes_len(set.0@);
        }
        if set.0.len() > 0x3fff_ffff {
            return None;
        }
        let bytes: Vec<u8> = set.to_bytes();
        proof {
            assert(bytes@ == words_bytes(set.0@));
            assert(is_stored_form(bytes@, backlinks@[i as int]@));
        }
        out.push(bytes);
        i += 1;
    }
    Some(out)
}

/// Settings of a build of the index.
pub struct Vectune {
    pub dim: usize,
    pub degree: usize,
    pub seed: u64,
}

impl Vectune {
    /// The settings that a build starts from: 384 components, out-degree 90
    /// and a fixed seed.
    pub fn new() -> (r: Self)
        ensures
            r.dim == 384,
            r.degree == 90,
            r.seed == 123456789,
    {
        Vectune { dim: 384, degree: 90, seed: 123456789 }
    }

    /// Whether `bytes` is a composite of the given data map and node store
    /// with a backlink map that holds, under each node's number, the stored
    /// form of the node's backlinks.
    pub open spec fn is_serialized(
        bytes: Seq<u8>,
        data_map: ICRBTree,
        graph_on_storage: NodeStore,
        backlinks: Seq<Vec<u32>>,
        medoid_index: u32,
    ) -> bool {
        exists|data_image: Seq<u8>, links_image: Seq<u8>, stored: Seq<Vec<u8>>|
            {
                &&& #[trigger] image_entries(data_image) == Some(data_map.entries())
                &&& is_stored_backlinks(stored, backlinks)
                &&& #[trigger] image_entries(links_image) == Some(
                    put_all(Map::empty(), #[trigger] numbered(stored)),
                )
                &&& bytes == composite_bytes(
                    data_image,
                    graph_on_storage.bytes(),
                    links_image,
                    medoid_index,
                    graph_on_storage.count(),
                    graph_on_storage.dim(),
                    graph_on_storage.degree(),
                )
            }
    }

    /// Serializes a freshly built index as a composite. `None` where there
    /// are more lists of backlinks than node ids, or a list is too long to
    /// be stored.
    pub fn serialize(
        data_map: ICRBTree,
        graph_on_storage: NodeStore,
        backlinks: Vec<Vec<u32>>,
        medoid_index: u32,
    ) -> (r: Option<Vec<u8>>)
        ensures
            r matches Some(bytes) ==> Self::is_serialized(
                bytes@,
                data_map,
                graph_on_storage,
                backlinks@,
                medoid_index,
            ),
            r is None ==> backlinks@.len() > u32::MAX || exists|i: int|
                0 <= i < backlinks@.len() && 4 * (#[trigger] backlinks@[i])@.to_set().len()
                    > u32::MAX,
    {
        if backlinks.len() > 0xffff_ffff {
            return None;
        }
        let stored: Vec<Vec<u8>> = match store_backlinks(&backlinks) {
            Some(stored) => stored,
            None => {
                return None;
            },
        };
        let num_vectors: u32 = graph_on_storage.num_vectors();
        let vector_dim: u32 = graph_on_storage.vector_dim();
        let edge_degrees: u32 = graph_on_storage.max_edge_degrees();
        let ghost stored_view = stored@;
        let ghost data_entries = data_map.entries();
        let ghost graph_bytes = graph_on_storage.bytes();
        let serialized_data_map: Vec<u8> = data_map.into_memory();
        let serialized_graph_store: Vec<u8> = graph_on_storage.into_storage().into_inner();
        let serialized_backlinks_map: Vec<u8> = ICRBTree::build_from_vec_u8(stored).into_memory();
        let bytes: Vec<u8> = compose(
            &serialized_data_map,
            &serialized_graph_store,
            &serialized_backlinks_map,
            medoid_index,
            num_vectors,
            vector_dim,
            edge_degrees,
        );
        proof {
            assert(image_entries(serialized_data_map@) == Some(data_entries));
            assert(image_entries(serialized_backlinks_map@) == Some(
                put_all(Map::empty(), numbered(stored_view)),
            ));
        }
        Some(bytes)
    }
}

} // verus!
