//! The query surface up to and after the graph search itself: what is
//! checked before a search starts, and how the ids that it finds become
//! results. A query changes nothing in the index.

use vstd::prelude::*;
use crate::engine::Engine;
use crate::metadata::Metadata;

verus! {

/// Why a query was refused.
#[derive(Clone, Copy, Debug, PartialEq, Eq, Structural)]
pub enum QueryError {
    /// More results are asked for than the search beam is wide.
    BeamTooNarrow,
    /// The index is not running.
    NotRunning,
    /// The query vector does not have the dimension of the index.
    WrongDimension,
    /// The beam width is beyond what can be addressed.
    TooWide,
    /// A node that the search found has no metadata.
    MissingData,
}

/// Why a query for `top_k` results with beam width `size_l` is refused, if
/// it is. The beam width is looked at first, then the phase, then the
/// query vector.
pub open spec fn spec_query_error(
    engine: Engine,
    metadata: Metadata,
    query_len: nat,
    top_k: u64,
    size_l: u64,
) -> Option<QueryError> {
    if top_k > size_l {
        Some(QueryError::BeamTooNarrow)
    } else if !(metadata@ is Running) {
        Some(QueryError::NotRunning)
    } else if query_len != engine.graph.store().dim() {
        Some(QueryError::WrongDimension)
    } else if size_l > usize::MAX {
        Some(QueryError::TooWide)
    } else {
        None
    }
}

/// Checks a query and gives the beam width for its search, `size_l`. The
/// width holds for this one search: the engine, and with it the beam width
/// that insertions use, stays as it is.
pub fn begin_search(
    engine: &Engine,
    metadata: &Metadata,
    query_vector: &Vec<u32>,
    top_k: u64,
    size_l: u64,
) -> (r: Result<usize, QueryError>)
    ensures
        match spec_query_error(*engine, *metadata, query_vector@.len(), top_k, size_l) {
            Some(e) => r == Err::<usize, QueryError>(e),
            None => r == Ok::<usize, QueryError>(size_l as usize),
        },
{
    if top_k > size_l {
        return Err(QueryError::BeamTooNarrow);
    }
    match metadata.status_code() {
        Some(2) => {},
        _ => {
            return Err(QueryError::NotRunning);
        },
    }
    if query_vector.len() != engine.graph.graph_store().vector_dim() as usize {
        return Err(QueryError::WrongDimension);
    }
    if size_l > usize::MAX as u64 {
        return Err(QueryError::TooWide);
    }
    Ok(size_l as usize)
}

/// The metadata of the nodes of `ids`, in order, where each has some.
pub open spec fn spec_results(data: Map<u32, Seq<u8>>, ids: Seq<u32>) -> Option<Seq<Seq<u8>>> {
    if forall|i: int| 0 <= i < ids.len() ==> data.contains_key(#[trigger] ids[i]) {
        Some(Seq::new(ids.len(), |i: int| data[ids[i]]))
    } else {
        None
    }
}

/// The bytes of each byte vector of a list.
pub open spec fn data_views(items: Seq<Vec<u8>>) -> Seq<Seq<u8>> {
    Seq::new(items.len(), |i: int| items[i]@)
}

/// Looks up the metadata of the nodes that a search found, in the order of
/// the ids. Fails where a node has none.
pub fn collect_results(engine: &Engine, ids: &Vec<u32>) -> (r: Result<Vec<Vec<u8>>, QueryError>)
    ensures
        match spec_results(engine.data_map.entries(), ids@) {
            Some(data) => r matches Ok(items) && data_views(items@) == data,
            None => r == Err::<Vec<Vec<u8>>, QueryError>(QueryError::MissingData),
        },
{
    let ghost data = engine.data_map.entries();
    let mut out: Vec<Vec<u8>> = Vec::new();
    let mut i: usize = 0;
    while i < ids.len()
        invariant
            i <= ids.len(),
            data == engine.data_map.entries(),
            out@.len() == i,
            forall|k: int|
                0 <= k < i ==> data.contains_key(#[trigger] ids@[k]) && out@[k]@ == data[ids@[k]],
        decreases ids.len() - i,
    {
        match engine.data_map.get(ids[i]) {
            Some(bytes) => {
                out.push(bytes);
            },
            None => {
                assert(!data.contains_key(ids@[i as int]));
                return Err(QueryError::MissingData);
            },
        }
        i += 1;
    }
    assert(data_views(out@) =~= spec_results(data, ids@).unwrap());
    Ok(out)
}

} // verus!
