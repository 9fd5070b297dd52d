//! Host status records and the summaries assembled from them.

use vstd::prelude::*;
use crate::metadata::{Metadata, MetadataView};

verus! {

/// The last status that the host reported of this instance.
pub struct IcStatus {
    pub controllers: Vec<String>,
    pub compute_allocation: u128,
    pub memory_allocation: u128,
    pub freezing_threshold: u128,
    /// Hash of the installed module, absent while none is installed.
    pub module_hash: Option<Vec<u8>>,
    pub memory_size: u128,
    pub cycles: u128,
    pub idle_cycles_burned_per_day: u128,
}

/// What a status record holds, as plain values.
pub struct IcStatusView {
    pub controllers: Seq<Seq<char>>,
    pub compute_allocation: u128,
    pub memory_allocation: u128,
    pub freezing_threshold: u128,
    pub module_hash: Option<Seq<u8>>,
    pub memory_size: u128,
    pub cycles: u128,
    pub idle_cycles_burned_per_day: u128,
}

/// The texts of `names` as character sequences.
pub open spec fn text_views(names: Seq<String>) -> Seq<Seq<char>> {
    Seq::new(names.len(), |i: int| names[i]@)
}

/// The bytes of an optional byte vector.
pub open spec fn bytes_view(bytes: Option<Vec<u8>>) -> Option<Seq<u8>> {
    match bytes {
        Some(b) => Some(b@),
        None => None,
    }
}

impl View for IcStatus {
    type V = IcStatusView;

    open spec fn view(&self) -> IcStatusView {
        IcStatusView {
            controllers: text_views(self.controllers@),
            compute_allocation: self.compute_allocation,
            memory_allocation: self.memory_allocation,
            freezing_threshold: self.freezing_threshold,
            module_hash: bytes_view(self.module_hash),
            memory_size: self.memory_size,
            cycles: self.cycles,
            idle_cycles_burned_per_day: self.idle_cycles_burned_per_day,
        }
    }
}

/// A copy of a list of texts.
pub fn duplicate_texts(names: &Vec<String>) -> (r: Vec<String>)
    ensures
        text_views(r@) == text_views(names@),
{
    let mut out: Vec<String> = Vec::new();
    let mut i: usize = 0;
    while i < names.len()
        invariant
            i <= names.len(),
            out.len() == i,
            forall|k: int| 0 <= k < i ==> out@[k]@ == names@[k]@,
        decreases names.len() - i,
    {
        out.push(names[i].clone());
        i += 1;
    }
    assert(text_views(out@) =~= text_views(names@));
    out
}

impl IcStatus {
    /// Replaces the stored status by a copy of `status`.
    pub fn update(&mut self, status: &IcStatus)
        ensures
            final(self)@ == status@,
    {
        *self = status.get();
    }

    /// A copy of the stored status.
    pub fn get(&self) -> (r: IcStatus)
        ensures
            r@ == self@,
    {
        let module_hash: Option<Vec<u8>> = match &self.module_hash {
            Some(h) => Some(h.clone()),
            None => None,
        };
        IcStatus {
            controllers: duplicate_texts(&self.controllers),
            compute_allocation: self.compute_allocation,
            memory_allocation: self.memory_allocation,
            freezing_threshold: self.freezing_threshold,
            module_hash,
            memory_size: self.memory_size,
            cycles: self.cycles,
            idle_cycles_burned_per_day: self.idle_cycles_burned_per_day,
        }
    }
}

/// The summary of the index that its owners can ask for.
pub struct DbMetadata {
    pub name: String,
    pub owners: Vec<String>,
    pub cycle_amount: u64,
    pub stable_memory_size: u32,
    pub version: String,
    pub db_key: String,
    pub is_deserialized: bool,
    pub is_complete_hnsw_chunks: bool,
    pub is_complete_source_chunks: bool,
}

/// The host status together with the index's name, version and upload key.
pub struct StatusForFrontend {
    pub controllers: Vec<String>,
    pub compute_allocation: u128,
    pub memory_allocation: u128,
    pub freezing_threshold: u128,
    pub module_hash: Option<Vec<u8>>,
    pub memory_size: u128,
    pub cycles: u128,
    pub idle_cycles_burned_per_day: u128,
    pub db_key: String,
    pub hnsw_chunk_len: u32,
    pub source_chunk_len: u32,
    pub name: String,
    pub version: String,
}

/// The upload key that a summary shows: the key of a loading index, the
/// empty text in any other phase.
pub open spec fn shown_db_key(metadata: MetadataView) -> Seq<char> {
    match metadata {
        MetadataView::Loading { db_key, .. } => db_key,
        _ => Seq::empty(),
    }
}

/// The upload key that a summary shows.
pub fn db_key_or_empty(metadata: &Metadata) -> (r: String)
    ensures
        r@ == shown_db_key(metadata@),
{
    match metadata.get_db_key() {
        Ok(key) => key,
        Err(_) => String::new(),
    }
}

/// Assembles the owners' summary from the metadata cell and what the host
/// reports. `None` where the cell was never set.
pub fn get_metadata(
    metadata: &Metadata,
    owners: Vec<String>,
    cycle_amount: u64,
    stable_memory_size: u32,
) -> (r: Option<DbMetadata>)
    ensures
        r is Some <==> !(metadata@ is Unset),
        r matches Some(m) ==> {
            &&& Some(m.name@) == metadata@.name()
            &&& Some(m.version@) == metadata@.version()
            &&& m.db_key@ == shown_db_key(metadata@)
            &&& m.owners == owners
            &&& m.cycle_amount == cycle_amount
            &&& m.stable_memory_size == stable_memory_size
            &&& !m.is_deserialized
            &&& !m.is_complete_hnsw_chunks
            &&& !m.is_complete_source_chunks
        },
{
    let name: String = match metadata.get_name() {
        Some(n) => n,
        None => {
            return None;
        },
    };
    let version: String = match metadata.get_version() {
        Some(v) => v,
        None => {
            return None;
        },
    };
    let db_key: String = db_key_or_empty(metadata);
    Some(
        DbMetadata {
            name,
            owners,
            cycle_amount,
            stable_memory_size,
            version,
            db_key,
            is_deserialized: false,
            is_complete_hnsw_chunks: false,
            is_complete_source_chunks: false,
        },
    )
}

/// What a frontend summary shows of the host status.
pub open spec fn shown_status(s: StatusForFrontend) -> IcStatusView {
    IcStatusView {
        controllers: text_views(s.controllers@),
        compute_allocation: s.compute_allocation,
        memory_allocation: s.memory_allocation,
        freezing_threshold: s.freezing_threshold,
        module_hash: bytes_view(s.module_hash),
        memory_size: s.memory_size,
        cycles: s.cycles,
        idle_cycles_burned_per_day: s.idle_cycles_burned_per_day,
    }
}

/// Assembles the frontend summary from a host status and the metadata cell.
/// `None` where the cell was never set.
pub fn get_prev_status(status: &IcStatus, metadata: &Metadata) -> (r: Option<StatusForFrontend>)
    ensures
        r is Some <==> !(metadata@ is Unset),
        r matches Some(s) ==> {
            &&& shown_status(s) == status@
            &&& Some(s.name@) == metadata@.name()
            &&& Some(s.version@) == metadata@.version()
            &&& s.db_key@ == shown_db_key(metadata@)
            &&& s.hnsw_chunk_len == 0
            &&& s.source_chunk_len == 0
        },
{
    let name: String = match metadata.get_name() {
        Some(n) => n,
        None => {
            return None;
        },
    };
    let version: String = match metadata.get_version() {
        Some(v) => v,
        None => {
            return None;
        },
    };
    let db_key: String = db_key_or_empty(metadata);
    let copy: IcStatus = status.get();
    Some(
        StatusForFrontend {
            controllers: copy.controllers,
            compute_allocation: copy.compute_allocation,
            memory_allocation: copy.memory_allocation,
            freezing_threshold: copy.freezing_threshold,
            module_hash: copy.module_hash,
            memory_size: copy.memory_size,
            cycles: copy.cycles,
            idle_cycles_burned_per_day: copy.idle_cycles_burned_per_day,
            db_key,
            hnsw_chunk_len: 0,
            source_chunk_len: 0,
            name,
            version,
        },
    )
}

} // verus!
