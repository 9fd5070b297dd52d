//! The metadata cell: a tagged record that says which phase the index is in.

use vstd::prelude::*;

verus! {

/// Metadata of an index that has been named and holds nothing yet.
pub struct InitialMetadata {
    pub name: String,
    pub version: String,
}

/// Metadata of an index whose three streams are being uploaded.
pub struct LoadingMetadata {
    /// One bit for each graph chunk: whether it has been received.
    pub uploaded_graph_chunks: Vec<bool>,
    /// One bit for each data-map chunk: whether it has been received.
    pub uploaded_datamap_chunks: Vec<bool>,
    /// One bit for each backlink-map chunk: whether it has been received.
    pub uploaded_backlinks_chunks: Vec<bool>,
    /// Size of one chunk in bytes, the same for the three streams.
    pub chunk_byte_size: u64,
    pub name: String,
    pub version: String,
    pub db_key: String,
}

/// Metadata of an index that answers queries and takes mutations.
pub struct RunningMetadata {
    pub name: String,
    pub version: String,
    /// The id that the next allocated node gets.
    pub next_free_id: u32,
}

/// The content of the metadata cell.
pub enum Metadata {
    /// Nothing was ever stored.
    Unset,
    Initial(InitialMetadata),
    Loading(LoadingMetadata),
    Running(RunningMetadata),
}

/// What a metadata record holds, as plain values.
pub enum MetadataView {
    Unset,
    Initial { name: Seq<char>, version: Seq<char> },
    Loading {
        uploaded_graph_chunks: Seq<bool>,
        uploaded_datamap_chunks: Seq<bool>,
        uploaded_backlinks_chunks: Seq<bool>,
        chunk_byte_size: u64,
        name: Seq<char>,
        version: Seq<char>,
        db_key: Seq<char>,
    },
    Running { name: Seq<char>, version: Seq<char>, next_free_id: u32 },
}

impl MetadataView {
    /// The name held by every variant but `Unset`.
    pub open spec fn name(self) -> Option<Seq<char>> {
        match self {
            MetadataView::Unset => None,
            MetadataView::Initial { name, .. } => Some(name),
            MetadataView::Loading { name, .. } => Some(name),
            MetadataView::Running { name, .. } => Some(name),
        }
    }

    /// The version held by every variant but `Unset`.
    pub open spec fn version(self) -> Option<Seq<char>> {
        match self {
            MetadataView::Unset => None,
            MetadataView::Initial { version, .. } => Some(version),
            MetadataView::Loading { version, .. } => Some(version),
            MetadataView::Running { version, .. } => Some(version),
        }
    }

    /// The same record with another name; an unset record stays unset.
    pub open spec fn with_name(self, new_name: Seq<char>) -> MetadataView {
        match self {
            MetadataView::Unset => MetadataView::Unset,
            MetadataView::Initial { name, version } => MetadataView::Initial {
                name: new_name,
                version,
            },
            MetadataView::Loading {
                uploaded_graph_chunks,
                uploaded_datamap_chunks,
                uploaded_backlinks_chunks,
                chunk_byte_size,
                name,
                version,
                db_key,
            } => MetadataView::Loading {
                uploaded_graph_chunks,
                uploaded_datamap_chunks,
                uploaded_backlinks_chunks,
                chunk_byte_size,
                name: new_name,
                version,
                db_key,
            },
            MetadataView::Running { name, version, next_free_id } => MetadataView::Running {
                name: new_name,
                version,
                next_free_id,
            },
        }
    }

    /// The same record with another version; an unset record stays unset.
    pub open spec fn with_version(self, new_version: Seq<char>) -> MetadataView {
        match self {
            MetadataView::Unset => MetadataView::Unset,
            MetadataView::Initial { name, version } => MetadataView::Initial {
                name,
                version: new_version,
            },
            MetadataView::Loading {
                uploaded_graph_chunks,
                uploaded_datamap_chunks,
                uploaded_backlinks_chunks,
                chunk_byte_size,
                name,
                version,
                db_key,
            } => MetadataView::Loading {
                uploaded_graph_chunks,
                uploaded_datamap_chunks,
                uploaded_backlinks_chunks,
                chunk_byte_size,
                name,
                version: new_version,
                db_key,
            },
            MetadataView::Running { name, version, next_free_id } => MetadataView::Running {
                name,
                version: new_version,
                next_free_id,
            },
        }
    }

    /// The same record with another upload key; only `Loading` has one.
    pub open spec fn with_db_key(self, new_key: Seq<char>) -> MetadataView {
        match self {
            MetadataView::Loading {
                uploaded_graph_chunks,
                uploaded_datamap_chunks,
                uploaded_backlinks_chunks,
                chunk_byte_size,
                name,
                version,
                db_key,
            } => MetadataView::Loading {
                uploaded_graph_chunks,
                uploaded_datamap_chunks,
                uploaded_backlinks_chunks,
                chunk_byte_size,
                name,
                version,
                db_key: new_key,
            },
            other => other,
        }
    }

    /// The same record with another next free id; only `Running` has one.
    pub open spec fn with_next_free_id(self, next: u32) -> MetadataView {
        match self {
            MetadataView::Running { name, version, next_free_id } => MetadataView::Running {
                name,
                version,
                next_free_id: next,
            },
            other => other,
        }
    }

    /// 0 for `Initial`, 1 for `Loading`, 2 for `Running`.
    pub open spec fn status_code(self) -> Option<u8> {
        match self {
            MetadataView::Unset => None,
            MetadataView::Initial { .. } => Some(0u8),
            MetadataView::Loading { .. } => Some(1u8),
            MetadataView::Running { .. } => Some(2u8),
        }
    }
}

impl View for InitialMetadata {
    type V = MetadataView;

    open spec fn view(&self) -> MetadataView {
        MetadataView::Initial { name: self.name@, version: self.version@ }
    }
}

impl View for LoadingMetadata {
    type V = MetadataView;

    open spec fn view(&self) -> MetadataView {
        MetadataView::Loading {
            uploaded_graph_chunks: self.uploaded_graph_chunks@,
            uploaded_datamap_chunks: self.uploaded_datamap_chunks@,
            uploaded_backlinks_chunks: self.uploaded_backlinks_chunks@,
            chunk_byte_size: self.chunk_byte_size,
            name: self.name@,
            version: self.version@,
            db_key: self.db_key@,
        }
    }
}

impl View for RunningMetadata {
    type V = MetadataView;

    open spec fn view(&self) -> MetadataView {
        MetadataView::Running {
            name: self.name@,
            version: self.version@,
            next_free_id: self.next_free_id,
        }
    }
}

impl View for Metadata {
    type V = MetadataView;

    open spec fn view(&self) -> MetadataView {
        match self {
            Metadata::Unset => MetadataView::Unset,
            Metadata::Initial(m) => m@,
            Metadata::Loading(m) => m@,
            Metadata::Running(m) => m@,
        }
    }
}

impl InitialMetadata {
    /// A copy with the same content.
    pub fn duplicate(&self) -> (r: Self)
        ensures
            r@ == self@,
    {
        InitialMetadata { name: self.name.clone(), version: self.version.clone() }
    }
}

impl LoadingMetadata {
    /// A copy with the same content.
    pub fn duplicate(&self) -> (r: Self)
        ensures
            r@ == self@,
    {
        LoadingMetadata {
            uploaded_graph_chunks: self.uploaded_graph_chunks.clone(),
            uploaded_datamap_chunks: self.uploaded_datamap_chunks.clone(),
            uploaded_backlinks_chunks: self.uploaded_backlinks_chunks.clone(),
            chunk_byte_size: self.chunk_byte_size,
            name: self.name.clone(),
            version: self.version.clone(),
            db_key: self.db_key.clone(),
        }
    }
}

impl RunningMetadata {
    /// A copy with the same content.
    pub fn duplicate(&self) -> (r: Self)
        ensures
            r@ == self@,
    {
        RunningMetadata {
            name: self.name.clone(),
            version: self.version.clone(),
            next_free_id: self.next_free_id,
        }
    }
}

impl Metadata {
    /// Replaces the content of the cell.
    pub fn update(&mut self, new_metadata: Metadata)
        ensures
            final(self)@ == new_metadata@,
    {
        *self = new_metadata;
    }

    /// A copy of the content of the cell.
    pub fn get(&self) -> (r: Metadata)
        ensures
            r@ == self@,
    {
        match self {
            Metadata::Unset => Metadata::Unset,
            Metadata::Initial(m) => Metadata::Initial(m.duplicate()),
            Metadata::Loading(m) => Metadata::Loading(m.duplicate()),
            Metadata::Running(m) => Metadata::Running(m.duplicate()),
        }
    }

    /// The index's name; `None` where nothing was ever stored.
    pub fn get_name(&self) -> (r: Option<String>)
        ensures
            r is Some <==> self@.name() is Some,
            r matches Some(n) ==> self@.name() == Some(n@),
    {
        match self {
            Metadata::Unset => None,
            Metadata::Initial(m) => Some(m.name.clone()),
            Metadata::Loading(m) => Some(m.name.clone()),
            Metadata::Running(m) => Some(m.name.clone()),
        }
    }

    /// The index's version; `None` where nothing was ever stored.
    pub fn get_version(&self) -> (r: Option<String>)
        ensures
            r is Some <==> self@.version() is Some,
            r matches Some(v) ==> self@.version() == Some(v@),
    {
        match self {
            Metadata::Unset => None,
            Metadata::Initial(m) => Some(m.version.clone()),
            Metadata::Loading(m) => Some(m.version.clone()),
            Metadata::Running(m) => Some(m.version.clone()),
        }
    }

    /// The upload key, which only a loading index has.
    pub fn get_db_key(&self) -> (r: Result<String, ()>)
        ensures
            r is Ok <==> self@ is Loading,
            r matches Ok(k) ==> self@ matches MetadataView::Loading { db_key, .. } && db_key == k@,
    {
        match self {
            Metadata::Loading(m) => Ok(m.db_key.clone()),
            _ => Err(()),
        }
    }

    /// Sets the version. Fails, changing nothing, where nothing was ever stored.
    pub fn change_version(&mut self, version: String) -> (r: Result<(), ()>)
        ensures
            r is Ok <==> !(old(self)@ is Unset),
            final(self)@ == old(self)@.with_version(version@),
    {
        let next: Metadata = match self.get() {
            Metadata::Initial(mut m) => {
                m.version = version;
                Metadata::Initial(m)
            },
            Metadata::Loading(mut m) => {
                m.version = version;
                Metadata::Loading(m)
            },
            Metadata::Running(mut m) => {
                m.version = version;
                Metadata::Running(m)
            },
            Metadata::Unset => {
                return Err(());
            },
        };
        self.update(next);
        Ok(())
    }

    /// Sets the name. Fails, changing nothing, where nothing was ever stored.
    pub fn change_name(&mut self, name: String) -> (r: Result<(), ()>)
        ensures
            r is Ok <==> !(old(self)@ is Unset),
            final(self)@ == old(self)@.with_name(name@),
    {
        let next: Metadata = match self.get() {
            Metadata::Initial(mut m) => {
                m.name = name;
                Metadata::Initial(m)
            },
            Metadata::Loading(mut m) => {
                m.name = name;
                Metadata::Loading(m)
            },
            Metadata::Running(mut m) => {
                m.name = name;
                Metadata::Running(m)
            },
            Metadata::Unset => {
                return Err(());
            },
        };
        self.update(next);
        Ok(())
    }

    /// Sets the upload key of a loading index. Fails, changing nothing, in
    /// any other phase.
    pub fn change_db_key(&mut self, db_key: String) -> (r: Result<(), ()>)
        ensures
            r is Ok <==> old(self)@ is Loading,
            final(self)@ == old(self)@.with_db_key(db_key@),
    {
        let next: Metadata = match self.get() {
            Metadata::Loading(mut m) => {
                m.db_key = db_key;
                Metadata::Loading(m)
            },
            _ => {
                return Err(());
            },
        };
        self.update(next);
        Ok(())
    }

    /// The phase as a number: 0 initial, 1 loading, 2 running; `None` where
    /// nothing was ever stored.
    pub fn status_code(&self) -> (r: Option<u8>)
        ensures
            r == self@.status_code(),
    {
        match self {
            Metadata::Unset => None,
            Metadata::Initial(_) => Some(0),
            Metadata::Loading(_) => Some(1),
            Metadata::Running(_) => Some(2),
        }
    }
}

} // verus!
