//! The records of the index and the index itself.

use crate::chunking::Chunk;
use crate::store::Database;
use crate::worktree::MTime;
use vstd::prelude::*;

verus! {

/// How many entries to index may wait between the scanner and the chunker.
pub const UPDATED_ENTRIES_CAPACITY: usize = 512;

/// How many ranges to delete may wait between the scanner and the persister.
pub const DELETED_ENTRY_RANGES_CAPACITY: usize = 128;

/// How many chunked files may wait between the chunker and the embedder.
pub const CHUNKED_FILES_CAPACITY: usize = 2048;

/// How many embedded files may wait between the embedder and the persister.
pub const EMBEDDED_FILES_CAPACITY: usize = 512;

/// The number of chunked files at which the embedder stops gathering a batch.
pub const EMBED_BATCH_FILES: usize = 512;

/// The seconds after which the embedder stops gathering a batch that is not
/// full.
pub const EMBED_BATCH_WAIT_SECONDS: u64 = 2;

/// A chunk together with its embedding.
#[derive(Debug, PartialEq)]
pub struct EmbeddedChunk<E> {
    pub chunk: Chunk,
    pub embedding: E,
}

/// The record of one indexed file.
#[derive(Debug, PartialEq)]
pub struct EmbeddedFile<E> {
    pub path: String,
    pub mtime: Option<MTime>,
    pub chunks: Vec<EmbeddedChunk<E>>,
    pub text: String,
}

/// The index of one file tree: the store of its records. The stages of an
/// indexing pass are its methods; each is defined in the module of its stage.
#[derive(Debug)]
pub struct EmbeddingIndex<E> {
    pub(crate) db: Database<E>,
}

impl<E> EmbeddingIndex<E> {
    /// The store is well formed.
    pub open spec fn wf(&self) -> bool {
        self.spec_db().wf()
    }

    /// The store of the index.
    pub closed spec fn spec_db(&self) -> Database<E> {
        self.db
    }

    /// An index over the store `db`.
    pub fn new(db: Database<E>) -> (index: Self)
        ensures
            index.spec_db() == db,
    {
        EmbeddingIndex { db }
    }

    /// The store of the index.
    pub fn db(&self) -> (db: &Database<E>)
        ensures
            *db == self.spec_db(),
    {
        &self.db
    }

    /// The store of the index, to be changed in place.
    pub(crate) fn db_mut(&mut self) -> (db: &mut Database<E>)
        ensures
            *db == old(self).spec_db(),
            final(self).spec_db() == *final(db),
    {
        &mut self.db
    }
}

} // verus!
