//! The query surface of the index: which paths are indexed, and the chunks
//! of one path.

use crate::embedding_index::{EmbeddedChunk, EmbeddedFile, EmbeddingIndex};
use crate::keys::{db_key, db_key_for_path};
use vstd::prelude::*;

verus! {

/// Why a query failed.
#[derive(Clone, Copy, Debug, PartialEq, Eq, Structural)]
pub enum QueryError {
    /// The store holds no record for the path.
    NoSuchPath,
}

impl QueryError {
    /// The error in words.
    pub fn message(&self) -> (text: String)
        ensures
            text@ == "no such path"@,
    {
        "no such path".to_owned()
    }
}

/// The chunks stored for `path`, if the store holds a record under the key
/// of the path.
pub open spec fn spec_chunks_for_path<E>(
    db: Map<Seq<char>, EmbeddedFile<E>>,
    path: Seq<char>,
) -> Option<Vec<EmbeddedChunk<E>>> {
    if db.contains_key(db_key(path)) {
        Some(db[db_key(path)].chunks)
    } else {
        None
    }
}

impl<E> EmbeddingIndex<E> {
    /// The paths of all records, in the order of their keys.
    pub fn paths(&self) -> (paths: Vec<String>)
        ensures
            paths@.len() == self.spec_db().rows().len(),
            forall|i: int|
                0 <= i < paths@.len() ==> #[trigger] paths@[i] == self.spec_db().rows()[i].file.path,
    {
        let db = self.db();
        let mut paths: Vec<String> = Vec::new();
        let mut i: usize = 0;
        while i < db.len()
            invariant
                i <= db.rows().len(),
                paths@.len() == i,
                forall|k: int| 0 <= k < i ==> #[trigger] paths@[k] == db.rows()[k].file.path,
            decreases db.rows().len() - i,
        {
            paths.push(db.row(i).file.path.clone());
            i += 1;
        }
        paths
    }

    /// The chunks of the record stored for `path`, with their embeddings;
    /// [`QueryError::NoSuchPath`] where the store holds no record for it.
    pub fn chunks_for_path(&self, path: &str) -> (chunks: Result<&Vec<EmbeddedChunk<E>>, QueryError>)
        requires
            self.wf(),
        ensures
            match chunks {
                Ok(chunks) => spec_chunks_for_path(self.spec_db()@, path@) == Some(*chunks),
                Err(error) => error == QueryError::NoSuchPath && spec_chunks_for_path(
                    self.spec_db()@,
                    path@,
                ) is None,
            },
    {
        let key = db_key_for_path(path);
        match self.db().get(key.as_str()) {
            Some(file) => Ok(&file.chunks),
            None => Err(QueryError::NoSuchPath),
        }
    }
}

} // verus!
