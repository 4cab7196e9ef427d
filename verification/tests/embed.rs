use semantic_index::chunking::{chunk_file, chunk_files, chunks_fit, Chunk, ChunkedFile, LoadedEntry};
use semantic_index::embed::{
    assemble_embedded_files, chunks_to_embed, collect_embeddings, count_chunks, embedding_batches,
};
use semantic_index::embedding_index::EmbeddingIndex;
use semantic_index::indexing::{IndexingEntryHandle, IndexingEntrySet};
use semantic_index::store::Database;
use semantic_index::worktree::{Entry, EntryKind, MTime};

fn chunk(start: usize, end: usize, tag: u8) -> Chunk {
    Chunk { range: start..end, digest: [tag; 32], label: None }
}

fn chunked(id: u64, path: &str, text: &str, chunks: Vec<Chunk>, registry: &mut IndexingEntrySet) -> ChunkedFile {
    ChunkedFile {
        path: path.to_string(),
        mtime: Some(MTime::from_seconds_and_nanos(3, 4)),
        handle: registry.insert(id),
        text: text.to_string(),
        chunks,
    }
}

#[test]
fn file_with_a_failed_chunk_is_not_stored() {
    let mut index: EmbeddingIndex<Vec<f32>> = EmbeddingIndex::new(Database::new());
    let mut registry = IndexingEntrySet::new();
    let file = chunked(
        1,
        "a.rs",
        "one two three",
        vec![chunk(0, 3, 1), chunk(4, 7, 2), chunk(8, 13, 3)],
        &mut registry,
    );
    // one text to a sub-batch; the provider fails on the second
    let results = vec![Some(vec![vec![1.0f32]]), None, Some(vec![vec![3.0f32]])];
    let embedded = EmbeddingIndex::embed_files(vec![file], 1, results, &mut registry);
    assert!(embedded.files.is_empty());
    assert!(registry.is_empty());
    for (file, handle) in embedded.files {
        index.save_embedded_file(file, handle, &mut registry);
    }
    assert!(index.paths().is_empty());
    assert!(index.chunks_for_path("a.rs").is_err());
}

#[test]
fn indexed_file_round_trips_through_the_store() {
    let mut index: EmbeddingIndex<Vec<f32>> = EmbeddingIndex::new(Database::new());
    let mut registry = IndexingEntrySet::new();
    let file = chunked(1, "a.rs", "one two", vec![chunk(0, 3, 1), chunk(4, 7, 2)], &mut registry);
    let results = vec![Some(vec![vec![1.0f32, 1.5], vec![2.0f32, 2.5]])];
    let embedded = EmbeddingIndex::embed_files(vec![file], 8, results, &mut registry);
    assert_eq!(embedded.files.len(), 1);
    assert_eq!(registry.len(), 1);
    for (file, handle) in embedded.files {
        assert_eq!(file.text, "one two");
        assert_eq!(file.mtime, Some(MTime::from_seconds_and_nanos(3, 4)));
        index.save_embedded_file(file, handle, &mut registry);
    }
    assert!(registry.is_empty());
    let chunks = index.chunks_for_path("a.rs").unwrap();
    assert_eq!(chunks.len(), 2);
    assert_eq!(chunks[0].chunk, chunk(0, 3, 1));
    assert_eq!(chunks[0].embedding, vec![1.0f32, 1.5]);
    assert_eq!(chunks[1].chunk, chunk(4, 7, 2));
    assert_eq!(chunks[1].embedding, vec![2.0f32, 2.5]);
}

#[test]
fn failed_sub_batch_drops_every_file_it_touches() {
    let mut registry = IndexingEntrySet::new();
    let files = vec![
        chunked(1, "a", "aaaa", vec![chunk(0, 2, 1), chunk(2, 4, 2)], &mut registry),
        chunked(2, "b", "bbbb", vec![chunk(0, 4, 3)], &mut registry),
        chunked(3, "c", "cccc", vec![chunk(0, 1, 4), chunk(1, 4, 5)], &mut registry),
    ];
    // sub-batches of two texts: [a0 a1] [b0 c0] [c1]; the second fails
    let results = vec![Some(vec![10u32, 11]), None, Some(vec![14u32])];
    let embedded = EmbeddingIndex::embed_files(files, 2, results, &mut registry);
    assert_eq!(embedded.files.len(), 1);
    assert_eq!(embedded.files[0].0.path, "a");
    assert_eq!(embedded.files[0].1, IndexingEntryHandle { entry_id: 1 });
    let embeddings: Vec<u32> = embedded.files[0].0.chunks.iter().map(|c| c.embedding).collect();
    assert_eq!(embeddings, vec![10, 11]);
    assert_eq!(registry.len(), 1);
    assert!(registry.contains(1));
}

#[test]
fn answer_of_wrong_length_counts_as_failure() {
    let mut registry = IndexingEntrySet::new();
    let files = vec![
        chunked(1, "a", "aaaa", vec![chunk(0, 2, 1), chunk(2, 4, 2)], &mut registry),
        chunked(2, "b", "bbbb", vec![chunk(0, 4, 3)], &mut registry),
    ];
    // the first sub-batch holds two texts and gets one embedding
    let results = vec![Some(vec![10u32]), Some(vec![12u32])];
    let embedded = EmbeddingIndex::embed_files(files, 2, results, &mut registry);
    assert_eq!(embedded.files.len(), 1);
    assert_eq!(embedded.files[0].0.path, "b");
    assert_eq!(embedded.files[0].0.chunks[0].embedding, 12);
}

#[test]
fn missing_answers_count_as_failure() {
    let mut registry = IndexingEntrySet::new();
    let files = vec![
        chunked(1, "a", "aaaa", vec![chunk(0, 4, 1)], &mut registry),
        chunked(2, "b", "bbbb", vec![chunk(0, 4, 2)], &mut registry),
    ];
    let embedded = EmbeddingIndex::embed_files(files, 1, vec![Some(vec![7u32])], &mut registry);
    assert_eq!(embedded.files.len(), 1);
    assert_eq!(embedded.files[0].0.path, "a");
    assert!(!registry.contains(2));
}

#[test]
fn file_without_chunks_is_handed_on() {
    let mut registry = IndexingEntrySet::new();
    let files = vec![chunked(1, "empty", "", Vec::new(), &mut registry)];
    let embedded: semantic_index::embed::EmbedFiles<u32> =
        EmbeddingIndex::embed_files(files, 4, Vec::new(), &mut registry);
    assert_eq!(embedded.files.len(), 1);
    assert!(embedded.files[0].0.chunks.is_empty());
}

#[test]
fn sub_batches_cover_all_texts() {
    assert_eq!(embedding_batches(0, 3), Vec::<std::ops::Range<usize>>::new());
    assert_eq!(embedding_batches(7, 3), vec![0..3, 3..6, 6..7]);
    assert_eq!(embedding_batches(6, 3), vec![0..3, 3..6]);
    assert_eq!(embedding_batches(2, 5), vec![0..2]);
    assert_eq!(embedding_batches(3, 1), vec![0..1, 1..2, 2..3]);
}

#[test]
fn embeddings_are_laid_out_by_sub_batch() {
    let results = vec![Some(vec![1u8, 2]), None, Some(vec![5u8])];
    assert_eq!(
        collect_embeddings(5, 2, results),
        vec![Some(1), Some(2), None, None, Some(5)]
    );
    assert_eq!(collect_embeddings(3, 2, vec![Some(vec![1u8, 2])]), vec![Some(1), Some(2), None]);
    assert_eq!(collect_embeddings(2, 2, vec![Some(vec![1u8, 2, 3])]), vec![None, None]);
    assert_eq!(collect_embeddings(0, 2, vec![Some(vec![1u8])]), Vec::<Option<u8>>::new());
}

#[test]
fn embeddings_past_the_end_count_as_missing() {
    let mut registry = IndexingEntrySet::new();
    let files = vec![
        chunked(1, "a", "aaaa", vec![chunk(0, 4, 1)], &mut registry),
        chunked(2, "b", "bbbb", vec![chunk(0, 2, 2), chunk(2, 4, 3)], &mut registry),
        chunked(3, "c", "", Vec::new(), &mut registry),
    ];
    let embedded = assemble_embedded_files(files, vec![Some(1u8), Some(2)], &mut registry);
    let paths: Vec<&str> = embedded.files.iter().map(|(file, _)| file.path.as_str()).collect();
    assert_eq!(paths, vec!["a", "c"]);
    assert_eq!(registry.len(), 2);
}

#[test]
fn texts_for_the_provider_are_the_slices_of_the_chunks() {
    let mut registry = IndexingEntrySet::new();
    let files = vec![
        chunked(1, "a", "héllo wörld", vec![chunk(0, 6, 1), chunk(7, 13, 2)], &mut registry),
        chunked(2, "b", "", Vec::new(), &mut registry),
        chunked(3, "c", "xyz", vec![chunk(1, 1, 3), chunk(0, 3, 4)], &mut registry),
    ];
    assert_eq!(count_chunks(&files), 4);
    let texts = chunks_to_embed(&files);
    let got: Vec<(&str, u8)> = texts.iter().map(|t| (t.text, t.digest[0])).collect();
    assert_eq!(got, vec![("héllo", 1), ("wörld", 2), ("", 3), ("xyz", 4)]);
}

#[test]
fn chunk_must_be_a_slice_of_the_text() {
    let text = "héllo";
    assert!(chunk(0, 6, 0).fits_text(text));
    assert!(chunk(1, 3, 0).fits_text(text));
    assert!(!chunk(1, 2, 0).fits_text(text));
    assert!(!chunk(2, 6, 0).fits_text(text));
    assert!(!chunk(0, 7, 0).fits_text(text));
    assert!(!chunk(3, 1, 0).fits_text(text));
    assert!(chunk(6, 6, 0).fits_text(text));
    assert!(chunks_fit(text, &vec![chunk(0, 1, 0), chunk(3, 6, 0)]));
    assert!(!chunks_fit(text, &vec![chunk(0, 1, 0), chunk(2, 6, 0)]));
    let mut registry = IndexingEntrySet::new();
    assert!(chunked(1, "a", text, vec![chunk(0, 6, 0)], &mut registry).is_well_formed());
    assert!(!chunked(2, "b", text, vec![chunk(0, 9, 0)], &mut registry).is_well_formed());
}

#[test]
fn file_whose_text_could_not_be_had_is_passed_over() {
    let mut registry = IndexingEntrySet::new();
    let entry = |id: u64, path: &str| Entry {
        id,
        kind: EntryKind::File,
        path: path.to_string(),
        mtime: Some(MTime::from_seconds_and_nanos(9, 0)),
    };
    let first = registry.insert(1);
    let second = registry.insert(2);
    let third = registry.insert(3);
    let chunked = chunk_files(
        vec![
            LoadedEntry {
                entry: entry(1, "a"),
                handle: first,
                loaded: Some(("text".to_string(), vec![chunk(0, 4, 1)])),
            },
            LoadedEntry { entry: entry(2, "b"), handle: second, loaded: None },
            LoadedEntry { entry: entry(3, "c"), handle: third, loaded: Some((String::new(), Vec::new())) },
        ],
        &mut registry,
    );
    assert_eq!(chunked.files.len(), 2);
    assert_eq!(chunked.files[0].path, "a");
    assert_eq!(chunked.files[0].text, "text");
    assert_eq!(chunked.files[0].mtime, Some(MTime::from_seconds_and_nanos(9, 0)));
    assert_eq!(chunked.files[0].chunks, vec![chunk(0, 4, 1)]);
    assert_eq!(chunked.files[0].handle.entry_id, 1);
    assert_eq!(chunked.files[1].path, "c");
    assert_eq!(registry.len(), 2);
    assert!(!registry.contains(2));

    let fourth = registry.insert(4);
    assert!(chunk_file(entry(4, "d"), fourth, None, &mut registry).is_none());
    assert!(!registry.contains(4));
}
