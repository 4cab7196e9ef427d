//! The embedder: what is sent to the embedding provider, and how its answers
//! become embedded files.

use crate::chunking::{Chunk, ChunkedFile};
use crate::embedding_index::{EmbeddedChunk, EmbeddedFile, EmbeddingIndex};
use crate::indexing::{IndexingEntryHandle, IndexingEntrySet};
use vstd::prelude::*;
use vstd::string::StringSliceAdditionalSpecFns;
use vstd::utf8::encode_utf8;

verus! {

/// One text for the embedding provider: the slice of a file's text that a
/// chunk stands for, and the digest of the chunk.
#[derive(Debug, PartialEq, Eq)]
pub struct TextToEmbed<'a> {
    pub text: &'a str,
    pub digest: [u8; 32],
}

/// The number of chunks of the first `f` files: the place of the first chunk
/// of the file at `f` among the chunks of all files.
pub open spec fn file_offset(files: Seq<ChunkedFile>, f: int) -> nat
    decreases f,
{
    if f <= 0 {
        0
    } else {
        file_offset(files, f - 1) + files[f - 1].chunks@.len()
    }
}

/// The number of chunks of all files.
pub open spec fn total_chunks(files: Seq<ChunkedFile>) -> nat {
    file_offset(files, files.len() as int)
}

/// The offsets of the files do not decrease from file to file.
pub proof fn lemma_file_offset_monotonic(files: Seq<ChunkedFile>, f: int, g: int)
    requires
        0 <= f <= g,
    ensures
        file_offset(files, f) <= file_offset(files, g),
    decreases g - f,
{
    if f < g {
        lemma_file_offset_monotonic(files, f, g - 1);
    }
}

/// The bytes of the slice that the chunk at `c` of a file stands for.
pub open spec fn chunk_bytes(file: ChunkedFile, c: int) -> Seq<u8> {
    encode_utf8(file.text@).subrange(
        file.chunks@[c].range.start as int,
        file.chunks@[c].range.end as int,
    )
}

/// `texts` holds, for every chunk of every file, in the order of the files
/// and of their chunks, the slice of the text and the digest of the chunk.
pub open spec fn texts_are(texts: Seq<TextToEmbed>, files: Seq<ChunkedFile>) -> bool {
    &&& texts.len() == total_chunks(files)
    &&& forall|f: int, c: int|
        0 <= f < files.len() && 0 <= c < files[f].chunks@.len() ==> {
            &&& encode_utf8((#[trigger] texts[file_offset(files, f) + c]).text@) == chunk_bytes(
                files[f],
                c,
            )
            &&& texts[file_offset(files, f) + c].digest == files[f].chunks@[c].digest
        }
}

/// The texts of a batch of files for the embedding provider: all chunks of
/// all files as one flat sequence.
pub fn chunks_to_embed<'a>(files: &'a Vec<ChunkedFile>) -> (texts: Vec<TextToEmbed<'a>>)
    requires
        forall|f: int| 0 <= f < files@.len() ==> (#[trigger] files@[f]).wf(),
    ensures
        texts_are(texts@, files@),
{
    let mut texts: Vec<TextToEmbed<'a>> = Vec::new();
    let mut f: usize = 0;
    while f < files.len()
        invariant
            f <= files@.len(),
            forall|f: int| 0 <= f < files@.len() ==> (#[trigger] files@[f]).wf(),
            texts@.len() == file_offset(files@, f as int),
            forall|g: int, c: int|
                0 <= g < f && 0 <= c < files@[g].chunks@.len() ==> {
                    &&& encode_utf8((#[trigger] texts@[file_offset(files@, g) + c]).text@)
                        == chunk_bytes(files@[g], c)
                    &&& texts@[file_offset(files@, g) + c].digest == files@[g].chunks@[c].digest
                },
        decreases files@.len() - f,
    {
        let file = &files[f];
        let ghost base = texts@;
        let mut c: usize = 0;
        assert(file.wf());
        while c < file.chunks.len()
            invariant
                c <= file.chunks@.len(),
                file.wf(),
                *file == files@[f as int],
                texts@.len() == base.len() + c,
                base.len() == file_offset(files@, f as int),
                forall|i: int| 0 <= i < base.len() ==> texts@[i] == base[i],
                forall|d: int|
                    0 <= d < c ==> {
                        &&& encode_utf8((#[trigger] texts@[base.len() + d]).text@) == chunk_bytes(
                            *file,
                            d,
                        )
                        &&& texts@[base.len() + d].digest == file.chunks@[d].digest
                    },
            decreases file.chunks@.len() - c,
        {
            let chunk = &file.chunks[c];
            assert(chunk.fits(file.text@));
            let text = chunk.slice_of(file.text.as_str());
            texts.push(TextToEmbed { text, digest: chunk.digest });
            c += 1;
        }
        proof {
            assert forall|g: int, c: int|
                0 <= g < f + 1 && 0 <= c < files@[g].chunks@.len() implies {
                &&& encode_utf8((#[trigger] texts@[file_offset(files@, g) + c]).text@)
                    == chunk_bytes(files@[g], c)
                &&& texts@[file_offset(files@, g) + c].digest == files@[g].chunks@[c].digest
            } by {
                if g < f {
                    lemma_file_offset_monotonic(files@, g + 1, f as int);
                    assert(texts@[file_offset(files@, g) + c] == base[file_offset(files@, g) + c]);
                }
            }
        }
        f += 1;
    }
    texts
}

/// The number of texts in the sub-batch that starts at `start`: the batch
/// size, or what is left of the `total` texts where that is less.
pub open spec fn batch_len(start: nat, total: nat, batch_size: nat) -> nat {
    if total - start <= batch_size {
        (total - start) as nat
    } else {
        batch_size
    }
}

/// The sub-batches of `total` texts from the text at `start` on: consecutive
/// ranges of `batch_size` texts each, the last one shorter where the texts
/// run out.
pub open spec fn batches_from(start: nat, total: nat, batch_size: nat) -> Seq<(nat, nat)>
    decreases total - start,
{
    if start >= total || batch_size == 0 {
        seq![]
    } else {
        let end = start + batch_len(start, total, batch_size);
        seq![(start, end)] + batches_from(end, total, batch_size)
    }
}

/// The sub-batches in which `total` texts are sent to a provider that takes
/// `batch_size` texts at a time.
pub fn embedding_batches(total: usize, batch_size: usize) -> (batches: Vec<core::ops::Range<usize>>)
    requires
        batch_size > 0,
    ensures
        batches@.len() == batches_from(0, total as nat, batch_size as nat).len(),
        forall|k: int|
            0 <= k < batches@.len() ==> {
                &&& (#[trigger] batches@[k]).start == batches_from(
                    0,
                    total as nat,
                    batch_size as nat,
                )[k].0
                &&& batches@[k].end == batches_from(0, total as nat, batch_size as nat)[k].1
            },
{
    let ghost all = batches_from(0, total as nat, batch_size as nat);
    let mut batches: Vec<core::ops::Range<usize>> = Vec::new();
    let mut start: usize = 0;
    let ghost mut done = Seq::<(nat, nat)>::empty();
    proof {
        assert(done + all =~= all);
    }
    while start < total
        invariant
            start <= total,
            batch_size > 0,
            batches@.len() == done.len(),
            forall|k: int|
                0 <= k < done.len() ==> (#[trigger] batches@[k]).start == done[k].0
                    && batches@[k].end == done[k].1,
            done + batches_from(start as nat, total as nat, batch_size as nat) == all,
        decreases total - start,
    {
        let end: usize = if total - start <= batch_size {
            total
        } else {
            start + batch_size
        };
        proof {
            let rest = batches_from(end as nat, total as nat, batch_size as nat);
            assert(done.push((start as nat, end as nat)) + rest =~= done + (seq![
                (start as nat, end as nat),
            ] + rest));
            done = done.push((start as nat, end as nat));
        }
        batches.push(start..end);
        start = end;
    }
    proof {
        assert(done + Seq::<(nat, nat)>::empty() =~= done);
    }
    batches
}

/// The embeddings of one sub-batch of `len` texts: those of the provider's
/// answer, where it answered and gave one embedding for each text; none for
/// any text of the sub-batch otherwise.
pub open spec fn batch_embeddings<E>(len: nat, result: Option<Vec<E>>) -> Seq<Option<E>> {
    match result {
        Some(answer) => if answer@.len() == len {
            Seq::new(len, |i: int| Some(answer@[i]))
        } else {
            Seq::new(len, |i: int| None)
        },
        None => Seq::new(len, |i: int| None),
    }
}

/// The embeddings of `total` texts, one place for each text, from the
/// provider's answers to their sub-batches, `results`, in the order of the
/// sub-batches. A sub-batch for which `results` holds no answer has none.
pub open spec fn flat_embeddings<E>(
    total: nat,
    batch_size: nat,
    results: Seq<Option<Vec<E>>>,
) -> Seq<Option<E>>
    decreases total,
{
    if total == 0 || batch_size == 0 {
        seq![]
    } else {
        let len = batch_len(0, total, batch_size);
        if results.len() == 0 {
            batch_embeddings::<E>(len, None) + flat_embeddings((total - len) as nat, batch_size, results)
        } else {
            batch_embeddings(len, results[0]) + flat_embeddings(
                (total - len) as nat,
                batch_size,
                results.drop_first(),
            )
        }
    }
}

/// There is one place for each text.
pub proof fn lemma_flat_embeddings_len<E>(total: nat, batch_size: nat, results: Seq<Option<Vec<E>>>)
    requires
        batch_size > 0,
    ensures
        flat_embeddings(total, batch_size, results).len() == total,
    decreases total,
{
    if total > 0 {
        let len = batch_len(0, total, batch_size);
        if results.len() == 0 {
            lemma_flat_embeddings_len((total - len) as nat, batch_size, results);
        } else {
            lemma_flat_embeddings_len((total - len) as nat, batch_size, results.drop_first());
        }
    }
}

/// Without answers no text has an embedding.
pub proof fn lemma_flat_embeddings_unanswered<E>(total: nat, batch_size: nat)
    requires
        batch_size > 0,
    ensures
        flat_embeddings::<E>(total, batch_size, seq![]) == Seq::new(
            total,
            |i: int| None::<E>,
        ),
    decreases total,
{
    if total > 0 {
        let len = batch_len(0, total, batch_size);
        lemma_flat_embeddings_unanswered::<E>((total - len) as nat, batch_size);
    }
    assert(flat_embeddings::<E>(total, batch_size, seq![]) =~= Seq::new(
        total,
        |i: int| None::<E>,
    ));
}

/// Puts the provider's answers to the sub-batches of `total` texts into one
/// flat sequence with a place for each text.
pub fn collect_embeddings<E>(total: usize, batch_size: usize, results: Vec<Option<Vec<E>>>) -> (embeddings:
    Vec<Option<E>>)
    requires
        batch_size > 0,
    ensures
        embeddings@ == flat_embeddings(total as nat, batch_size as nat, results@),
{
    let ghost all = results@;
    let ghost flat = flat_embeddings(total as nat, batch_size as nat, all);
    let mut embeddings: Vec<Option<E>> = Vec::new();
    let mut done: usize = 0;
    proof {
        assert(all.skip(0) =~= all);
        assert(embeddings@ + flat =~= flat);
    }
    for result in it: results
        invariant
            it.seq() == all,
            batch_size > 0,
            done <= total,
            embeddings@.len() == done,
            embeddings@ + flat_embeddings(
                (total - done) as nat,
                batch_size as nat,
                all.skip(it.index()),
            ) == flat,
    {
        let ghost k = it.index();
        let ghost rest = all.skip(k);
        proof {
            assert(rest[0] == result);
            assert(rest.drop_first() =~= all.skip(k + 1));
        }
        if done < total {
            let len: usize = if total - done <= batch_size {
                total - done
            } else {
                batch_size
            };
            let ghost base = embeddings@;
            let ghost batch = batch_embeddings(len as nat, result);
            let ghost tail = flat_embeddings(
                (total - done - len) as nat,
                batch_size as nat,
                all.skip(k + 1),
            );
            proof {
                assert(flat_embeddings((total - done) as nat, batch_size as nat, rest) == batch
                    + tail);
            }
            let mut answered = false;
            match result {
                Some(answer) => {
                    if answer.len() == len {
                        answered = true;
                        let ghost given = answer@;
                        for embedding in each: answer
                            invariant
                                each.seq() == given,
                                given.len() == len,
                                embeddings@ == base + Seq::new(
                                    each.index() as nat,
                                    |i: int| Some(given[i]),
                                ),
                        {
                            proof {
                                assert(base + Seq::new(
                                    (each.index() + 1) as nat,
                                    |i: int| Some(given[i]),
                                ) =~= (base + Seq::new(
                                    each.index() as nat,
                                    |i: int| Some(given[i]),
                                )).push(Some(embedding)));
                            }
                            embeddings.push(Some(embedding));
                        }
                    }
                },
                None => {},
            }
            if !answered {
                let mut i: usize = 0;
                while i < len
                    invariant
                        i <= len,
                        embeddings@ == base + Seq::new(i as nat, |j: int| None::<E>),
                    decreases len - i,
                {
                    proof {
                        assert(base + Seq::new((i + 1) as nat, |j: int| None::<E>) =~= (base
                            + Seq::new(i as nat, |j: int| None::<E>)).push(None));
                    }
                    embeddings.push(None);
                    i += 1;
                }
            }
            proof {
                assert(embeddings@ =~= base + batch);
                assert((base + batch) + tail =~= base + (batch + tail));
            }
            done += len;
        } else {
            proof {
                assert(flat_embeddings::<E>(0, batch_size as nat, rest) =~= flat_embeddings::<E>(
                    0,
                    batch_size as nat,
                    all.skip(k + 1),
                ));
            }
        }
    }
    proof {
        assert(all.skip(all.len() as int) =~= Seq::<Option<Vec<E>>>::empty());
        lemma_flat_embeddings_unanswered::<E>((total - done) as nat, batch_size as nat);
    }
    let ghost base = embeddings@;
    let ghost missing = (total - done) as nat;
    let mut i: usize = 0;
    while done < total
        invariant
            done <= total,
            i + (total - done) == missing,
            missing <= total,
            embeddings@ == base + Seq::new(i as nat, |j: int| None::<E>),
        decreases total - done,
    {
        proof {
            assert(base + Seq::new((i + 1) as nat, |j: int| None::<E>) =~= (base + Seq::new(
                i as nat,
                |j: int| None::<E>,
            )).push(None));
        }
        embeddings.push(None);
        i += 1;
        done += 1;
    }
    proof {
        assert(base + Seq::new(0nat, |j: int| None::<E>) =~= base);
    }
    embeddings
}

/// Every chunk of the file at `f` has an embedding: `embeddings` holds one at
/// the place of each of its chunks.
pub open spec fn file_embedded<E>(files: Seq<ChunkedFile>, embeddings: Seq<Option<E>>, f: int) -> bool {
    forall|c: int|
        0 <= c < files[f].chunks@.len() ==> file_offset(files, f) + c < embeddings.len() && (
        #[trigger] embeddings[file_offset(files, f) + c]) is Some
}

/// The positions, among the first `n` files, of the files of which every
/// chunk has an embedding, in increasing order.
pub open spec fn embedded_positions<E>(
    files: Seq<ChunkedFile>,
    embeddings: Seq<Option<E>>,
    n: int,
) -> Seq<int>
    decreases n,
{
    if n <= 0 {
        seq![]
    } else {
        let before = embedded_positions(files, embeddings, n - 1);
        if file_embedded(files, embeddings, n - 1) {
            before.push(n - 1)
        } else {
            before
        }
    }
}

/// The registry after the embedder has gone through the first `n` files:
/// the token of every file that lacks an embedding has been given back.
pub open spec fn release_unembedded<E>(
    registry: Set<u64>,
    files: Seq<ChunkedFile>,
    embeddings: Seq<Option<E>>,
    n: int,
) -> Set<u64>
    decreases n,
{
    if n <= 0 {
        registry
    } else {
        let before = release_unembedded(registry, files, embeddings, n - 1);
        if file_embedded(files, embeddings, n - 1) {
            before
        } else {
            before.remove(files[n - 1].handle.entry_id)
        }
    }
}

/// `embedded` is the record of `file`: its path, modification token and
/// text, and each of its chunks, in their order, with the embedding that
/// `embeddings` holds for it from the place `offset` on.
pub open spec fn is_record_of<E>(
    embedded: EmbeddedFile<E>,
    file: ChunkedFile,
    embeddings: Seq<Option<E>>,
    offset: int,
) -> bool {
    &&& embedded.path == file.path
    &&& embedded.mtime == file.mtime
    &&& embedded.text == file.text
    &&& embedded.chunks@.len() == file.chunks@.len()
    &&& forall|c: int|
        0 <= c < file.chunks@.len() ==> (#[trigger] embedded.chunks@[c]).chunk == file.chunks@[c]
            && embeddings[offset + c] == Some(embedded.chunks@[c].embedding)
}

/// What the embedder hands on: the files of which every chunk has an
/// embedding, each with the token of its registration.
#[derive(Debug)]
pub struct EmbedFiles<E> {
    pub files: Vec<(EmbeddedFile<E>, IndexingEntryHandle)>,
}

impl<E> EmbedFiles<E> {
    /// The files handed on are the records of the files at the positions
    /// `kept` of `files`, in that order, each with the token of its file.
    pub open spec fn records_of(
        &self,
        files: Seq<ChunkedFile>,
        embeddings: Seq<Option<E>>,
        kept: Seq<int>,
    ) -> bool {
        &&& self.files@.len() == kept.len()
        &&& forall|k: int|
            0 <= k < kept.len() ==> {
                &&& 0 <= #[trigger] kept[k] < files.len()
                &&& is_record_of(
                    self.files@[k].0,
                    files[kept[k]],
                    embeddings,
                    file_offset(files, kept[k]) as int,
                )
                &&& self.files@[k].1 == files[kept[k]].handle
            }
    }
}

/// Puts files and embeddings together again: walks the chunks of the files
/// and the embeddings in step. A file of which every chunk has an embedding
/// is handed on with all of them. A file that lacks one is dropped whole,
/// and its token goes back to `entries_being_indexed`.
pub fn assemble_embedded_files<E>(
    chunked_files: Vec<ChunkedFile>,
    embeddings: Vec<Option<E>>,
    entries_being_indexed: &mut IndexingEntrySet,
) -> (embedded: EmbedFiles<E>)
    requires
        old(entries_being_indexed).wf(),
    ensures
        final(entries_being_indexed).wf(),
        embedded.records_of(
            chunked_files@,
            embeddings@,
            embedded_positions(chunked_files@, embeddings@, chunked_files@.len() as int),
        ),
        final(entries_being_indexed)@ == release_unembedded(
            old(entries_being_indexed)@,
            chunked_files@,
            embeddings@,
            chunked_files@.len() as int,
        ),
{
    let ghost all = chunked_files@;
    let ghost given = embeddings@;
    let ghost registry = entries_being_indexed@;
    let mut embeddings = embeddings;
    let len = embeddings.len();
    let mut embedded = EmbedFiles { files: Vec::new() };
    let mut pos: usize = 0;
    let mut exhausted = false;
    for file in it: chunked_files
        invariant
            it.seq() == all,
            entries_being_indexed.wf(),
            embeddings@.len() == len,
            given.len() == len,
            pos <= len,
            !exhausted ==> pos == file_offset(all, it.index()),
            exhausted ==> file_offset(all, it.index()) > len,
            forall|i: int| pos <= i < len ==> embeddings@[i] == given[i],
            embedded.records_of(all, given, embedded_positions(all, given, it.index())),
            entries_being_indexed@ == release_unembedded(registry, all, given, it.index()),
    {
        let ghost f = it.index();
        let ghost offset = file_offset(all, f);
        let ghost kept = embedded_positions(all, given, f);
        let ChunkedFile { path, mtime, handle, text, chunks } = file;
        let n = chunks.len();
        let mut complete = !exhausted && n <= len - pos;
        let mut built: Vec<EmbeddedChunk<E>> = Vec::new();
        if complete {
            let ghost parts = chunks@;
            let mut c: usize = 0;
            for chunk in each: chunks
                invariant
                    each.seq() == parts,
                    c == each.index(),
                    given.len() == len,
                    parts.len() == n,
                    embeddings@.len() == len,
                    pos + n <= len,
                    forall|i: int| pos + each.index() <= i < len ==> embeddings@[i] == given[i],
                    complete <==> forall|d: int|
                        0 <= d < each.index() ==> (#[trigger] given[pos + d]) is Some,
                    complete ==> built@.len() == each.index(),
                    complete ==> forall|d: int|
                        0 <= d < each.index() ==> (#[trigger] built@[d]).chunk == parts[d]
                            && given[pos + d] == Some(built@[d].embedding),
            {
                let ghost d = each.index();
                match embeddings[pos + c].take() {
                    Some(embedding) => {
                        if complete {
                            built.push(EmbeddedChunk { chunk, embedding });
                        }
                    },
                    None => {
                        complete = false;
                    },
                }
                c += 1;
                proof {
                    assert(given[pos + d] is Some ==> (forall|e: int|
                        0 <= e < d ==> (#[trigger] given[pos + e]) is Some) ==> (forall|e: int|
                        0 <= e < d + 1 ==> (#[trigger] given[pos + e]) is Some));
                }
            }
            pos = pos + n;
            proof {
                assert(complete <==> file_embedded(all, given, f)) by {
                    if complete {
                        assert forall|c: int| 0 <= c < all[f].chunks@.len() implies offset + c
                            < given.len() && (#[trigger] given[offset + c]) is Some by {
                            assert(given[(pos - n) + c] is Some);
                        }
                    } else {
                        let d = choose|d: int| 0 <= d < n && !(#[trigger] given[(pos - n) + d] is Some);
                        assert(!(given[offset + d] is Some));
                    }
                }
            }
        } else {
            proof {
                assert(all[f].chunks@.len() == n);
                if n > 0 {
                    let c = if exhausted {
                        0
                    } else {
                        len - pos
                    };
                    assert(0 <= c < n);
                    assert(!(offset + c < given.len() && given[offset + c] is Some));
                }
                assert(n > 0 ==> !file_embedded(all, given, f));
                if n == 0 {
                    assert(file_embedded(all, given, f));
                }
            }
            if n == 0 {
                complete = true;
            } else {
                exhausted = true;
            }
        }
        if complete {
            embedded.files.push((EmbeddedFile { path, mtime, chunks: built, text }, handle));
            proof {
                let kept_now = embedded_positions(all, given, f + 1);
                assert(kept_now == kept.push(f));
                assert forall|k: int| 0 <= k < kept_now.len() implies {
                    &&& 0 <= #[trigger] kept_now[k] < all.len()
                    &&& is_record_of(
                        embedded.files@[k].0,
                        all[kept_now[k]],
                        given,
                        file_offset(all, kept_now[k]) as int,
                    )
                    &&& embedded.files@[k].1 == all[kept_now[k]].handle
                } by {
                    if k < kept.len() {
                        assert(kept_now[k] == kept[k]);
                    }
                }
            }
        } else {
            entries_being_indexed.release(handle);
        }
    }
    embedded
}

/// A file is handed on exactly when every one of its chunks has an
/// embedding, and the files that are handed on keep their order.
pub proof fn lemma_embedded_positions<E>(
    files: Seq<ChunkedFile>,
    embeddings: Seq<Option<E>>,
    n: int,
)
    requires
        0 <= n <= files.len(),
    ensures
        forall|f: int|
            #![trigger embedded_positions(files, embeddings, n).contains(f)]
            embedded_positions(files, embeddings, n).contains(f) <==> 0 <= f < n && file_embedded(
                files,
                embeddings,
                f,
            ),
        forall|j: int, k: int|
            #![trigger embedded_positions(files, embeddings, n)[j], embedded_positions(files, embeddings, n)[k]]
            0 <= j < k < embedded_positions(files, embeddings, n).len() ==> embedded_positions(
                files,
                embeddings,
                n,
            )[j] < embedded_positions(files, embeddings, n)[k],
    decreases n,
{
    let kept = embedded_positions(files, embeddings, n);
    if n > 0 {
        lemma_embedded_positions(files, embeddings, n - 1);
        let before = embedded_positions(files, embeddings, n - 1);
        let last = file_embedded(files, embeddings, n - 1);
        assert(kept == if last {
            before.push(n - 1)
        } else {
            before
        });
        assert forall|f: int| #![trigger kept.contains(f)] kept.contains(f) <==> 0 <= f < n && file_embedded(
            files,
            embeddings,
            f,
        ) by {
            if kept.contains(f) {
                let k = choose|k: int| 0 <= k < kept.len() && kept[k] == f;
                if k < before.len() {
                    assert(before[k] == f);
                    assert(before.contains(f));
                    assert(0 <= f < n - 1 && file_embedded(files, embeddings, f));
                } else {
                    assert(f == n - 1);
                    assert(last);
                }
            }
            if 0 <= f < n && file_embedded(files, embeddings, f) {
                if f < n - 1 {
                    assert(before.contains(f));
                    let k = choose|k: int| 0 <= k < before.len() && before[k] == f;
                    assert(kept[k] == f);
                } else {
                    assert(kept[kept.len() - 1] == f);
                }
            }
        }
        assert forall|j: int, k: int| 0 <= j < k < kept.len() implies #[trigger] kept[j] < #[trigger] kept[k] by {
            assert(before[j] == kept[j]);
            assert(before.contains(before[j]));
            assert(before[j] < n - 1);
            if k < before.len() {
                assert(before[k] == kept[k]);
            }
        }
    }
}

/// The number of chunks of all files.
pub fn count_chunks(files: &Vec<ChunkedFile>) -> (total: usize)
    requires
        total_chunks(files@) <= usize::MAX,
    ensures
        total == total_chunks(files@),
{
    let mut total: usize = 0;
    let mut f: usize = 0;
    while f < files.len()
        invariant
            f <= files@.len(),
            total == file_offset(files@, f as int),
            total_chunks(files@) <= usize::MAX,
        decreases files@.len() - f,
    {
        proof {
            lemma_file_offset_monotonic(files@, f + 1, files@.len() as int);
        }
        total = total + files[f].chunks.len();
        f += 1;
    }
    total
}

impl<E> EmbeddingIndex<E> {
    /// The embedder, on one batch of files. `batch_results` holds what the
    /// provider answered to the sub-batches of
    /// [`embedding_batches`], in their order: the embeddings of a sub-batch,
    /// or `None` where the provider failed on it. An answer that does not
    /// hold one embedding for each text of its sub-batch counts as a
    /// failure, and so does an answer that is missing.
    ///
    /// A file is handed on exactly when every one of its chunks has an
    /// embedding, and then with all of them, in the order of its chunks. A
    /// file that lacks one is dropped whole; its token goes back to
    /// `entries_being_indexed`.
    pub fn embed_files(
        chunked_files: Vec<ChunkedFile>,
        batch_size: usize,
        batch_results: Vec<Option<Vec<E>>>,
        entries_being_indexed: &mut IndexingEntrySet,
    ) -> (embedded: EmbedFiles<E>)
        requires
            batch_size > 0,
            total_chunks(chunked_files@) <= usize::MAX,
            old(entries_being_indexed).wf(),
        ensures
            final(entries_being_indexed).wf(),
            embedded.records_of(
                chunked_files@,
                flat_embeddings(
                    total_chunks(chunked_files@),
                    batch_size as nat,
                    batch_results@,
                ),
                embedded_positions(
                    chunked_files@,
                    flat_embeddings(
                        total_chunks(chunked_files@),
                        batch_size as nat,
                        batch_results@,
                    ),
                    chunked_files@.len() as int,
                ),
            ),
            final(entries_being_indexed)@ == release_unembedded(
                old(entries_being_indexed)@,
                chunked_files@,
                flat_embeddings(
                    total_chunks(chunked_files@),
                    batch_size as nat,
                    batch_results@,
                ),
                chunked_files@.len() as int,
            ),
    {
        let total = count_chunks(&chunked_files);
        let embeddings = collect_embeddings(total, batch_size, batch_results);
        assemble_embedded_files(chunked_files, embeddings, entries_being_indexed)
    }
}

} // verus!
