//! Chunks of a file's text, and the files that the chunker hands on.

use crate::indexing::{IndexingEntryHandle, IndexingEntrySet};
use crate::keys::{compare_keys, KeyOrder};
use crate::worktree::{Entry, MTime};
use vstd::prelude::*;
use vstd::string::StringSliceAdditionalSpecFns;
use vstd::utf8::{
    decode_utf8, encode_utf8, encode_utf8_decode_utf8, encode_utf8_valid_utf8, is_char_boundary,
    is_char_boundary_iff_not_is_continuation_byte, is_char_boundary_start_end_of_seq, valid_utf8,
    valid_utf8_split,
};

verus! {

/// A slice of a file's text, given by its byte range, with the digest of its
/// content and the label that the chunker gave it, if any.
#[derive(Debug, PartialEq, Eq)]
pub struct Chunk {
    pub range: core::ops::Range<usize>,
    pub digest: [u8; 32],
    pub label: Option<String>,
}

/// The byte range from `start` to `end` is a slice of the text with the
/// UTF-8 encoding `bytes`: it lies within the text and neither end splits a
/// character.
pub open spec fn range_fits(bytes: Seq<u8>, start: int, end: int) -> bool {
    &&& 0 <= start <= end <= bytes.len()
    &&& is_char_boundary(bytes, start)
    &&& is_char_boundary(bytes, end)
}

impl Chunk {
    /// The range of the chunk is a slice of `text`.
    pub open spec fn fits(&self, text: Seq<char>) -> bool {
        range_fits(encode_utf8(text), self.range.start as int, self.range.end as int)
    }

    /// `true` exactly when the range of the chunk is a slice of `text`.
    pub fn fits_text(&self, text: &str) -> (fits: bool)
        ensures
            fits == self.fits(text@),
    {
        self.range.start <= self.range.end && self.range.end <= text.as_bytes().len()
            && text.is_char_boundary(self.range.start) && text.is_char_boundary(self.range.end)
    }

    /// The slice of `text` that the chunk stands for.
    pub fn slice_of<'a>(&self, text: &'a str) -> (slice: &'a str)
        requires
            self.fits(text@),
        ensures
            slice.spec_bytes() == text.spec_bytes().subrange(
                self.range.start as int,
                self.range.end as int,
            ),
    {
        let (head, _) = text.split_at(self.range.end);
        proof {
            encode_utf8_valid_utf8(text@);
            lemma_boundary_in_prefix(
                text.spec_bytes(),
                self.range.start as int,
                self.range.end as int,
            );
        }
        let (_, slice) = head.split_at(self.range.start);
        assert(slice.spec_bytes() =~= text.spec_bytes().subrange(
            self.range.start as int,
            self.range.end as int,
        ));
        slice
    }
}

/// A character boundary of a text is one of each prefix of the text that
/// reaches it and ends at a boundary.
pub proof fn lemma_boundary_in_prefix(bytes: Seq<u8>, start: int, end: int)
    requires
        valid_utf8(bytes),
        range_fits(bytes, start, end),
    ensures
        valid_utf8(bytes.subrange(0, end)),
        is_char_boundary(bytes.subrange(0, end), start),
{
    let prefix = bytes.subrange(0, end);
    valid_utf8_split(bytes, end);
    if start == end {
        is_char_boundary_start_end_of_seq(prefix);
    } else {
        is_char_boundary_iff_not_is_continuation_byte(bytes, start);
        is_char_boundary_iff_not_is_continuation_byte(prefix, start);
    }
}

/// `true` exactly when every chunk of `chunks` is a slice of `text`.
pub fn chunks_fit(text: &str, chunks: &Vec<Chunk>) -> (fit: bool)
    ensures
        fit == (forall|i: int| 0 <= i < chunks@.len() ==> (#[trigger] chunks@[i]).fits(text@)),
{
    let mut i: usize = 0;
    while i < chunks.len()
        invariant
            i <= chunks@.len(),
            forall|k: int| 0 <= k < i ==> (#[trigger] chunks@[k]).fits(text@),
        decreases chunks@.len() - i,
    {
        if !chunks[i].fits_text(text) {
            return false;
        }
        i += 1;
    }
    true
}

/// A file as the chunker hands it on: its text and the chunks of the text,
/// in their order, with the token of the file's registration.
#[derive(Debug, PartialEq, Eq)]
pub struct ChunkedFile {
    pub path: String,
    pub mtime: Option<MTime>,
    pub handle: IndexingEntryHandle,
    pub text: String,
    pub chunks: Vec<Chunk>,
}

impl ChunkedFile {
    /// Every chunk is a slice of the text.
    pub open spec fn wf(&self) -> bool {
        forall|i: int| 0 <= i < self.chunks@.len() ==> (#[trigger] self.chunks@[i]).fits(self.text@)
    }

    /// `true` exactly when every chunk is a slice of the text.
    pub fn is_well_formed(&self) -> (wf: bool)
        ensures
            wf == self.wf(),
    {
        chunks_fit(self.text.as_str(), &self.chunks)
    }
}

/// The extensions of the formats whose text is extracted by document
/// conversion: office documents, PDF, images, audio, markup, data, e-books,
/// archives and mail.
pub const MARKITDOWN_EXTENSIONS: [&'static str; 39] = [
    "docx", "pptx", "xlsx", "xls", "xlsm", "xlsb", "xla", "xlam",
    "odt", "ods", "odp",
    "pdf",
    "jpg", "jpeg", "png", "gif", "bmp", "tiff", "tif", "webp", "ico", "svg",
    "wav", "mp3", "m4a", "aac", "ogg", "flac",
    "html", "htm", "xml", "json",
    "csv", "tsv", "txt",
    "epub",
    "zip",
    "msg", "eml",
];

/// `extension` is one of [`MARKITDOWN_EXTENSIONS`], letter for letter.
pub open spec fn is_markitdown_extension(extension: Seq<char>) -> bool {
    exists|i: int| 0 <= i < 39 && (#[trigger] MARKITDOWN_EXTENSIONS[i])@ == extension
}

/// `true` exactly when `extension` is one of [`MARKITDOWN_EXTENSIONS`].
pub fn uses_markitdown(extension: &str) -> (listed: bool)
    ensures
        listed == is_markitdown_extension(extension@),
{
    let mut i: usize = 0;
    while i < 39
        invariant
            i <= 39,
            forall|k: int| 0 <= k < i ==> (#[trigger] MARKITDOWN_EXTENSIONS[k])@ != extension@,
        decreases 39 - i,
    {
        if compare_keys(MARKITDOWN_EXTENSIONS[i], extension) == KeyOrder::Equal {
            return true;
        }
        i += 1;
    }
    false
}

/// The extension of a path as `Path::extension` of std gives it.
pub uninterp spec fn path_extension(path: Seq<char>) -> Option<Seq<char>>;

/// `Path::extension` of std, on a path given as a string: the part of the
/// path's file name behind its last dot, where std finds one. The contract
/// names the result and says no more of it.
#[verifier::external_body]
fn extension_of(path: &str) -> (extension: Option<String>)
    ensures
        match extension {
            Some(extension) => path_extension(path@) == Some(extension@),
            None => path_extension(path@) is None,
        },
{
    match std::path::Path::new(path).extension() {
        Some(extension) => Some(extension.to_string_lossy().into_owned()),
        None => None,
    }
}

/// How the text of a file is had.
#[derive(Clone, Copy, Debug, PartialEq, Eq, Structural)]
pub enum TextSource {
    /// The file is converted to Markdown.
    Markitdown,
    /// The file is loaded as the text that it is.
    PlainText,
}

/// The source of the text of a file with the extension `extension`:
/// conversion for the extensions of [`MARKITDOWN_EXTENSIONS`], loading for
/// all others and for a file without extension.
pub open spec fn source_for_extension(extension: Option<Seq<char>>) -> TextSource {
    match extension {
        Some(extension) => if is_markitdown_extension(extension) {
            TextSource::Markitdown
        } else {
            TextSource::PlainText
        },
        None => TextSource::PlainText,
    }
}

/// The source of the text of a file whose path has the extension
/// `extension`.
pub fn text_source_for_extension(extension: Option<&str>) -> (source: TextSource)
    ensures
        source == source_for_extension(
            match extension {
                Some(extension) => Some(extension@),
                None => None,
            },
        ),
{
    match extension {
        Some(extension) => if uses_markitdown(extension) {
            TextSource::Markitdown
        } else {
            TextSource::PlainText
        },
        None => TextSource::PlainText,
    }
}

/// The source of the text of the file at `path`.
pub fn text_source(path: &str) -> (source: TextSource)
    ensures
        source == source_for_extension(path_extension(path@)),
{
    match extension_of(path) {
        Some(extension) => text_source_for_extension(Some(extension.as_str())),
        None => text_source_for_extension(None),
    }
}

/// The path by which the language of a text is looked up: that of a
/// Markdown file for a converted document, the file's own path otherwise.
pub fn language_path(path: &str, source: TextSource) -> (hint: String)
    ensures
        hint@ == match source {
            TextSource::Markitdown => "file.md"@,
            TextSource::PlainText => path@,
        },
{
    match source {
        TextSource::Markitdown => "file.md".to_owned(),
        TextSource::PlainText => path.to_owned(),
    }
}

/// `String::from_utf8` of std: the string whose UTF-8 encoding is `bytes`,
/// or nothing where `bytes` is not the encoding of a string.
#[verifier::external_body]
fn string_from_utf8(bytes: Vec<u8>) -> (text: Option<String>)
    ensures
        match text {
            Some(text) => encode_utf8(text@) == bytes@,
            None => !valid_utf8(bytes@),
        },
{
    match String::from_utf8(bytes) {
        Ok(text) => Some(text),
        Err(_) => None,
    }
}

/// The text that `String::from_utf8_lossy` of std makes of bytes.
pub uninterp spec fn lossy_text(bytes: Seq<u8>) -> Seq<char>;

/// `String::from_utf8_lossy` of std: `bytes` as a string, with a replacement
/// character where they are not UTF-8. The contract names the result and
/// says no more of it.
#[verifier::external_body]
fn string_from_utf8_lossy(bytes: &[u8]) -> (text: String)
    ensures
        text@ == lossy_text(bytes@),
{
    String::from_utf8_lossy(bytes).into_owned()
}

/// Why the conversion of a document gave no text.
#[derive(Debug, PartialEq, Eq)]
pub enum ConversionError {
    /// The converter went through, and what it wrote is not UTF-8.
    InvalidUtf8,
    /// The converter reported a failure, with this text on its error output.
    Failed(String),
}

/// What the run of the document converter gave: the text that it wrote to
/// its output, where it went through and the output is UTF-8.
pub fn conversion_output(succeeded: bool, stdout: Vec<u8>, stderr: &[u8]) -> (output: Result<
    String,
    ConversionError,
>)
    ensures
        match output {
            Ok(text) => succeeded && valid_utf8(stdout@) && text@ == decode_utf8(stdout@),
            Err(ConversionError::InvalidUtf8) => succeeded && !valid_utf8(stdout@),
            Err(ConversionError::Failed(message)) => !succeeded && message@ == lossy_text(stderr@),
        },
{
    if succeeded {
        match string_from_utf8(stdout) {
            Some(text) => {
                proof {
                    encode_utf8_valid_utf8(text@);
                    encode_utf8_decode_utf8(text@);
                }
                Ok(text)
            },
            None => Err(ConversionError::InvalidUtf8),
        }
    } else {
        Err(ConversionError::Failed(string_from_utf8_lossy(stderr)))
    }
}

/// What the chunker hands on.
#[derive(Debug)]
pub struct ChunkFiles {
    pub files: Vec<ChunkedFile>,
}

/// The chunked file of `entry`: its path and modification token, with the
/// text and the chunks that were made of it.
pub open spec fn chunked_file_of(
    entry: Entry,
    handle: IndexingEntryHandle,
    text: String,
    chunks: Vec<Chunk>,
) -> ChunkedFile {
    ChunkedFile { path: entry.path, mtime: entry.mtime, handle, text, chunks }
}

/// One file through the chunker. `loaded` is the text of the file with its
/// chunks, or `None` where the text could not be had. A file with its text
/// is handed on and stays registered. A file without is passed over: its
/// token goes back to `entries_being_indexed`, and nothing is recorded of
/// it.
pub fn chunk_file(
    entry: Entry,
    handle: IndexingEntryHandle,
    loaded: Option<(String, Vec<Chunk>)>,
    entries_being_indexed: &mut IndexingEntrySet,
) -> (file: Option<ChunkedFile>)
    requires
        old(entries_being_indexed).wf(),
    ensures
        final(entries_being_indexed).wf(),
        match loaded {
            Some((text, chunks)) => file == Some(chunked_file_of(entry, handle, text, chunks))
                && final(entries_being_indexed)@ == old(entries_being_indexed)@,
            None => file is None && final(entries_being_indexed)@ == old(
                entries_being_indexed,
            )@.remove(handle.entry_id),
        },
{
    match loaded {
        Some((text, chunks)) => Some(
            ChunkedFile { path: entry.path, mtime: entry.mtime, handle, text, chunks },
        ),
        None => {
            entries_being_indexed.release(handle);
            None
        },
    }
}

/// An entry that is to be indexed, with the token of its registration and
/// what loading and chunking its text gave: the text with its chunks, or
/// `None` where the text could not be had.
#[derive(Debug)]
pub struct LoadedEntry {
    pub entry: Entry,
    pub handle: IndexingEntryHandle,
    pub loaded: Option<(String, Vec<Chunk>)>,
}

/// The files that the chunker hands on of `items`: one for each entry whose
/// text was had, in the order of the entries.
pub open spec fn chunked_files_of(items: Seq<LoadedEntry>) -> Seq<ChunkedFile>
    decreases items.len(),
{
    if items.len() == 0 {
        seq![]
    } else {
        let before = chunked_files_of(items.drop_last());
        let last = items.last();
        match last.loaded {
            Some((text, chunks)) => before.push(
                chunked_file_of(last.entry, last.handle, text, chunks),
            ),
            None => before,
        }
    }
}

/// The registry after the chunker has gone through `items`: the token of
/// every entry whose text could not be had has been given back.
pub open spec fn release_unloaded(registry: Set<u64>, items: Seq<LoadedEntry>) -> Set<u64>
    decreases items.len(),
{
    if items.len() == 0 {
        registry
    } else {
        let before = release_unloaded(registry, items.drop_last());
        match items.last().loaded {
            Some(_) => before,
            None => before.remove(items.last().handle.entry_id),
        }
    }
}

/// The chunker: hands on, in their order, the entries whose text was had,
/// each as a chunked file, and passes over the others.
pub fn chunk_files(items: Vec<LoadedEntry>, entries_being_indexed: &mut IndexingEntrySet) -> (chunked:
    ChunkFiles)
    requires
        old(entries_being_indexed).wf(),
    ensures
        final(entries_being_indexed).wf(),
        chunked.files@ == chunked_files_of(items@),
        final(entries_being_indexed)@ == release_unloaded(old(entries_being_indexed)@, items@),
{
    let ghost all = items@;
    let ghost registry = entries_being_indexed@;
    let mut files: Vec<ChunkedFile> = Vec::new();
    proof {
        assert(all.take(0) =~= Seq::<LoadedEntry>::empty());
    }
    for item in it: items
        invariant
            it.seq() == all,
            entries_being_indexed.wf(),
            files@ == chunked_files_of(all.take(it.index())),
            entries_being_indexed@ == release_unloaded(registry, all.take(it.index())),
    {
        proof {
            let k = it.index();
            assert(all.take(k + 1).drop_last() =~= all.take(k));
            assert(all.take(k + 1).last() == item);
        }
        match chunk_file(item.entry, item.handle, item.loaded, entries_being_indexed) {
            Some(file) => {
                files.push(file);
            },
            None => {},
        }
    }
    proof {
        assert(all.take(all.len() as int) =~= all);
    }
    ChunkFiles { files }
}

} // verus!
