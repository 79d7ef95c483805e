//! The EPUB container, read through the epub crate: what a book's spine, table
//! of contents and resources hold, as plain values.
use vstd::prelude::*;
use std::io::Cursor;
use epub::doc::{DocError, EpubDoc};
use crate::strs::opt_view;
use crate::rootfile::root_file_safe;

verus! {

/// The epub crate's document over an in-memory reader. Verus refuses to declare
/// `EpubDoc` itself (its `Read + Seek` bound names std traits it has no
/// declaration of), so it is held here, out of Verus's sight.
#[verifier::external_body]
pub struct EpubHandle {
    doc: EpubDoc<Cursor<Vec<u8>>>,
}

/// The epub crate's error type, carried through as it is.
#[verifier::external_type_specification]
#[verifier::external_body]
pub struct ExDocError(DocError);

/// An opened EPUB, with the bytes it was read from.
pub struct EpubFile {
    handle: EpubHandle,
    bytes: Vec<u8>,
}

impl EpubFile {
    /// The bytes the book was read from.
    pub closed spec fn source(&self) -> Seq<u8> {
        self.bytes@
    }
}

/// Whether the epub crate can open these bytes as an EPUB (`EpubDoc::from_reader`).
pub uninterp spec fn epub_opens(bytes: Seq<u8>) -> bool;

/// The `idref` of each spine item of the EPUB in `bytes`, in reading order.
pub uninterp spec fn epub_spine(bytes: Seq<u8>) -> Seq<Seq<char>>;

/// The archive path of the resource with id `id`, if there is one.
pub uninterp spec fn epub_resource_path(bytes: Seq<u8>, id: Seq<char>) -> Option<Seq<char>>;

/// The `(label, content path)` of each top-level table-of-contents entry.
pub uninterp spec fn epub_toc(bytes: Seq<u8>) -> Seq<(Seq<char>, Seq<char>)>;

/// The text of the resource with id `id`, if it exists and is valid UTF-8.
pub uninterp spec fn epub_resource_text(bytes: Seq<u8>, id: Seq<char>) -> Option<Seq<char>>;

/// An EPUB that the epub crate refused: its error, with the bytes it was read from.
pub struct OpenFailure {
    error: DocError,
    bytes: Vec<u8>,
}

impl OpenFailure {
    /// The bytes the refused book was read from.
    pub closed spec fn source(&self) -> Seq<u8> {
        self.bytes@
    }
}

/// The text (`Display`) of the error that `EpubDoc::from_reader` gives for `bytes`.
pub uninterp spec fn epub_open_error(bytes: Seq<u8>) -> Seq<char>;

/// `EpubDoc::from_reader` over the bytes (epub crate). It stops the program when
/// the `rootfile` path of the container has no parent, so `requires` leaves out
/// bytes that are not `root_file_safe`. Claims that it succeeds exactly when
/// `epub_opens` says so, and that the opened book, or the refusal, keeps its bytes.
#[verifier::external_body]
pub(crate) fn open_epub(bytes: Vec<u8>) -> (r: Result<EpubFile, OpenFailure>)
    requires
        root_file_safe(bytes@),
    ensures
        r is Ok <==> epub_opens(bytes@),
        r matches Ok(f) ==> f.source() == bytes@,
        r matches Err(f) ==> f.source() == bytes@,
{
    match EpubDoc::from_reader(Cursor::new(bytes.clone())) {
        Ok(doc) => Ok(EpubFile { handle: EpubHandle { doc }, bytes }),
        Err(error) => Err(OpenFailure { error, bytes }),
    }
}

/// The message of the epub crate's error (its `Display`). Claims that it is
/// `epub_open_error` of the refused book's bytes.
#[verifier::external_body]
pub(crate) fn doc_error_message(f: &OpenFailure) -> (r: String)
    ensures
        r@ == epub_open_error(f.source()),
{
    f.error.to_string()
}

/// The `idref`s of the `spine` field of the opened book. Claims they are
/// `epub_spine` of the book's bytes.
#[verifier::external_body]
pub(crate) fn spine_ids(f: &EpubFile) -> (r: Vec<String>)
    ensures
        r@.map_values(|s: String| s@) == epub_spine(f.source()),
{
    f.handle.doc.spine.iter().map(|item| item.idref.clone()).collect()
}

/// The path of an entry of the `resources` field, as text. Claims it is
/// `epub_resource_path` of the book's bytes and `id`.
#[verifier::external_body]
pub(crate) fn resource_path(f: &EpubFile, id: &str) -> (r: Option<String>)
    ensures
        opt_view(r) == epub_resource_path(f.source(), id@),
{
    f.handle.doc.resources.get(id).map(|res| res.path.to_string_lossy().into_owned())
}

/// The top-level entries of the `toc` field as `(label, content path)`. Claims
/// they are `epub_toc` of the book's bytes.
#[verifier::external_body]
pub(crate) fn toc_entries(f: &EpubFile) -> (r: Vec<(String, String)>)
    ensures
        r@.map_values(|e: (String, String)| (e.0@, e.1@)) == epub_toc(f.source()),
{
    f.handle.doc.toc.iter().map(|nav| (nav.label.clone(), nav.content.to_string_lossy().into_owned())).collect()
}

/// `EpubDoc::get_resource_str` (epub crate): the resource's text without its
/// mime type. Claims it is `epub_resource_text` of the book's bytes and `id`,
/// and that reading leaves the book's bytes as they were.
#[verifier::external_body]
pub(crate) fn resource_text(f: &mut EpubFile, id: &str) -> (r: Option<String>)
    ensures
        final(f).source() == old(f).source(),
        opt_view(r) == epub_resource_text(old(f).source(), id@),
{
    f.handle.doc.get_resource_str(id).map(|(content, _mime)| content)
}

} // verus!
