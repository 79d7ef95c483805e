//! Which EPUBs the epub crate can open without stopping on their `rootfile`.
//!
//! `EpubDoc::from_reader` reads the `full-path` of the first `rootfile` element of
//! `META-INF/container.xml` and takes the parent directory of that path with
//! `expect`: a path without a parent (empty, or only a root) stops the program.
//! Before an EPUB is opened, its container is read here the way the epub crate
//! reads it, through the same crates (the epub crate's archive, xml-rs with the
//! parser settings the epub crate uses, std's `Path::parent`), and that one path
//! is checked to have a parent.
use vstd::prelude::*;
use std::io::Cursor;
use epub::archive::{ArchiveError, EpubArchive};
use xml::reader::{ParserConfig, XmlEvent};
use crate::strs::{chars_eq, chars_of, opt_view, string_of};

verus! {

/// The epub crate's zip archive over an in-memory reader, held out of Verus's
/// sight for the same reason as the document (its `Read + Seek` bound).
#[verifier::external_body]
pub struct ArchiveHandle {
    archive: EpubArchive<Cursor<Vec<u8>>>,
}

/// The epub crate's archive error, carried through as it is.
#[verifier::external_type_specification]
#[verifier::external_body]
pub struct ExArchiveError(ArchiveError);

/// An opened zip archive, with the bytes it was read from.
pub struct ArchiveFile {
    handle: ArchiveHandle,
    bytes: Vec<u8>,
}

impl ArchiveFile {
    /// The bytes the archive was read from.
    pub closed spec fn source(&self) -> Seq<u8> {
        self.bytes@
    }
}

/// Whether `EpubArchive::from_reader` (epub crate) opens these bytes as a zip archive.
pub uninterp spec fn archive_opens(bytes: Seq<u8>) -> bool;

/// What `EpubArchive::get_container_file` (epub crate) reads from the archive that
/// `EpubArchive::from_reader` opened over `bytes`: the bytes of
/// `META-INF/container.xml`, or `None` when it cannot be read.
pub uninterp spec fn archive_container(bytes: Seq<u8>) -> Option<Seq<u8>>;

/// A start tag: its local name and its attributes as `(local name, value)`.
pub type XmlTag = (Seq<char>, Seq<(Seq<char>, Seq<char>)>);

/// The events that xml-rs reads from `input` with the entities `nbsp`, `copy` and
/// `reg` declared as the epub crate declares them, up to the end of the document
/// or the first error: a start tag as `Some(Some(tag))`, an end tag as
/// `Some(None)`, any other event and an error as `None`.
pub uninterp spec fn xml_events(input: Seq<u8>) -> Seq<Option<Option<XmlTag>>>;

/// The UTF-8 bytes of `String::from_utf16_lossy(units)` (std).
pub uninterp spec fn utf16_lossy_bytes(units: Seq<u16>) -> Seq<u8>;

/// `u16::from_ne_bytes([a, b])` (std): the two bytes read in the byte order of
/// the platform the library is built for.
pub uninterp spec fn native_u16(a: u8, b: u8) -> u16;

/// Whether `std::path::Path::parent` is `Some` for the path `p`. The answer follows
/// the path syntax of the platform the library is built for: std returns `None`
/// for the empty path and for a path that ends in a root or a prefix.
pub uninterp spec fn path_has_parent(p: Seq<char>) -> bool;

/// `EpubArchive::from_reader` (epub crate) over a copy of the bytes. Claims that it
/// succeeds exactly when `archive_opens` says so, and that the archive keeps the bytes.
#[verifier::external_body]
pub(crate) fn open_archive(bytes: &[u8]) -> (r: Result<ArchiveFile, ArchiveError>)
    ensures
        r is Ok <==> archive_opens(bytes@),
        r matches Ok(a) ==> a.source() == bytes@,
{
    let archive = EpubArchive::from_reader(Cursor::new(bytes.to_vec()))?;
    Ok(ArchiveFile { handle: ArchiveHandle { archive }, bytes: bytes.to_vec() })
}

/// `EpubArchive::get_container_file` (epub crate). Claims that it gives
/// `archive_container` of the archive's bytes, fails exactly when that is `None`,
/// and leaves the archive's bytes as they were.
#[verifier::external_body]
pub(crate) fn container_file(a: &mut ArchiveFile) -> (r: Result<Vec<u8>, ArchiveError>)
    ensures
        final(a).source() == old(a).source(),
        match r {
            Ok(c) => archive_container(old(a).source()) == Some(c@),
            Err(_) => archive_container(old(a).source()) is None,
        },
{
    a.handle.archive.get_container_file()
}

/// The views of a start tag's attributes.
pub open spec fn attr_views(v: Seq<(String, String)>) -> Seq<(Seq<char>, Seq<char>)> {
    v.map_values(|p: (String, String)| (p.0@, p.1@))
}

/// The views of the events that `read_xml_events` hands out.
pub open spec fn event_views(v: Seq<Option<Option<(String, Vec<(String, String)>)>>>) -> Seq<Option<Option<XmlTag>>> {
    v.map_values(|e: Option<Option<(String, Vec<(String, String)>)>>| match e {
        Some(Some(t)) => Some(Some((t.0@, attr_views(t.1@)))),
        Some(None) => Some(None),
        None => None,
    })
}

/// xml-rs's `EventReader`, configured with `ParserConfig` as the epub crate
/// configures it, read to its end. Claims that the events are `xml_events` of the input.
#[verifier::external_body]
pub(crate) fn read_xml_events(input: &[u8]) -> (r: Vec<Option<Option<(String, Vec<(String, String)>)>>>)
    ensures
        event_views(r@) == xml_events(input@),
{
    let config = ParserConfig::new().add_entity("nbsp", " ").add_entity("copy", "©").add_entity("reg", "®");
    config.create_reader(input).into_iter().map(|e| match e {
        Ok(XmlEvent::StartElement { name, attributes, .. }) => {
            Some(Some((name.local_name, attributes.into_iter().map(|a| (a.name.local_name, a.value)).collect())))
        },
        Ok(XmlEvent::EndElement { .. }) => Some(None),
        _ => None,
    }).collect()
}

/// `String::from_utf16_lossy` (std), handed out as its UTF-8 bytes. Claims that
/// they are `utf16_lossy_bytes` of the units.
#[verifier::external_body]
fn utf16_to_utf8(units: &[u16]) -> (r: Vec<u8>)
    ensures
        r@ == utf16_lossy_bytes(units@),
{
    String::from_utf16_lossy(units).into_bytes()
}

/// `u16::from_ne_bytes` (std). Claims that the result is `native_u16` of the bytes,
/// and that it reads them high byte first or low byte first, as every platform does.
#[verifier::external_body]
fn u16_from_ne(a: u8, b: u8) -> (r: u16)
    ensures
        r == native_u16(a, b),
        r == a * 256 + b || r == b * 256 + a,
{
    u16::from_ne_bytes([a, b])
}

/// `Path::parent` (std) of the path `p`, tested for `Some`. Claims that the answer
/// is `path_has_parent` of `p`, and, as std documents for every platform, that the
/// empty path and `/` have no parent.
#[verifier::external_body]
fn parent_exists(p: &str) -> (b: bool)
    ensures
        b == path_has_parent(p@),
        p@.len() == 0 ==> !b,
        p@ == seq!['/'] ==> !b,
{
    std::path::Path::new(p).parent().is_some()
}

pub open spec fn rootfile_name() -> Seq<char> {
    seq!['r', 'o', 'o', 't', 'f', 'i', 'l', 'e']
}

pub open spec fn full_path_name() -> Seq<char> {
    seq!['f', 'u', 'l', 'l', '-', 'p', 'a', 't', 'h']
}

/// How the epub crate builds its tree from the container's events, as far as the
/// root file goes: how many elements are open, whether the first element (the
/// root) has begun and whether it has ended, and the attributes of the first
/// `rootfile` element begun inside the root (the first that a depth-first search
/// of the root's children meets).
pub open spec fn xml_scan(evs: Seq<Option<Option<XmlTag>>>) -> (nat, bool, bool, Option<Seq<(Seq<char>, Seq<char>)>>)
    decreases evs.len(),
{
    if evs.len() == 0 {
        (0, false, false, None)
    } else {
        let (depth, begun, ended, found) = xml_scan(evs.drop_last());
        match evs.last() {
            Some(Some(tag)) => {
                let found2 = if found is None && begun && !ended && tag.0 == rootfile_name() {
                    Some(tag.1)
                } else {
                    found
                };
                (depth + 1, true, ended, found2)
            },
            Some(None) => if depth > 0 {
                ((depth - 1) as nat, begun, ended || (begun && depth == 1), found)
            } else {
                (depth, begun, ended, found)
            },
            None => (depth, begun, ended, found),
        }
    }
}

/// The value of the first attribute named `full-path`.
pub open spec fn first_full_path(attrs: Seq<(Seq<char>, Seq<char>)>) -> Option<Seq<char>>
    decreases attrs.len(),
{
    if attrs.len() == 0 {
        None
    } else if attrs[0].0 == full_path_name() {
        Some(attrs[0].1)
    } else {
        first_full_path(attrs.drop_first())
    }
}

/// The path the epub crate reads from the container's events: the first
/// `full-path` of the first `rootfile` inside the root, once the root has ended.
/// Without one, the crate fails with an error before it takes a parent.
pub open spec fn root_full_path(evs: Seq<Option<Option<XmlTag>>>) -> Option<Seq<char>> {
    let (depth, begun, ended, found) = xml_scan(evs);
    if begun && ended {
        match found {
            Some(a) => first_full_path(a),
            None => None,
        }
    } else {
        None
    }
}

/// The code units after a two-byte order mark, as the epub crate reads them:
/// `FE FF` puts the high byte first, `FF FE` the low byte, and each pair is then
/// read in the platform's byte order.
pub open spec fn utf16_units(c: Seq<u8>) -> Seq<u16> {
    let big = if c[0] == 0xfe { 1int } else { 0int };
    Seq::new(((c.len() - 2) / 2) as nat, |k: int| native_u16(c[2 + 2 * k + big], c[3 + 2 * k - big]))
}

/// What the epub crate hands to xml-rs for a container file of at least four bytes:
/// the bytes after a UTF-8 byte order mark; after a UTF-16 one, the text decoded
/// and written again as UTF-8; else the bytes themselves.
pub open spec fn xml_input(c: Seq<u8>) -> Seq<u8> {
    if c[0] == 0xef && c[1] == 0xbb && c[2] == 0xbf {
        c.skip(3)
    } else if (c[0] == 0xfe && c[1] == 0xff) || (c[0] == 0xff && c[1] == 0xfe) {
        utf16_lossy_bytes(utf16_units(c))
    } else {
        c
    }
}

/// A container file from which the epub crate reads no root file path without a
/// parent (one under four bytes it refuses before reading anything).
pub open spec fn container_safe(c: Seq<u8>) -> bool {
    c.len() >= 4 ==> match root_full_path(xml_events(xml_input(c))) {
        Some(p) => path_has_parent(p),
        None => true,
    }
}

/// The bytes of an EPUB that `EpubDoc::from_reader` can read without meeting a
/// `rootfile` path with no parent: either its zip archive or its container file
/// cannot be read (and it fails on that first), or the container is safe.
pub open spec fn root_file_safe(bytes: Seq<u8>) -> bool {
    archive_opens(bytes) ==> match archive_container(bytes) {
        Some(c) => container_safe(c),
        None => true,
    }
}

/// The attributes of the start tag at `k`, if the event there is one.
pub open spec fn found_attrs(evs: Seq<Option<Option<(String, Vec<(String, String)>)>>>, found: Option<usize>) -> Option<Seq<(Seq<char>, Seq<char>)>> {
    match found {
        Some(k) => match evs[k as int] {
            Some(Some(t)) => Some(attr_views(t.1@)),
            _ => None,
        },
        None => None,
    }
}

/// The value of the first `full-path` attribute (see `first_full_path`).
fn first_full_path_of(attrs: &Vec<(String, String)>) -> (r: Option<String>)
    ensures
        opt_view(r) == first_full_path(attr_views(attrs@)),
{
    let ghost av = attr_views(attrs@);
    let full_path = chars_of("full-path");
    proof {
        reveal_strlit("full-path");
    }
    assert(full_path@ == full_path_name());
    let mut j: usize = 0;
    assert(av.skip(0) =~= av);
    while j < attrs.len()
        invariant
            j <= attrs@.len(),
            av == attr_views(attrs@),
            full_path@ == full_path_name(),
            first_full_path(av) == first_full_path(av.skip(j as int)),
        decreases attrs@.len() - j,
    {
        assert(av.skip(j as int)[0] == av[j as int]);
        assert(av.skip(j as int).drop_first() =~= av.skip(j + 1));
        let name = chars_of(attrs[j].0.as_str());
        if chars_eq(name.as_slice(), full_path.as_slice()) {
            let value = chars_of(attrs[j].1.as_str());
            return Some(string_of(value.as_slice()));
        }
        j = j + 1;
    }
    None
}

/// The root file path that the epub crate reads from the events (see `root_full_path`).
fn root_path_in(evs: &Vec<Option<Option<(String, Vec<(String, String)>)>>>) -> (r: Option<String>)
    ensures
        opt_view(r) == root_full_path(event_views(evs@)),
{
    let ghost ev = event_views(evs@);
    let rootfile = chars_of("rootfile");
    proof {
        reveal_strlit("rootfile");
    }
    assert(rootfile@ == rootfile_name());
    let mut depth: usize = 0;
    let mut begun = false;
    let mut ended = false;
    let mut found: Option<usize> = None;
    let mut i: usize = 0;
    assert(ev.take(0) =~= Seq::<Option<Option<XmlTag>>>::empty());
    while i < evs.len()
        invariant
            i <= evs@.len(),
            ev == event_views(evs@),
            rootfile@ == rootfile_name(),
            depth <= i,
            found matches Some(k) ==> k < i && evs@[k as int] matches Some(Some(_)),
            xml_scan(ev.take(i as int)) == (depth as nat, begun, ended, found_attrs(evs@, found)),
        decreases evs@.len() - i,
    {
        assert(ev.take(i + 1).drop_last() =~= ev.take(i as int));
        assert(ev.take(i + 1).last() == ev[i as int]);
        match &evs[i] {
            Some(Some(t)) => {
                assert(ev[i as int] == Some(Some((t.0@, attr_views(t.1@)))));
                if found.is_none() && begun && !ended {
                    let name = chars_of(t.0.as_str());
                    if chars_eq(name.as_slice(), rootfile.as_slice()) {
                        found = Some(i);
                    }
                }
                depth = depth + 1;
                begun = true;
            },
            Some(None) => {
                if depth > 0 {
                    if begun && depth == 1 {
                        ended = true;
                    }
                    depth = depth - 1;
                }
            },
            None => {},
        }
        i = i + 1;
    }
    assert(ev.take(i as int) =~= ev);
    if !(begun && ended) {
        return None;
    }
    match found {
        None => None,
        Some(k) => match &evs[k] {
            Some(Some(t)) => first_full_path_of(&t.1),
            _ => None,
        },
    }
}

/// The bytes of `c` from `from` on.
fn bytes_from(c: &[u8], from: usize) -> (r: Vec<u8>)
    requires
        from <= c@.len(),
    ensures
        r@ == c@.skip(from as int),
{
    let mut r: Vec<u8> = Vec::new();
    let mut i: usize = from;
    while i < c.len()
        invariant
            from <= i <= c@.len(),
            r@ == c@.subrange(from as int, i as int),
        decreases c@.len() - i,
    {
        r.push(c[i]);
        i = i + 1;
        assert(r@ =~= c@.subrange(from as int, i as int));
    }
    assert(c@.subrange(from as int, i as int) =~= c@.skip(from as int));
    r
}

/// The UTF-16 code units after a two-byte order mark (see `utf16_units`).
fn units_of(c: &[u8]) -> (r: Vec<u16>)
    requires
        c@.len() >= 2,
    ensures
        r@ == utf16_units(c@),
{
    let big: usize = if c[0] == 0xfe { 1 } else { 0 };
    let n: usize = (c.len() - 2) / 2;
    assert(2 * n <= c@.len() - 2) by (nonlinear_arith)
        requires
            n == (c@.len() - 2) / 2,
            c@.len() >= 2,
    ;
    let mut r: Vec<u16> = Vec::new();
    let mut k: usize = 0;
    while k < n
        invariant
            k <= n,
            n == (c@.len() - 2) / 2,
            2 * n <= c@.len() - 2,
            c@.len() <= usize::MAX,
            big == (if c@[0] == 0xfe { 1int } else { 0int }),
            r@.len() == k,
            forall|m: int| 0 <= m < k ==> r@[m] == native_u16(c@[2 + 2 * m + big], c@[3 + 2 * m - big]),
        decreases n - k,
    {
        assert(3 + 2 * k < c@.len());
        let u = u16_from_ne(c[2 + 2 * k + big], c[3 + 2 * k - big]);
        r.push(u);
        k = k + 1;
    }
    assert(r@ =~= utf16_units(c@));
    r
}

/// Whether a container file is safe (see `container_safe`).
fn container_is_safe(c: &[u8]) -> (b: bool)
    ensures
        b == container_safe(c@),
{
    if c.len() < 4 {
        return true;
    }
    let evs = if c[0] == 0xef && c[1] == 0xbb && c[2] == 0xbf {
        let rest = bytes_from(c, 3);
        read_xml_events(rest.as_slice())
    } else if (c[0] == 0xfe && c[1] == 0xff) || (c[0] == 0xff && c[1] == 0xfe) {
        let units = units_of(c);
        let text = utf16_to_utf8(units.as_slice());
        read_xml_events(text.as_slice())
    } else {
        read_xml_events(c)
    };
    assert(event_views(evs@) == xml_events(xml_input(c@)));
    match root_path_in(&evs) {
        Some(p) => parent_exists(p.as_str()),
        None => true,
    }
}

/// Whether the epub crate can read these bytes without meeting a `rootfile` path
/// that has no parent (see `root_file_safe`).
pub fn epub_root_file_safe(bytes: &[u8]) -> (b: bool)
    ensures
        b == root_file_safe(bytes@),
{
    let mut archive = match open_archive(bytes) {
        Ok(a) => a,
        Err(_) => return true,
    };
    match container_file(&mut archive) {
        Ok(c) => container_is_safe(c.as_slice()),
        Err(_) => true,
    }
}

} // verus!
