use book::library::{
    assemble_epub, decode_txt, first_line_title, load_chapters, scan, Book, FileEntry, Format,
};
use book::mobi::{load, palmdoc_decompress, records_in_order};
use book::rootfile::epub_root_file_safe;

fn entry(path: &str, extension: Option<&str>, stem: Option<&str>) -> FileEntry {
    FileEntry {
        path: path.to_string(),
        extension: extension.map(str::to_string),
        stem: stem.map(str::to_string),
    }
}

fn titles(books: &[Book]) -> Vec<String> {
    books.iter().map(|b| b.title.clone()).collect()
}

#[test]
fn shelf_lists_readable_books_by_title() {
    let books = scan(vec![
        entry("/b/zeta.txt", Some("txt"), Some("zeta")),
        entry("/b/notes.pdf", Some("pdf"), Some("notes")),
        entry("/b/Alpha.EPUB", Some("EPUB"), Some("Alpha")),
        entry("/b/README", None, Some("README")),
        entry("/b/beta.Mobi", Some("Mobi"), Some("beta")),
        entry("/b/odd.txt", Some("txt"), None),
    ]);
    assert_eq!(titles(&books), vec!["Alpha", "beta", "zeta", "未命名"]);
    assert_eq!(books[0].format, Format::Epub);
    assert_eq!(books[1].format, Format::Mobi);
    assert_eq!(books[2].format, Format::Txt);
    assert_eq!(books[0].key(), "/b/Alpha.EPUB");
}

#[test]
fn books_with_the_same_title_keep_their_order() {
    let books = scan(vec![
        entry("/x/Same.txt", Some("txt"), Some("Same")),
        entry("/a/b.txt", Some("txt"), Some("b")),
        entry("/y/same.txt", Some("txt"), Some("same")),
    ]);
    let paths: Vec<String> = books.iter().map(|b| b.path.clone()).collect();
    assert_eq!(paths, vec!["/a/b.txt", "/x/Same.txt", "/y/same.txt"]);
}

#[test]
fn titles_sort_by_unicode_lowercase() {
    let books = scan(vec![
        entry("/1.txt", Some("txt"), Some("Émile")),
        entry("/2.txt", Some("txt"), Some("éclair")),
        entry("/3.txt", Some("txt"), Some("Zed")),
    ]);
    // "zed" < "éclair" < "émile" in code point order
    assert_eq!(titles(&books), vec!["Zed", "éclair", "Émile"]);
}

#[test]
fn text_files_get_unix_line_endings() {
    assert_eq!(decode_txt(b"a\r\nb\rc\n"), "a\nb\nc\n");
    assert_eq!(decode_txt(b"\r\r\n"), "\n\n");
    assert_eq!(decode_txt(&[b'a', 0xff, b'b']), "a\u{fffd}b");
    assert_eq!(decode_txt("中文".as_bytes()), "中文");
}

#[test]
fn first_line_gives_the_title() {
    assert_eq!(first_line_title("\n  \n  Title here  \nbody", 3), "Title here");
    assert_eq!(first_line_title(" \n", 7), "第 7 节");
}

#[test]
fn text_book_loads_as_chapters() {
    let book = Book { title: "t".into(), path: "/t.txt".into(), format: Format::Txt };
    let chapters = load_chapters(&book, b"intro\r\nChapter 1\r\none\r\n".to_vec()).unwrap();
    assert_eq!(chapters.len(), 2);
    assert_eq!(chapters[0].title, "intro");
    assert_eq!(chapters[1].title, "Chapter 1");
    assert_eq!(chapters[1].text, "Chapter 1\none\n");
    assert!(chapters.iter().all(|c| c.lines.is_empty()));
}

// --- MOBI -------------------------------------------------------------------

/// A PalmDB file whose records are `records`, the first being the MOBI header.
fn palm_db(records: &[Vec<u8>]) -> Vec<u8> {
    let mut data = vec![0u8; 76];
    data.extend_from_slice(&(records.len() as u16).to_be_bytes());
    let mut offset = 78 + 8 * records.len();
    for r in records {
        data.extend_from_slice(&(offset as u32).to_be_bytes());
        data.extend_from_slice(&[0, 0, 0, 0]);
        offset += r.len();
    }
    for r in records {
        data.extend_from_slice(r);
    }
    data
}

fn header(compression: u16, text_length: u32, count: u16, encryption: u16, encoding: Option<u32>) -> Vec<u8> {
    let mut h = Vec::new();
    h.extend_from_slice(&compression.to_be_bytes());
    h.extend_from_slice(&[0, 0]);
    h.extend_from_slice(&text_length.to_be_bytes());
    h.extend_from_slice(&count.to_be_bytes());
    h.extend_from_slice(&[0, 0]);
    h.extend_from_slice(&encryption.to_be_bytes());
    h.extend_from_slice(&[0, 0]);
    if let Some(enc) = encoding {
        h.extend_from_slice(&[0u8; 12]);
        h.extend_from_slice(&enc.to_be_bytes());
    }
    h
}

#[test]
fn stored_mobi_text_is_read() {
    let data = palm_db(&[header(1, 100, 2, 0, None), b"<p>Hello</p>".to_vec(), b"<p>World</p>".to_vec()]);
    assert!(records_in_order(&data));
    assert_eq!(load(&data).unwrap(), "<p>Hello</p><p>World</p>");
}

#[test]
fn mobi_text_is_cut_to_its_length() {
    let data = palm_db(&[header(1, 5, 1, 0, None), b"HelloWorld".to_vec()]);
    assert_eq!(load(&data).unwrap(), "Hello");
}

#[test]
fn compressed_mobi_text_is_decompressed() {
    // "abc", then a back-reference of distance 3 and length 3, a literal run, a space pair
    let rec = vec![b'a', b'b', b'c', 0x80, 0x18, 0x02, b'x', b'y', 0xE1];
    let data = palm_db(&[header(2, 100, 1, 0, None), rec]);
    assert_eq!(load(&data).unwrap(), "abcabcxy a");
}

#[test]
fn windows_1252_mobi_text_is_decoded() {
    let data = palm_db(&[header(1, 100, 1, 0, Some(1252)), vec![0x80, b'A', 0xE9, 0x93]]);
    assert_eq!(load(&data).unwrap(), "\u{20ac}A\u{e9}\u{201c}");
}

#[test]
fn broken_mobi_files_are_refused() {
    assert_eq!(load(&[0u8; 10]).unwrap_err(), "文件太小，不是有效的 mobi");
    let mut short = vec![0u8; 76];
    short.extend_from_slice(&5u16.to_be_bytes());
    assert_eq!(load(&short).unwrap_err(), "mobi 记录表不完整");
    let data = palm_db(&[vec![0u8; 8]]);
    assert_eq!(load(&data).unwrap_err(), "mobi 头记录不完整");
    let data = palm_db(&[header(1, 10, 1, 2, None), b"x".to_vec()]);
    assert_eq!(load(&data).unwrap_err(), "该 mobi 带有 DRM 加密，无法读取");
    let data = palm_db(&[header(17, 10, 1, 0, None), b"x".to_vec()]);
    assert_eq!(load(&data).unwrap_err(), "不支持的 mobi 压缩格式: 17");
    // with no text record, an unknown compression is never looked at
    let data = palm_db(&[header(17, 10, 0, 0, None)]);
    assert_eq!(load(&data).unwrap(), "");
}

#[test]
fn records_out_of_order_are_detected() {
    let mut data = palm_db(&[header(1, 10, 1, 0, None), b"text".to_vec()]);
    // make record 0 end before it starts
    let start0 = u32::from_be_bytes([data[78], data[79], data[80], data[81]]);
    data[86..90].copy_from_slice(&(start0 - 1).to_be_bytes());
    assert!(!records_in_order(&data));
}

#[test]
fn palmdoc_back_references_may_overlap() {
    let mut out = b"ab".to_vec();
    // distance 2, length 5: copies from bytes it is writing
    palmdoc_decompress(&[0x80, 0x12], &mut out);
    assert_eq!(out, b"abababa");
    let mut out = Vec::new();
    palmdoc_decompress(&[0x80, 0x12, b'z'], &mut out);
    assert_eq!(out, b"z");
    let mut out = Vec::new();
    palmdoc_decompress(&[0x03, b'a', b'b'], &mut out);
    assert_eq!(out, b"ab");
}

#[test]
fn mobi_book_loads_as_chapters() {
    let data = palm_db(&[header(1, 100, 1, 0, None), "<p>第一章</p><p>正文</p>".as_bytes().to_vec()]);
    let book = Book { title: "m".into(), path: "/m.mobi".into(), format: Format::Mobi };
    let chapters = load_chapters(&book, data).unwrap();
    assert_eq!(chapters.len(), 1);
    assert_eq!(chapters[0].title, "第一章");
    assert_eq!(chapters[0].text, "第一章\n\n正文\n");
}

// --- EPUB -------------------------------------------------------------------

fn crc32(data: &[u8]) -> u32 {
    let mut crc = 0xFFFF_FFFFu32;
    for &b in data {
        crc ^= b as u32;
        for _ in 0..8 {
            crc = if crc & 1 != 0 { (crc >> 1) ^ 0xEDB8_8320 } else { crc >> 1 };
        }
    }
    !crc
}

/// A zip archive of stored (uncompressed) files.
fn zip(files: &[(&str, &[u8])]) -> Vec<u8> {
    let mut out = Vec::new();
    let mut central = Vec::new();
    for (name, content) in files {
        let offset = out.len() as u32;
        let data: &[u8] = content;
        let crc = crc32(data);
        let mut head = Vec::new();
        head.extend_from_slice(&20u16.to_le_bytes());
        head.extend_from_slice(&0u16.to_le_bytes());
        head.extend_from_slice(&0u16.to_le_bytes());
        head.extend_from_slice(&0u16.to_le_bytes());
        head.extend_from_slice(&0x21u16.to_le_bytes());
        head.extend_from_slice(&crc.to_le_bytes());
        head.extend_from_slice(&(data.len() as u32).to_le_bytes());
        head.extend_from_slice(&(data.len() as u32).to_le_bytes());
        head.extend_from_slice(&(name.len() as u16).to_le_bytes());
        head.extend_from_slice(&0u16.to_le_bytes());
        out.extend_from_slice(&0x0403_4b50u32.to_le_bytes());
        out.extend_from_slice(&head);
        out.extend_from_slice(name.as_bytes());
        out.extend_from_slice(data);
        central.extend_from_slice(&0x0201_4b50u32.to_le_bytes());
        central.extend_from_slice(&20u16.to_le_bytes());
        central.extend_from_slice(&head);
        central.extend_from_slice(&0u16.to_le_bytes());
        central.extend_from_slice(&0u16.to_le_bytes());
        central.extend_from_slice(&0u16.to_le_bytes());
        central.extend_from_slice(&0u32.to_le_bytes());
        central.extend_from_slice(&offset.to_le_bytes());
        central.extend_from_slice(name.as_bytes());
    }
    let cd_offset = out.len() as u32;
    out.extend_from_slice(&central);
    out.extend_from_slice(&0x0605_4b50u32.to_le_bytes());
    out.extend_from_slice(&0u16.to_le_bytes());
    out.extend_from_slice(&0u16.to_le_bytes());
    out.extend_from_slice(&(files.len() as u16).to_le_bytes());
    out.extend_from_slice(&(files.len() as u16).to_le_bytes());
    out.extend_from_slice(&(central.len() as u32).to_le_bytes());
    out.extend_from_slice(&cd_offset.to_le_bytes());
    out.extend_from_slice(&0u16.to_le_bytes());
    out
}

fn container_xml(full_path: &str) -> String {
    format!(
        r#"<?xml version="1.0"?>
<container version="1.0" xmlns="urn:oasis:names:tc:opendocument:xmlns:container">
<rootfiles><rootfile full-path="{full_path}" media-type="application/oebps-package+xml"/></rootfiles>
</container>"#
    )
}

fn sample_epub() -> Vec<u8> {
    epub_with_container(container_xml("OEBPS/content.opf").as_bytes())
}

fn epub_with_container(container: &[u8]) -> Vec<u8> {
    epub_files(container, "OEBPS/content.opf")
}

fn epub_files(container: &[u8], opf_path: &str) -> Vec<u8> {
    let opf = r#"<?xml version="1.0" encoding="UTF-8"?>
<package xmlns="http://www.idpf.org/2007/opf" version="2.0" unique-identifier="id">
<metadata xmlns:dc="http://purl.org/dc/elements/1.1/"><dc:title>Sample</dc:title><dc:identifier id="id">s</dc:identifier></metadata>
<manifest>
<item id="ncx" href="toc.ncx" media-type="application/x-dtbncx+xml"/>
<item id="c1" href="c1.xhtml" media-type="application/xhtml+xml"/>
<item id="blank" href="blank.xhtml" media-type="application/xhtml+xml"/>
<item id="c2" href="c2.xhtml" media-type="application/xhtml+xml"/>
</manifest>
<spine toc="ncx"><itemref idref="c1"/><itemref idref="blank"/><itemref idref="missing"/><itemref idref="c2"/></spine>
</package>"#;
    let ncx = r#"<?xml version="1.0" encoding="UTF-8"?>
<ncx xmlns="http://www.daisy.org/z3986/2005/ncx/" version="2005-1">
<navMap>
<navPoint id="n1" playOrder="1"><navLabel><text> Opening </text></navLabel><content src="c1.xhtml#top"/></navPoint>
</navMap>
</ncx>"#;
    zip(&[
        ("mimetype", b"application/epub+zip".as_slice()),
        ("META-INF/container.xml", container),
        (opf_path, opf.as_bytes()),
        ("OEBPS/toc.ncx", ncx.as_bytes()),
        ("OEBPS/c1.xhtml", b"<html><body><p>Hello</p></body></html>".as_slice()),
        ("OEBPS/blank.xhtml", b"<html><body>  <br/> </body></html>".as_slice()),
        ("OEBPS/c2.xhtml", "<html><body><p>  Second part  </p><p>more</p></body></html>".as_bytes()),
    ])
}

#[test]
fn epub_book_loads_its_spine() {
    let book = Book { title: "e".into(), path: "/e.epub".into(), format: Format::Epub };
    let chapters = load_chapters(&book, sample_epub()).unwrap();
    let got: Vec<(String, String)> = chapters.iter().map(|c| (c.title.clone(), c.text.clone())).collect();
    assert_eq!(
        got,
        vec![
            ("Opening".to_string(), "Hello\n".to_string()),
            ("Second part".to_string(), "Second part\n\nmore\n".to_string()),
        ]
    );
}

#[test]
fn broken_epub_is_refused() {
    let book = Book { title: "e".into(), path: "/e.epub".into(), format: Format::Epub };
    let err = load_chapters(&book, b"not a zip".to_vec()).unwrap_err();
    assert!(err.starts_with("打开 epub 失败: "), "{err}");
}

#[test]
fn epub_chapters_are_assembled_from_spine_items() {
    let toc = vec![
        ("  ".to_string(), "OEBPS/a.xhtml".to_string()),
        ("Two".to_string(), "b.xhtml#frag".to_string()),
    ];
    let items = vec![
        (Some("OEBPS/a.xhtml".to_string()), Some("<p>first</p>".to_string())),
        (Some("OEBPS/b.xhtml".to_string()), Some("<p>second</p>".to_string())),
        (None, None),
        (None, Some("<p> </p>".to_string())),
        (None, Some("third".to_string())),
    ];
    let chapters = assemble_epub(items, toc).unwrap();
    let got: Vec<(String, String)> = chapters.iter().map(|c| (c.title.clone(), c.text.clone())).collect();
    assert_eq!(
        got,
        vec![
            ("first".to_string(), "first\n".to_string()),
            ("Two".to_string(), "second\n".to_string()),
            ("third".to_string(), "third\n".to_string()),
        ]
    );
    assert_eq!(assemble_epub(vec![], vec![]).unwrap_err(), "epub 中没有可读的章节内容");
}

const BAD_ROOT: &str = "打开 epub 失败: container.xml 中的 rootfile 路径没有上级目录";

fn epub_chapter_pairs(data: Vec<u8>) -> Result<Vec<(String, String)>, String> {
    let book = Book { title: "e".into(), path: "/e.epub".into(), format: Format::Epub };
    load_chapters(&book, data).map(|cs| cs.iter().map(|c| (c.title.clone(), c.text.clone())).collect())
}

#[test]
fn rootfile_without_parent_is_refused() {
    for bad in ["", "/", "//", "/./."] {
        let data = epub_with_container(container_xml(bad).as_bytes());
        assert!(!epub_root_file_safe(&data), "{bad:?}");
        assert_eq!(epub_chapter_pairs(data).unwrap_err(), BAD_ROOT, "{bad:?}");
    }
}

#[test]
fn rootfile_check_passes_ordinary_books() {
    assert!(epub_root_file_safe(&sample_epub()));
    // what is not a zip, or has no container, fails in the epub crate itself
    assert!(epub_root_file_safe(b"not a zip"));
    let no_container = zip(&[("mimetype", b"application/epub+zip".as_slice())]);
    assert!(epub_root_file_safe(&no_container));
    let err = epub_chapter_pairs(no_container).unwrap_err();
    assert!(err.starts_with("打开 epub 失败: ") && err != BAD_ROOT, "{err}");
}

#[test]
fn rootfile_check_reads_byte_order_marks() {
    let text = container_xml("OEBPS/content.opf");
    let mut utf8 = vec![0xef, 0xbb, 0xbf];
    utf8.extend_from_slice(text.as_bytes());
    let mut utf16 = vec![0xff, 0xfe];
    for u in text.encode_utf16() {
        utf16.extend_from_slice(&u.to_le_bytes());
    }
    for container in [utf8, utf16] {
        let data = epub_with_container(&container);
        assert!(epub_root_file_safe(&data));
        assert_eq!(epub_chapter_pairs(data).unwrap().len(), 2);
    }
    let bad = container_xml("");
    let mut utf16 = vec![0xfe, 0xff];
    for u in bad.encode_utf16() {
        utf16.extend_from_slice(&u.to_be_bytes());
    }
    let data = epub_with_container(&utf16);
    assert!(!epub_root_file_safe(&data));
    assert_eq!(epub_chapter_pairs(data).unwrap_err(), BAD_ROOT);
}

#[test]
fn only_the_first_rootfile_is_read() {
    // a colon is an ordinary character in the path of the first rootfile
    let data = epub_files(container_xml("OEBPS/con:tent.opf").as_bytes(), "OEBPS/con:tent.opf");
    assert!(epub_root_file_safe(&data));
    assert_eq!(epub_chapter_pairs(data).unwrap().len(), 2);
    // a later rootfile without a parent is never looked at
    let two = r#"<?xml version="1.0"?>
<container version="1.0" xmlns="urn:oasis:names:tc:opendocument:xmlns:container">
<rootfiles><rootfile full-path="OEBPS/content.opf"/><rootfile full-path=""/></rootfiles>
</container>"#;
    let data = epub_with_container(two.as_bytes());
    assert!(epub_root_file_safe(&data));
    assert_eq!(epub_chapter_pairs(data).unwrap().len(), 2);
    // the first full-path attribute of the first rootfile counts
    let first = r#"<container xmlns:a="urn:a"><rootfiles><rootfile a:full-path="/" full-path="OEBPS/content.opf"/></rootfiles></container>"#;
    let data = epub_with_container(first.as_bytes());
    assert!(!epub_root_file_safe(&data));
    assert_eq!(epub_chapter_pairs(data).unwrap_err(), BAD_ROOT);
}

#[test]
fn unfinished_containers_fail_in_the_epub_crate() {
    // the root element never ends, so the epub crate gives up before taking a parent
    let open = r#"<container><rootfiles><rootfile full-path=""/></rootfiles>"#;
    let data = epub_with_container(open.as_bytes());
    assert!(epub_root_file_safe(&data));
    let err = epub_chapter_pairs(data).unwrap_err();
    assert!(err.starts_with("打开 epub 失败: ") && err != BAD_ROOT, "{err}");
    // no rootfile at all
    let none = r#"<container><rootfiles/></container>"#;
    let data = epub_with_container(none.as_bytes());
    assert!(epub_root_file_safe(&data));
    assert!(epub_chapter_pairs(data).unwrap_err().starts_with("打开 epub 失败: "));
}
