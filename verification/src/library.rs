//! The bookshelf: which files are books, their order, and loading a book's chapters.
use vstd::prelude::*;
use crate::strs::{
    chars_eq, chars_of, copy_range, from_utf8_lossy, is_blank, lower_all, opt_view, string_of,
    to_ascii_lowercase, trim, trim_chars, utf8_lossy,
};
use crate::text::{
    body_title, chapters_of, find_from, has_prefix, pair_views, plain_text, split_chapters,
    strip_html, title_of,
};
use crate::mobi::{mobi_readable, mobi_text};
use crate::epub_doc::{
    doc_error_message, epub_open_error, epub_opens, epub_resource_path, epub_resource_text, epub_spine, epub_toc,
    open_epub, resource_path, resource_text, spine_ids, toc_entries,
};
use crate::rootfile::{epub_root_file_safe, root_file_safe};

verus! {

/// The formats the reader opens.
#[derive(Clone, Copy, Debug, PartialEq, Eq, Structural)]
pub enum Format {
    Txt,
    Epub,
    Mobi,
}

/// A book found in the library directory.
#[derive(Clone, Debug)]
pub struct Book {
    pub title: String,
    pub path: String,
    pub format: Format,
}

impl Book {
    /// The stable key under which the book's reading position is saved: its path.
    pub fn key(&self) -> (r: String)
        ensures
            r@ == self.path@,
    {
        self.path.clone()
    }
}

/// A chapter: its title, its plain text, and that text wrapped at the current width.
#[derive(Clone, Debug)]
pub struct Chapter {
    pub title: String,
    pub text: String,
    pub lines: Vec<String>,
}

/// A file found while walking the library directory: its path, and its extension
/// and file stem where those are valid UTF-8.
#[derive(Clone, Debug)]
pub struct FileEntry {
    pub path: String,
    pub extension: Option<String>,
    pub stem: Option<String>,
}

/// The format a file extension names, in any ASCII case.
pub open spec fn format_of(ext: Seq<char>) -> Option<Format> {
    let e = lower_all(ext);
    if e == seq!['t', 'x', 't'] {
        Some(Format::Txt)
    } else if e == seq!['e', 'p', 'u', 'b'] {
        Some(Format::Epub)
    } else if e == seq!['m', 'o', 'b', 'i'] {
        Some(Format::Mobi)
    } else {
        None
    }
}

/// The title of an unnamed book.
pub open spec fn untitled() -> Seq<char> {
    seq!['未', '命', '名']
}

/// The book a file is, if its extension is that of a readable format: titled by
/// its file stem (未命名 when the stem is not valid UTF-8).
pub open spec fn book_of(f: FileEntry) -> Option<(Seq<char>, Seq<char>, Format)> {
    match f.extension {
        None => None,
        Some(ext) => match format_of(ext@) {
            None => None,
            Some(fmt) => Some((
                match f.stem {
                    Some(s) => s@,
                    None => untitled(),
                },
                f.path@,
                fmt,
            )),
        },
    }
}

/// The books among `files`, in the order found.
pub open spec fn books_of(files: Seq<FileEntry>) -> Seq<(Seq<char>, Seq<char>, Format)>
    decreases files.len(),
{
    if files.len() == 0 {
        Seq::empty()
    } else {
        let prev = books_of(files.drop_last());
        match book_of(files.last()) {
            Some(b) => prev.push(b),
            None => prev,
        }
    }
}

/// A book as plain values: title, path, format.
pub open spec fn book_view(b: Book) -> (Seq<char>, Seq<char>, Format) {
    (b.title@, b.path@, b.format)
}

/// What `str::to_lowercase` (std, full Unicode) makes of a string.
pub uninterp spec fn lowercase(s: Seq<char>) -> Seq<char>;

/// `str::to_lowercase` (std). Claims only that the result is the lowercase
/// form of `s`, as a function of `s`.
#[verifier::external_body]
fn to_lowercase(s: &str) -> (r: String)
    ensures
        r@ == lowercase(s@),
{
    s.to_lowercase()
}

/// `a` comes no later than `b` in code point order, as `String`'s `Ord` compares.
pub open spec fn lex_le(a: Seq<char>, b: Seq<char>) -> bool
    decreases a.len(),
{
    if a.len() == 0 {
        true
    } else if b.len() == 0 {
        false
    } else if a[0] != b[0] {
        (a[0] as u32) < (b[0] as u32)
    } else {
        lex_le(a.drop_first(), b.drop_first())
    }
}

pub proof fn lemma_lex_total(a: Seq<char>, b: Seq<char>)
    ensures
        lex_le(a, b) || lex_le(b, a),
    decreases a.len(),
{
    if a.len() > 0 && b.len() > 0 {
        vstd::utf8::char_u32_cast(a[0], a[0] as u32);
        vstd::utf8::char_u32_cast(b[0], b[0] as u32);
        if a[0] == b[0] {
            lemma_lex_total(a.drop_first(), b.drop_first());
        }
    }
}

pub proof fn lemma_lex_trans(a: Seq<char>, b: Seq<char>, c: Seq<char>)
    requires
        lex_le(a, b),
        lex_le(b, c),
    ensures
        lex_le(a, c),
    decreases a.len(),
{
    if a.len() > 0 && b.len() > 0 && c.len() > 0 && a[0] == b[0] && b[0] == c[0] {
        lemma_lex_trans(a.drop_first(), b.drop_first(), c.drop_first());
    }
}

pub proof fn lemma_lex_antisym(a: Seq<char>, b: Seq<char>)
    requires
        lex_le(a, b),
        lex_le(b, a),
    ensures
        a == b,
    decreases a.len(),
{
    if a.len() > 0 {
        vstd::utf8::char_u32_cast(a[0], a[0] as u32);
        vstd::utf8::char_u32_cast(b[0], b[0] as u32);
        lemma_lex_antisym(a.drop_first(), b.drop_first());
        assert(a =~= seq![a[0]] + a.drop_first());
        assert(b =~= seq![b[0]] + b.drop_first());
    }
}

/// `lex_le(a, b)`, computed.
fn lex_le_exec(a: &[char], b: &[char]) -> (r: bool)
    ensures
        r == lex_le(a@, b@),
{
    let mut i: usize = 0;
    assert(a@.skip(0) =~= a@ && b@.skip(0) =~= b@);
    while i < a.len() && i < b.len() && a[i] == b[i]
        invariant
            i <= a@.len(),
            i <= b@.len(),
            lex_le(a@, b@) == lex_le(a@.skip(i as int), b@.skip(i as int)),
        decreases a@.len() - i,
    {
        assert(a@.skip(i as int).drop_first() =~= a@.skip(i + 1));
        assert(b@.skip(i as int).drop_first() =~= b@.skip(i + 1));
        i = i + 1;
    }
    if i == a.len() {
        true
    } else if i == b.len() {
        false
    } else {
        (a[i] as u32) < (b[i] as u32)
    }
}

/// `files` classified: the books among them, as `Book` values.
fn classify(files: Vec<FileEntry>) -> (r: Vec<Book>)
    ensures
        r@.map_values(|b: Book| book_view(b)) == books_of(files@),
{
    let mut r: Vec<Book> = Vec::new();
    let mut i: usize = 0;
    while i < files.len()
        invariant
            i <= files@.len(),
            r@.map_values(|b: Book| book_view(b)) == books_of(files@.take(i as int)),
        decreases files@.len() - i,
    {
        assert(files@.take(i + 1).drop_last() =~= files@.take(i as int));
        let f = &files[i];
        let ghost prev = r@.map_values(|b: Book| book_view(b));
        if let Some(ext) = &f.extension {
            let e = chars_of(ext.as_str());
            let mut low: Vec<char> = Vec::new();
            let mut k: usize = 0;
            while k < e.len()
                invariant
                    k <= e@.len(),
                    low@ == lower_all(e@.take(k as int)),
                decreases e@.len() - k,
            {
                low.push(to_ascii_lowercase(e[k]));
                k = k + 1;
                assert(low@ =~= lower_all(e@.take(k as int)));
            }
            assert(e@.take(e@.len() as int) =~= e@);
            let ls = low.as_slice();
            let fmt: Option<Format> = if ls.len() == 3 && ls[0] == 't' && ls[1] == 'x' && ls[2] == 't' {
                assert(low@ =~= seq!['t', 'x', 't']);
                Some(Format::Txt)
            } else if ls.len() == 4 && ls[0] == 'e' && ls[1] == 'p' && ls[2] == 'u' && ls[3] == 'b' {
                assert(low@ =~= seq!['e', 'p', 'u', 'b']);
                Some(Format::Epub)
            } else if ls.len() == 4 && ls[0] == 'm' && ls[1] == 'o' && ls[2] == 'b' && ls[3] == 'i' {
                assert(low@ =~= seq!['m', 'o', 'b', 'i']);
                Some(Format::Mobi)
            } else {
                assert(low@ != seq!['t', 'x', 't']);
                assert(low@ != seq!['e', 'p', 'u', 'b']);
                assert(low@ != seq!['m', 'o', 'b', 'i']);
                None
            };
            if let Some(format) = fmt {
                let title = match &f.stem {
                    Some(s) => s.clone(),
                    None => string_of(&['未', '命', '名']),
                };
                r.push(Book { title, path: f.path.clone(), format });
                assert(r@.map_values(|b: Book| book_view(b)) =~= prev.push(book_of(files@[i as int]).unwrap()));
            }
        }
        i = i + 1;
    }
    assert(files@.take(i as int) =~= files@);
    r
}

/// The sort key of a book: its title in lowercase.
pub open spec fn sort_key(b: (Seq<char>, Seq<char>, Format)) -> Seq<char> {
    lowercase(b.0)
}

/// `r` is `src` sorted by title, ignoring case, with books of equal keys in the
/// order they had in `src`: `perm` says where each book of `r` stood there.
pub open spec fn stable_sort_by_title(
    r: Seq<(Seq<char>, Seq<char>, Format)>,
    src: Seq<(Seq<char>, Seq<char>, Format)>,
    perm: Seq<int>,
) -> bool {
    &&& r.len() == src.len()
    &&& perm.len() == src.len()
    &&& forall|i: int| 0 <= i < r.len() ==> 0 <= #[trigger] perm[i] < src.len() && r[i] == src[perm[i]]
    &&& forall|i: int, j: int| 0 <= i < r.len() && 0 <= j < r.len() && i != j ==> #[trigger] perm[i] != #[trigger] perm[j]
    &&& forall|i: int, j: int| 0 <= i < j < r.len() ==> lex_le(sort_key(#[trigger] r[i]), sort_key(#[trigger] r[j]))
    &&& forall|i: int, j: int|
        0 <= i < j < r.len() && sort_key(#[trigger] r[i]) == sort_key(#[trigger] r[j]) ==> perm[i] < perm[j]
}

pub open spec fn book_views(v: Seq<Book>) -> Seq<(Seq<char>, Seq<char>, Format)> {
    v.map_values(|b: Book| book_view(b))
}

/// Lists the books among the files found in the library directory (`.txt`,
/// `.epub` and `.mobi` in any case, titled by file stem) sorted by title,
/// ignoring case; books with the same key keep the order they were found in.
pub fn scan(files: Vec<FileEntry>) -> (r: Vec<Book>)
    ensures
        exists|perm: Seq<int>| stable_sort_by_title(book_views(r@), books_of(files@), perm),
{
    let mut books = classify(files);
    let ghost src = book_views(books@);
    let n = books.len();
    let mut out: Vec<Book> = Vec::new();
    let mut keys: Vec<Vec<char>> = Vec::new();
    let ghost mut perm: Seq<int> = Seq::empty();
    while books.len() > 0
        invariant
            books@.len() <= n,
            n == src.len(),
            book_views(books@) == src.take(books@.len() as int),
            out@.len() == n - books@.len(),
            keys@.len() == out@.len(),
            perm.len() == out@.len(),
            forall|i: int| 0 <= i < out@.len() ==> #[trigger] keys@[i]@ == sort_key(book_view(out@[i])),
            forall|i: int| 0 <= i < out@.len() ==>
                books@.len() <= #[trigger] perm[i] < n && book_view(out@[i]) == src[perm[i]],
            forall|i: int, j: int| 0 <= i < out@.len() && 0 <= j < out@.len() && i != j ==>
                #[trigger] perm[i] != #[trigger] perm[j],
            forall|i: int, j: int| 0 <= i < j < out@.len() ==>
                lex_le(sort_key(book_view(#[trigger] out@[i])), sort_key(book_view(#[trigger] out@[j]))),
            forall|i: int, j: int| 0 <= i < j < out@.len()
                && sort_key(book_view(#[trigger] out@[i])) == sort_key(book_view(#[trigger] out@[j])) ==> perm[i] < perm[j],
        decreases books@.len(),
    {
        let ghost before = books@;
        let b = books.pop().unwrap();
        let idx = books.len();
        assert(book_view(b) == src[idx as int]) by {
            assert(book_views(before)[idx as int] == src.take(before.len() as int)[idx as int]);
        }
        assert(book_views(books@) =~= src.take(books@.len() as int)) by {
            assert forall|t: int| 0 <= t < books@.len() implies book_views(books@)[t] == src.take(books@.len() as int)[t] by {
                assert(books@[t] == before[t]);
                assert(book_views(before)[t] == src.take(before.len() as int)[t]);
            }
        }
        let low = to_lowercase(b.title.as_str());
        let key = chars_of(low.as_str());
        let mut p: usize = 0;
        while p < out.len() && !lex_le_exec(key.as_slice(), keys[p].as_slice())
            invariant
                p <= out@.len(),
                keys@.len() == out@.len(),
                key@ == sort_key(book_view(b)),
                forall|i: int| 0 <= i < out@.len() ==> #[trigger] keys@[i]@ == sort_key(book_view(out@[i])),
                forall|i: int| 0 <= i < p ==> !lex_le(key@, sort_key(book_view(#[trigger] out@[i]))),
            decreases out@.len() - p,
        {
            p = p + 1;
        }
        let ghost o0 = out@;
        let ghost k0 = keys@;
        let ghost pm0 = perm;
        proof {
            assert forall|i: int| 0 <= i < p implies lex_le(sort_key(book_view(#[trigger] o0[i])), key@) by {
                lemma_lex_total(key@, sort_key(book_view(o0[i])));
            }
            if p < o0.len() {
                assert forall|j: int| p <= j < o0.len() implies lex_le(key@, sort_key(book_view(#[trigger] o0[j]))) by {
                    if j > p {
                        lemma_lex_trans(key@, sort_key(book_view(o0[p as int])), sort_key(book_view(o0[j])));
                    }
                }
            }
        }
        out.insert(p, b);
        keys.insert(p, key);
        proof {
            perm = pm0.insert(p as int, idx as int);
            assert forall|i: int| 0 <= i < out@.len() implies #[trigger] keys@[i]@ == sort_key(book_view(out@[i])) by {
                if i < p {
                    assert(out@[i] == o0[i] && keys@[i] == k0[i]);
                } else if i > p {
                    assert(out@[i] == o0[i - 1] && keys@[i] == k0[i - 1]);
                }
            }
            assert forall|i: int| 0 <= i < out@.len() implies
                books@.len() <= #[trigger] perm[i] < n && book_view(out@[i]) == src[perm[i]] by {
                if i < p {
                    assert(out@[i] == o0[i] && perm[i] == pm0[i]);
                } else if i > p {
                    assert(out@[i] == o0[i - 1] && perm[i] == pm0[i - 1]);
                }
            }
            assert forall|i: int, j: int| 0 <= i < out@.len() && 0 <= j < out@.len() && i != j implies
                #[trigger] perm[i] != #[trigger] perm[j] by {
                if i != p && j != p {
                    let i0 = if i < p { i } else { i - 1 };
                    let j0 = if j < p { j } else { j - 1 };
                    assert(perm[i] == pm0[i0] && perm[j] == pm0[j0]);
                } else if i == p {
                    let j0 = if j < p { j } else { j - 1 };
                    assert(perm[j] == pm0[j0]);
                } else {
                    let i0 = if i < p { i } else { i - 1 };
                    assert(perm[i] == pm0[i0]);
                }
            }
            assert forall|i: int, j: int| 0 <= i < j < out@.len() implies
                lex_le(sort_key(book_view(#[trigger] out@[i])), sort_key(book_view(#[trigger] out@[j]))) by {
                if i != p && j != p {
                    let i0 = if i < p { i } else { i - 1 };
                    let j0 = if j < p { j } else { j - 1 };
                    assert(out@[i] == o0[i0] && out@[j] == o0[j0]);
                } else if i == p {
                    assert(out@[j] == o0[j - 1]);
                } else {
                    assert(out@[i] == o0[i]);
                }
            }
            assert forall|i: int, j: int| 0 <= i < j < out@.len()
                && sort_key(book_view(#[trigger] out@[i])) == sort_key(book_view(#[trigger] out@[j])) implies perm[i] < perm[j] by {
                if i != p && j != p {
                    let i0 = if i < p { i } else { i - 1 };
                    let j0 = if j < p { j } else { j - 1 };
                    assert(out@[i] == o0[i0] && out@[j] == o0[j0]);
                    assert(perm[i] == pm0[i0] && perm[j] == pm0[j0]);
                } else if i == p {
                    assert(perm[j] == pm0[j - 1]);
                } else {
                    assert(out@[i] == o0[i]);
                    assert(!lex_le(key@, sort_key(book_view(o0[i]))));
                }
            }
        }
    }
    proof {
        let rv = book_views(out@);
        assert(src.take(0) =~= Seq::<(Seq<char>, Seq<char>, Format)>::empty());
        assert(stable_sort_by_title(rv, src, perm));
    }
    out
}

// ---------------------------------------------------------------------------
// Loading chapters
// ---------------------------------------------------------------------------

/// Line endings made `'\n'`: each `"\r\n"`, then each lone `'\r'`.
pub open spec fn unix_newlines(s: Seq<char>) -> Seq<char>
    decreases s.len(),
{
    if s.len() == 0 {
        Seq::empty()
    } else if s[0] == '\r' && s.len() > 1 && s[1] == '\n' {
        seq!['\n'] + unix_newlines(s.skip(2))
    } else if s[0] == '\r' {
        seq!['\n'] + unix_newlines(s.drop_first())
    } else {
        seq![s[0]] + unix_newlines(s.drop_first())
    }
}

/// The text of a `.txt` file: its bytes decoded as UTF-8 (lossily), with
/// `"\r\n"` and `'\r'` line endings made `'\n'`.
pub fn decode_txt(bytes: &[u8]) -> (r: String)
    ensures
        r@ == unix_newlines(utf8_lossy(bytes@)),
{
    let text = from_utf8_lossy(bytes);
    let s = chars_of(text.as_str());
    let mut out: Vec<char> = Vec::new();
    let mut i: usize = 0;
    assert(s@.skip(0) =~= s@);
    while i < s.len()
        invariant
            i <= s@.len(),
            out@ + unix_newlines(s@.skip(i as int)) == unix_newlines(s@),
        decreases s@.len() - i,
    {
        let ghost o0 = out@;
        let ghost t = s@.skip(i as int);
        if s[i] == '\r' && i + 1 < s.len() && s[i + 1] == '\n' {
            out.push('\n');
            assert(t.skip(2) =~= s@.skip(i + 2));
            i = i + 2;
        } else {
            if s[i] == '\r' {
                out.push('\n');
            } else {
                out.push(s[i]);
            }
            assert(t.drop_first() =~= s@.skip(i + 1));
            i = i + 1;
        }
        assert(out@ + unix_newlines(s@.skip(i as int)) =~= o0 + unix_newlines(t));
    }
    assert(out@ + unix_newlines(s@.skip(i as int)) =~= out@);
    string_of(out.as_slice())
}

/// The title of a chapter made of `text`: its first non-blank line, trimmed, cut
/// to 24 characters, or `第 {index} 节`.
pub fn first_line_title(text: &str, index: usize) -> (r: String)
    ensures
        r@ == body_title(text@, index as nat),
{
    let s = chars_of(text);
    let t = title_of(s.as_slice(), index);
    string_of(t.as_slice())
}

/// `(title, text)` of each chapter.
pub open spec fn chapter_pairs(v: Seq<Chapter>) -> Seq<(Seq<char>, Seq<char>)> {
    v.map_values(|c: Chapter| (c.title@, c.text@))
}

/// No chapter has been wrapped yet.
pub open spec fn unwrapped(v: Seq<Chapter>) -> bool {
    forall|i: int| 0 <= i < v.len() ==> (#[trigger] v[i]).lines@.len() == 0
}

/// `(title, body)` pairs made chapters, not yet wrapped.
fn to_chapters(pairs: Vec<(String, String)>) -> (r: Vec<Chapter>)
    ensures
        chapter_pairs(r@) == pair_views(pairs@),
        unwrapped(r@),
        r@.len() == pairs@.len(),
{
    let mut r: Vec<Chapter> = Vec::new();
    let mut i: usize = 0;
    while i < pairs.len()
        invariant
            i <= pairs@.len(),
            chapter_pairs(r@) == pair_views(pairs@).take(i as int),
            unwrapped(r@),
            r@.len() == i,
        decreases pairs@.len() - i,
    {
        let ghost r0 = chapter_pairs(r@);
        let title = pairs[i].0.clone();
        let text = pairs[i].1.clone();
        r.push(Chapter { title, text, lines: Vec::new() });
        i = i + 1;
        assert(chapter_pairs(r@) =~= pair_views(pairs@).take(i as int));
    }
    assert(pair_views(pairs@).take(i as int) =~= pair_views(pairs@));
    r
}

/// The part of `s` before its first `'#'` (a path without its fragment).
pub open spec fn before_hash(s: Seq<char>) -> Seq<char> {
    s.take(find_from(s, 0, '#'))
}

/// `p` is a suffix of `s`.
pub open spec fn has_suffix(s: Seq<char>, p: Seq<char>) -> bool {
    p.len() <= s.len() && s.skip(s.len() - p.len()) == p
}

/// The label of the first table-of-contents entry whose path (without fragment)
/// is non-empty and is a suffix of the resource path `rp`, or has it as a suffix.
pub open spec fn toc_match(rp: Seq<char>, toc: Seq<(Seq<char>, Seq<char>)>) -> Option<Seq<char>>
    decreases toc.len(),
{
    if toc.len() == 0 {
        None
    } else {
        let np = before_hash(toc[0].1);
        if np.len() > 0 && (has_suffix(rp, np) || has_suffix(np, rp)) {
            Some(trim(toc[0].0))
        } else {
            toc_match(rp, toc.drop_first())
        }
    }
}

/// The chapters an EPUB's spine gives: each item's resource path and text; items
/// without text, or whose text is blank once stripped of HTML, are skipped. A
/// chapter is titled by its table-of-contents label when one matches and is not
/// empty, else after its first line.
pub open spec fn epub_list(
    items: Seq<(Option<Seq<char>>, Option<Seq<char>>)>,
    toc: Seq<(Seq<char>, Seq<char>)>,
) -> Seq<(Seq<char>, Seq<char>)>
    decreases items.len(),
{
    if items.len() == 0 {
        Seq::empty()
    } else {
        let prev = epub_list(items.drop_last(), toc);
        let (path, content) = items.last();
        match content {
            None => prev,
            Some(html) => {
                let plain = plain_text(html);
                if trim(plain).len() == 0 {
                    prev
                } else {
                    let label = match path {
                        Some(rp) => toc_match(rp, toc),
                        None => None,
                    };
                    let title = match label {
                        Some(t) => if t.len() > 0 { t } else { body_title(plain, prev.len() + 1) },
                        None => body_title(plain, prev.len() + 1),
                    };
                    prev.push((title, plain))
                }
            },
        }
    }
}

pub open spec fn msg_no_chapters() -> Seq<char> {
    "epub 中没有可读的章节内容"@
}

/// The chapters of an EPUB, or the error for one with no readable chapter.
pub open spec fn epub_result(
    items: Seq<(Option<Seq<char>>, Option<Seq<char>>)>,
    toc: Seq<(Seq<char>, Seq<char>)>,
) -> Result<Seq<(Seq<char>, Seq<char>)>, Seq<char>> {
    let list = epub_list(items, toc);
    if list.len() == 0 {
        Err(msg_no_chapters())
    } else {
        Ok(list)
    }
}

/// The views of a loading result.
pub open spec fn loaded(r: Result<Vec<Chapter>, String>) -> Result<Seq<(Seq<char>, Seq<char>)>, Seq<char>> {
    match r {
        Ok(v) => Ok(chapter_pairs(v@)),
        Err(e) => Err(e@),
    }
}

pub open spec fn item_views(v: Seq<(Option<String>, Option<String>)>) -> Seq<(Option<Seq<char>>, Option<Seq<char>>)> {
    v.map_values(|it: (Option<String>, Option<String>)| (opt_view(it.0), opt_view(it.1)))
}

pub open spec fn toc_views(v: Seq<(String, String)>) -> Seq<(Seq<char>, Seq<char>)> {
    v.map_values(|e: (String, String)| (e.0@, e.1@))
}

fn before_hash_exec(s: &[char]) -> (r: Vec<char>)
    ensures
        r@ == before_hash(s@),
{
    let mut k: usize = 0;
    while k < s.len() && s[k] != '#'
        invariant
            k <= s@.len(),
            find_from(s@, 0, '#') == find_from(s@, k as int, '#'),
        decreases s@.len() - k,
    {
        k = k + 1;
    }
    let r = copy_range(s, 0, k);
    assert(r@ =~= s@.take(k as int));
    r
}

fn ends_with(s: &[char], p: &[char]) -> (b: bool)
    ensures
        b == has_suffix(s@, p@),
{
    if p.len() > s.len() {
        return false;
    }
    let tail = copy_range(s, s.len() - p.len(), s.len());
    assert(tail@ =~= s@.skip(s@.len() - p@.len()));
    chars_eq(tail.as_slice(), p)
}

/// The label of the table-of-contents entry for a resource path (see `toc_match`).
fn toc_label(rp: &[char], toc: &Vec<(String, String)>) -> (r: Option<Vec<char>>)
    ensures
        match r {
            Some(t) => toc_match(rp@, toc_views(toc@)) == Some(t@),
            None => toc_match(rp@, toc_views(toc@)) is None,
        },
{
    let ghost all = toc_views(toc@);
    let mut k: usize = 0;
    assert(all.skip(0) =~= all);
    while k < toc.len()
        invariant
            k <= toc@.len(),
            all == toc_views(toc@),
            toc_match(rp@, all) == toc_match(rp@, all.skip(k as int)),
        decreases toc@.len() - k,
    {
        assert(all.skip(k as int).drop_first() =~= all.skip(k + 1));
        assert(all.skip(k as int)[0] == (toc@[k as int].0@, toc@[k as int].1@));
        let content = chars_of(toc[k].1.as_str());
        let np = before_hash_exec(content.as_slice());
        if np.len() > 0 && (ends_with(rp, np.as_slice()) || ends_with(np.as_slice(), rp)) {
            let label = chars_of(toc[k].0.as_str());
            return Some(trim_chars(label.as_slice()));
        }
        k = k + 1;
    }
    None
}

/// Builds the chapters of an EPUB from each spine item's resource path and text
/// and the table of contents (see `epub_result`).
pub fn assemble_epub(items: Vec<(Option<String>, Option<String>)>, toc: Vec<(String, String)>) -> (r: Result<Vec<Chapter>, String>)
    ensures
        loaded(r) == epub_result(item_views(items@), toc_views(toc@)),
        r matches Ok(v) ==> unwrapped(v@),
{
    let ghost iv = item_views(items@);
    let ghost tv = toc_views(toc@);
    let mut chapters: Vec<Chapter> = Vec::new();
    let mut i: usize = 0;
    assert(iv.take(0) =~= Seq::<(Option<Seq<char>>, Option<Seq<char>>)>::empty());
    while i < items.len()
        invariant
            i <= items@.len(),
            iv == item_views(items@),
            tv == toc_views(toc@),
            chapter_pairs(chapters@) == epub_list(iv.take(i as int), tv),
            unwrapped(chapters@),
            chapters@.len() <= i,
        decreases items@.len() - i,
    {
        assert(iv.take(i + 1).drop_last() =~= iv.take(i as int));
        assert(iv.take(i + 1).last() == (opt_view(items@[i as int].0), opt_view(items@[i as int].1)));
        let ghost c0 = chapter_pairs(chapters@);
        if let Some(html) = &items[i].1 {
            let plain = strip_html(html.as_str());
            let pc = chars_of(plain.as_str());
            if !is_blank(pc.as_slice()) {
                let label: Option<Vec<char>> = match &items[i].0 {
                    Some(rp) => {
                        let rc = chars_of(rp.as_str());
                        toc_label(rc.as_slice(), &toc)
                    },
                    None => None,
                };
                let title: String = match label {
                    Some(t) => if t.len() > 0 {
                        string_of(t.as_slice())
                    } else {
                        first_line_title(plain.as_str(), chapters.len() + 1)
                    },
                    None => first_line_title(plain.as_str(), chapters.len() + 1),
                };
                chapters.push(Chapter { title, text: plain, lines: Vec::new() });
                assert(chapter_pairs(chapters@) =~= epub_list(iv.take(i + 1), tv));
            }
        }
        i = i + 1;
    }
    assert(iv.take(i as int) =~= iv);
    if chapters.len() == 0 {
        return Err("epub 中没有可读的章节内容".to_owned());
    }
    Ok(chapters)
}

/// What the epub crate reads of each spine item: resource path and text.
pub open spec fn epub_items(bytes: Seq<u8>) -> Seq<(Option<Seq<char>>, Option<Seq<char>>)> {
    epub_spine(bytes).map_values(|id: Seq<char>| (epub_resource_path(bytes, id), epub_resource_text(bytes, id)))
}

pub open spec fn open_failure_prefix() -> Seq<char> {
    "打开 epub 失败: "@
}

pub open spec fn msg_bad_root_file() -> Seq<char> {
    "打开 epub 失败: container.xml 中的 rootfile 路径没有上级目录"@
}

/// Reads an EPUB through the epub crate and builds its chapters. An EPUB whose
/// container names a `rootfile` path without a parent directory is refused with
/// `msg_bad_root_file` before the epub crate opens it.
fn load_epub(data: Vec<u8>) -> (r: Result<Vec<Chapter>, String>)
    ensures
        !root_file_safe(data@) ==> loaded(r) == Err::<Seq<(Seq<char>, Seq<char>)>, Seq<char>>(msg_bad_root_file()),
        root_file_safe(data@) && epub_opens(data@) ==> loaded(r) == epub_result(epub_items(data@), epub_toc(data@)),
        root_file_safe(data@) && !epub_opens(data@) ==> loaded(r) == Err::<Seq<(Seq<char>, Seq<char>)>, Seq<char>>(
            open_failure_prefix() + epub_open_error(data@),
        ),
        r matches Ok(v) ==> unwrapped(v@),
{
    let ghost bytes = data@;
    if !epub_root_file_safe(data.as_slice()) {
        return Err("打开 epub 失败: container.xml 中的 rootfile 路径没有上级目录".to_owned());
    }
    let mut f = match open_epub(data) {
        Ok(f) => f,
        Err(e) => {
            let mut msg = "打开 epub 失败: ".to_owned();
            let detail = doc_error_message(&e);
            msg.append(detail.as_str());
            return Err(msg);
        },
    };
    let ids = spine_ids(&f);
    let toc = toc_entries(&f);
    let ghost want = epub_items(bytes);
    let mut items: Vec<(Option<String>, Option<String>)> = Vec::new();
    let mut i: usize = 0;
    while i < ids.len()
        invariant
            i <= ids@.len(),
            f.source() == bytes,
            ids@.map_values(|s: String| s@) == epub_spine(bytes),
            want == epub_items(bytes),
            item_views(items@) == want.take(i as int),
        decreases ids@.len() - i,
    {
        let ghost v0 = item_views(items@);
        assert(ids@.map_values(|s: String| s@)[i as int] == ids@[i as int]@);
        let path = resource_path(&f, ids[i].as_str());
        let content = resource_text(&mut f, ids[i].as_str());
        assert(epub_spine(bytes)[i as int] == ids@[i as int]@);
        assert(want[i as int] == (opt_view(path), opt_view(content)));
        items.push((path, content));
        assert(item_views(items@) =~= v0.push(want[i as int]));
        i = i + 1;
        assert(item_views(items@) =~= want.take(i as int));
    }
    assert(want.take(i as int) =~= want);
    assemble_epub(items, toc)
}

/// What the chapters of a `.txt` or `.mobi` book are, from the file's bytes.
pub open spec fn plain_book(format: Format, data: Seq<u8>) -> Result<Seq<(Seq<char>, Seq<char>)>, Seq<char>> {
    match format {
        Format::Mobi => match mobi_text(data) {
            Ok(html) => Ok(chapters_of(plain_text(html))),
            Err(e) => Err(e),
        },
        _ => Ok(chapters_of(unix_newlines(utf8_lossy(data)))),
    }
}

/// Loads a whole book from its file's bytes and splits it into chapters: a text
/// file at its chapter headings, a MOBI file's text once stripped of HTML the
/// same way, an EPUB by its spine. Chapters come unwrapped.
pub fn load_chapters(book: &Book, data: Vec<u8>) -> (r: Result<Vec<Chapter>, String>)
    requires
        book.format == Format::Mobi ==> mobi_readable(data@),
    ensures
        r matches Ok(v) ==> unwrapped(v@),
        book.format != Format::Epub ==> loaded(r) == plain_book(book.format, data@),
        book.format == Format::Epub && !root_file_safe(data@) ==> loaded(r) == Err::<
            Seq<(Seq<char>, Seq<char>)>,
            Seq<char>,
        >(msg_bad_root_file()),
        book.format == Format::Epub && root_file_safe(data@) && epub_opens(data@) ==> loaded(r)
            == epub_result(epub_items(data@), epub_toc(data@)),
        book.format == Format::Epub && root_file_safe(data@) && !epub_opens(data@) ==> loaded(r) == Err::<
            Seq<(Seq<char>, Seq<char>)>,
            Seq<char>,
        >(open_failure_prefix() + epub_open_error(data@)),
{
    match book.format {
        Format::Txt => {
            let plain = decode_txt(data.as_slice());
            Ok(to_chapters(split_chapters(plain.as_str())))
        },
        Format::Epub => load_epub(data),
        Format::Mobi => {
            let html = match crate::mobi::load(data.as_slice()) {
                Ok(h) => h,
                Err(e) => return Err(e),
            };
            let plain = strip_html(html.as_str());
            Ok(to_chapters(split_chapters(plain.as_str())))
        },
    }
}

/// A text file's text has no carriage returns left once its line endings are made `'\n'`.
pub proof fn law_no_carriage_returns(s: Seq<char>)
    ensures
        forall|i: int| 0 <= i < unix_newlines(s).len() ==> #[trigger] unix_newlines(s)[i] != '\r',
    decreases s.len(),
{
    if s.len() > 0 {
        let (head, rest) = if s[0] == '\r' && s.len() > 1 && s[1] == '\n' {
            (seq!['\n'], s.skip(2))
        } else if s[0] == '\r' {
            (seq!['\n'], s.drop_first())
        } else {
            (seq![s[0]], s.drop_first())
        };
        law_no_carriage_returns(rest);
        let u = unix_newlines(s);
        assert(u == head + unix_newlines(rest));
        assert forall|i: int| 0 <= i < u.len() implies #[trigger] u[i] != '\r' by {
            if i >= 1 {
                assert(u[i] == unix_newlines(rest)[i - 1]);
            }
        }
    }
}


/// A chapter is titled by the first table-of-contents entry whose path, without its
/// fragment, matches the chapter's resource path (one ends with the other), whatever
/// entries follow it.
pub proof fn law_first_toc_entry_titles(rp: Seq<char>, html: Seq<char>, toc: Seq<(Seq<char>, Seq<char>)>)
    requires
        toc.len() > 0,
        before_hash(toc[0].1).len() > 0,
        has_suffix(rp, before_hash(toc[0].1)) || has_suffix(before_hash(toc[0].1), rp),
        trim(toc[0].0).len() > 0,
        trim(plain_text(html)).len() > 0,
    ensures
        epub_result(seq![(Some(rp), Some(html))], toc) == Ok::<Seq<(Seq<char>, Seq<char>)>, Seq<char>>(
            seq![(trim(toc[0].0), plain_text(html))],
        ),
{
    let items = seq![(Some(rp), Some(html))];
    assert(items.drop_last() =~= Seq::<(Option<Seq<char>>, Option<Seq<char>>)>::empty());
    assert(toc_match(rp, toc) == Some(trim(toc[0].0)));
    let prev = epub_list(items.drop_last(), toc);
    assert(prev == Seq::<(Seq<char>, Seq<char>)>::empty());
    assert(items.last() == (Some(rp), Some(html)));
    assert(epub_list(items, toc) == prev.push((trim(toc[0].0), plain_text(html))));
    assert(prev.push((trim(toc[0].0), plain_text(html))) =~= seq![(trim(toc[0].0), plain_text(html))]);
}

} // verus!
