//! The reader's decisions: what each key does on the shelf, in a book and in its
//! table of contents, and how the page and the progress bar are laid out.
use vstd::prelude::*;
use crate::strs::{append_chars, decimal, decimal_chars, string_of};
use crate::progress::{resolved, Position};

verus! {

/// Keys that mean something on the shelf.
#[derive(Clone, Copy, Debug, PartialEq, Eq, Structural)]
pub enum LibraryKey {
    Quit,
    Up,
    Down,
    Enter,
    Other,
}

/// What a key on the shelf does: quit, move the selection, open a book.
#[derive(Clone, Copy, Debug, PartialEq, Eq, Structural)]
pub struct LibraryStep {
    pub quit: bool,
    pub selected: Option<usize>,
    pub open: Option<usize>,
}

/// Keys that mean something while reading.
#[derive(Clone, Copy, Debug, PartialEq, Eq, Structural)]
pub enum ReaderKey {
    Back,
    Contents,
    LineUp,
    LineDown,
    PageUp,
    PageDown,
    Other,
}

/// What a key does while reading.
#[derive(Clone, Copy, Debug, PartialEq, Eq, Structural)]
pub enum ReaderStep {
    /// Save the position and go back to the shelf.
    Leave,
    /// Show the table of contents with this chapter selected.
    OpenContents { selected: usize },
    /// Show this chapter from this line.
    Scroll { chapter: usize, offset: usize },
    /// Nothing happens.
    Stay,
}

/// Keys that mean something in the table of contents.
#[derive(Clone, Copy, Debug, PartialEq, Eq, Structural)]
pub enum TocKey {
    Back,
    Up,
    Down,
    Enter,
    Other,
}

/// What a key does in the table of contents.
#[derive(Clone, Copy, Debug, PartialEq, Eq, Structural)]
pub enum TocStep {
    /// Go back to reading where the reader was.
    Back,
    /// Move the selection to this chapter.
    Select(usize),
    /// Go back to reading, from the top of the selected chapter if there is one.
    Jump(Option<usize>),
    /// Nothing happens.
    Stay,
}

/// One less, stopping at 0.
pub open spec fn dec_sat(i: nat, by: nat) -> nat {
    if i >= by { (i - by) as nat } else { 0 }
}

/// The last first line that still fills a page: `lines - page`, or 0.
pub open spec fn max_off(lines: nat, page: nat) -> nat {
    dec_sat(lines, page)
}

/// One more, but no further than `last`.
pub open spec fn inc_to(i: nat, by: nat, last: nat) -> nat {
    if i + by <= last { i + by } else { last }
}

pub open spec fn library_step(selected: Option<usize>, len: nat, key: LibraryKey) -> LibraryStep {
    let i: nat = match selected {
        Some(i) => i as nat,
        None => 0,
    };
    match key {
        LibraryKey::Quit => LibraryStep { quit: true, selected, open: None },
        LibraryKey::Up => if len > 0 {
            LibraryStep { quit: false, selected: Some(dec_sat(i, 1) as usize), open: None }
        } else {
            LibraryStep { quit: false, selected, open: None }
        },
        LibraryKey::Down => if len > 0 {
            LibraryStep { quit: false, selected: Some(inc_to(i, 1, (len - 1) as nat) as usize), open: None }
        } else {
            LibraryStep { quit: false, selected, open: None }
        },
        LibraryKey::Enter => LibraryStep {
            quit: false,
            selected,
            open: if len > 0 { selected } else { None },
        },
        LibraryKey::Other => LibraryStep { quit: false, selected, open: None },
    }
}

/// A key on the shelf of `len` books: `q` quits; up and down move the selection
/// (from the first book when none is selected) within the shelf; Enter opens the
/// selected book. An empty shelf only quits.
pub fn library_key(selected: Option<usize>, len: usize, key: LibraryKey) -> (r: LibraryStep)
    ensures
        r == library_step(selected, len as nat, key),
{
    let i: usize = match selected {
        Some(i) => i,
        None => 0,
    };
    match key {
        LibraryKey::Quit => LibraryStep { quit: true, selected, open: None },
        LibraryKey::Up => if len > 0 {
            LibraryStep { quit: false, selected: Some(if i > 0 { i - 1 } else { 0 }), open: None }
        } else {
            LibraryStep { quit: false, selected, open: None }
        },
        LibraryKey::Down => if len > 0 {
            LibraryStep { quit: false, selected: Some(if i < len - 1 { i + 1 } else { len - 1 }), open: None }
        } else {
            LibraryStep { quit: false, selected, open: None }
        },
        LibraryKey::Enter => LibraryStep {
            quit: false,
            selected,
            open: if len > 0 { selected } else { None },
        },
        LibraryKey::Other => LibraryStep { quit: false, selected, open: None },
    }
}

pub open spec fn reader_step(lengths: Seq<usize>, chapter: nat, offset: nat, page: nat, key: ReaderKey) -> ReaderStep {
    let m = max_off(lengths[chapter as int] as nat, page);
    let has_next = chapter + 1 < lengths.len();
    match key {
        ReaderKey::Back => ReaderStep::Leave,
        ReaderKey::Contents => ReaderStep::OpenContents { selected: chapter as usize },
        ReaderKey::LineUp | ReaderKey::PageUp => {
            let by: nat = if key == ReaderKey::LineUp { 1 } else { page };
            if offset == 0 && chapter > 0 {
                ReaderStep::Scroll {
                    chapter: (chapter - 1) as usize,
                    offset: max_off(lengths[chapter - 1] as nat, page) as usize,
                }
            } else {
                ReaderStep::Scroll { chapter: chapter as usize, offset: dec_sat(offset, by) as usize }
            }
        },
        ReaderKey::LineDown | ReaderKey::PageDown => {
            let by: nat = if key == ReaderKey::LineDown { 1 } else { page };
            if offset >= m && has_next {
                ReaderStep::Scroll { chapter: (chapter + 1) as usize, offset: 0 }
            } else {
                ReaderStep::Scroll { chapter: chapter as usize, offset: inc_to(offset, by, m) as usize }
            }
        },
        ReaderKey::Other => ReaderStep::Stay,
    }
}

/// `lines - page`, or 0.
pub fn max_offset(lines: usize, page: usize) -> (r: usize)
    ensures
        r == max_off(lines as nat, page as nat),
{
    if lines >= page { lines - page } else { 0 }
}

/// A key while reading chapter `chapter` at line `offset`, with `page` lines on
/// screen, in a book whose wrapped chapters have `lengths` lines. Esc leaves, `i`
/// opens the contents; up and left (or `p`) go back a line or a page, and at the
/// top of a chapter to the last page of the one before; down and right (or `n`)
/// go on a line or a page up to the chapter's last page, and from there to the
/// top of the next chapter.
pub fn reader_key(lengths: &[usize], chapter: usize, offset: usize, page: usize, key: ReaderKey) -> (r: ReaderStep)
    requires
        chapter < lengths@.len(),
    ensures
        r == reader_step(lengths@, chapter as nat, offset as nat, page as nat, key),
{
    let m = max_offset(lengths[chapter], page);
    let has_next = chapter + 1 < lengths.len();
    match key {
        ReaderKey::Back => ReaderStep::Leave,
        ReaderKey::Contents => ReaderStep::OpenContents { selected: chapter },
        ReaderKey::LineUp | ReaderKey::PageUp => {
            let by: usize = if key == ReaderKey::LineUp { 1 } else { page };
            if offset == 0 && chapter > 0 {
                ReaderStep::Scroll { chapter: chapter - 1, offset: max_offset(lengths[chapter - 1], page) }
            } else {
                ReaderStep::Scroll { chapter, offset: if offset >= by { offset - by } else { 0 } }
            }
        },
        ReaderKey::LineDown | ReaderKey::PageDown => {
            let by: usize = if key == ReaderKey::LineDown { 1 } else { page };
            if offset >= m && has_next {
                ReaderStep::Scroll { chapter: chapter + 1, offset: 0 }
            } else {
                let next = if offset >= m || by >= m - offset { m } else { offset + by };
                ReaderStep::Scroll { chapter, offset: next }
            }
        },
        ReaderKey::Other => ReaderStep::Stay,
    }
}

pub open spec fn toc_step(selected: Option<usize>, len: nat, key: TocKey) -> TocStep {
    let i: nat = match selected {
        Some(i) => i as nat,
        None => 0,
    };
    match key {
        TocKey::Back => TocStep::Back,
        TocKey::Up => TocStep::Select(dec_sat(i, 1) as usize),
        TocKey::Down => TocStep::Select(inc_to(i, 1, dec_sat(len, 1)) as usize),
        TocKey::Enter => TocStep::Jump(selected),
        TocKey::Other => TocStep::Stay,
    }
}

/// A key in the table of contents of `len` chapters: Esc goes back, up and down
/// (or `k` and `j`) move the selection within the list, Enter reads the selected
/// chapter from its top.
pub fn toc_key(selected: Option<usize>, len: usize, key: TocKey) -> (r: TocStep)
    ensures
        r == toc_step(selected, len as nat, key),
{
    let i: usize = match selected {
        Some(i) => i,
        None => 0,
    };
    match key {
        TocKey::Back => TocStep::Back,
        TocKey::Up => TocStep::Select(if i > 0 { i - 1 } else { 0 }),
        TocKey::Down => {
            let last = if len > 0 { len - 1 } else { 0 };
            TocStep::Select(if i < last { i + 1 } else { last })
        },
        TocKey::Enter => TocStep::Jump(selected),
        TocKey::Other => TocStep::Stay,
    }
}

/// Lines of text on a screen `height` rows high: one row is the progress bar,
/// and at least one line is shown.
pub open spec fn text_rows(height: nat) -> nat {
    let h = dec_sat(height, 1);
    if h >= 1 { h } else { 1 }
}

/// Lines of text on a screen `height` rows high (the last row is the progress bar).
pub fn content_height(height: u16) -> (r: usize)
    ensures
        r == text_rows(height as nat),
{
    let h = height as usize;
    let rows = if h >= 1 { h - 1 } else { 0 };
    if rows >= 1 { rows } else { 1 }
}

/// Lines a page holds: the text rows of the terminal, or 20 when its size is unknown.
pub fn page_size(terminal_height: Option<u16>) -> (r: usize)
    ensures
        r == match terminal_height {
            Some(h) => text_rows(h as nat),
            None => 20,
        },
{
    match terminal_height {
        Some(h) => content_height(h),
        None => 20,
    }
}

/// After rewrapping, the line that keeps the same share of the chapter read:
/// `offset * new_lines / max(old_lines, 1)`.
pub fn rescale_offset(offset: usize, old_lines: usize, new_lines: usize) -> (r: usize)
    requires
        offset * new_lines <= usize::MAX,
    ensures
        r == (offset as int * new_lines as int) / (if old_lines >= 1 { old_lines as int } else { 1int }),
{
    let old = if old_lines >= 1 { old_lines } else { 1 };
    offset * new_lines / old
}

/// Where reading goes on once the chapters are wrapped at a new width, when the
/// current chapter had `old_lines` lines: a saved position not yet placed is
/// resolved against the new line counts; otherwise, after an earlier wrap, the
/// offset keeps its share of the chapter; before any wrap it stays.
pub open spec fn placed_after_wrap(
    saved: Option<Position>,
    lengths: Seq<usize>,
    chapter: usize,
    offset: usize,
    old_lines: usize,
    was_wrapped: bool,
) -> (usize, usize) {
    match saved {
        Some(p) => resolved(p, lengths),
        None => if was_wrapped {
            (chapter, ((offset as int * lengths[chapter as int] as int) / (if old_lines >= 1 { old_lines as int } else { 1int })) as usize)
        } else {
            (chapter, offset)
        },
    }
}

/// Where reading goes on once the chapters are wrapped at a new width (see `placed_after_wrap`).
pub fn position_after_wrap(
    saved: Option<Position>,
    lengths: &[usize],
    chapter: usize,
    offset: usize,
    old_lines: usize,
    was_wrapped: bool,
) -> (r: (usize, usize))
    requires
        saved is None ==> chapter < lengths@.len(),
        saved is None && was_wrapped ==> offset * lengths@[chapter as int] <= usize::MAX,
    ensures
        r == placed_after_wrap(saved, lengths@, chapter, offset, old_lines, was_wrapped),
{
    match saved {
        Some(p) => p.resolve(lengths),
        None => if was_wrapped {
            (chapter, rescale_offset(offset, old_lines, lengths[chapter]))
        } else {
            (chapter, offset)
        },
    }
}

/// The first line shown, kept so that the last page is full: `min(offset, lines - height)`.
pub fn clamp_offset(offset: usize, lines: usize, height: usize) -> (r: usize)
    ensures
        r == (if offset as nat <= max_off(lines as nat, height as nat) { offset as nat } else { max_off(lines as nat, height as nat) }),
{
    let m = max_offset(lines, height);
    if offset <= m { offset } else { m }
}

/// Share of the chapter read once the page from `offset` is shown, in percent.
pub open spec fn percent_read(offset: nat, height: nat, lines: nat) -> nat {
    let total: nat = if lines >= 1 { lines } else { 1 };
    let seen: nat = if offset + height <= total { offset + height } else { total };
    seen * 100 / total
}

/// The share of the chapter read, in percent, with the page from `offset` shown.
pub fn progress_percent(offset: usize, height: usize, lines: usize) -> (r: usize)
    requires
        lines <= usize::MAX / 100,
    ensures
        r == percent_read(offset as nat, height as nat, lines as nat),
        r <= 100,
{
    let total = if lines >= 1 { lines } else { 1 };
    let seen = if offset >= total || height >= total - offset { total } else { offset + height };
    assert(seen * 100 <= total * 100) by (nonlinear_arith)
        requires
            seen <= total,
    ;
    assert((seen as int * 100) / (total as int) <= 100) by (nonlinear_arith)
        requires
            seen <= total,
            total >= 1,
    ;
    seen * 100 / total
}

/// Cells of the ten-cell bar filled at `percent`: one per ten percent, plus one, at most ten.
pub open spec fn filled_cells(percent: nat) -> nat {
    if percent / 10 + 1 <= 10 { percent / 10 + 1 } else { 10 }
}

/// The progress bar: `[` then `#` for each filled cell and `-` for the rest,
/// `]`, the percentage and `%`, as in `[####------]30%`.
pub open spec fn bar_text(percent: nat) -> Seq<char> {
    let filled = filled_cells(percent);
    seq!['['] + Seq::new(filled, |i: int| '#') + Seq::new((10 - filled) as nat, |i: int| '-')
        + seq![']'] + decimal(percent) + seq!['%']
}

/// The progress bar shown under the text.
pub fn progress_bar(percent: usize) -> (r: String)
    ensures
        r@ == bar_text(percent as nat),
{
    let filled: usize = if percent / 10 + 1 <= 10 { percent / 10 + 1 } else { 10 };
    let mut v: Vec<char> = vec!['['];
    let mut k: usize = 0;
    while k < 10
        invariant
            k <= 10,
            filled <= 10,
            filled == filled_cells(percent as nat),
            v@ == seq!['['] + Seq::new(if k <= filled { k as nat } else { filled as nat }, |i: int| '#')
                + Seq::new(if k <= filled { 0 } else { (k - filled) as nat }, |i: int| '-'),
        decreases 10 - k,
    {
        let ghost v0 = v@;
        if k < filled {
            v.push('#');
        } else {
            v.push('-');
        }
        k = k + 1;
        assert(v@ =~= seq!['['] + Seq::new(if k <= filled { k as nat } else { filled as nat }, |i: int| '#')
            + Seq::new(if k <= filled { 0 } else { (k - filled) as nat }, |i: int| '-'));
    }
    v.push(']');
    let d = decimal_chars(percent);
    append_chars(&mut v, d.as_slice());
    v.push('%');
    assert(v@ =~= bar_text(percent as nat));
    string_of(v.as_slice())
}

/// Scrolling never leaves the book: from a chapter of the book, shown from a line
/// no later than its last full page, every scroll key lands on a chapter of the
/// book, again no later than that chapter's last full page.
pub proof fn law_scroll_stays_in_book(lengths: Seq<usize>, chapter: nat, offset: nat, page: nat, key: ReaderKey)
    requires
        lengths.len() <= usize::MAX,
        chapter < lengths.len(),
        offset <= max_off(lengths[chapter as int] as nat, page),
    ensures
        reader_step(lengths, chapter, offset, page, key) matches ReaderStep::Scroll { chapter: c, offset: o }
            ==> c < lengths.len() && o <= max_off(lengths[c as int] as nat, page),
{
    let m = max_off(lengths[chapter as int] as nat, page);
    assert(m <= lengths[chapter as int]);
    if chapter > 0 {
        assert(max_off(lengths[chapter - 1] as nat, page) <= lengths[chapter - 1]);
    }
}

/// A line down and then a line up come back to the same line, inside a chapter.
pub proof fn law_line_down_then_up(lengths: Seq<usize>, chapter: nat, offset: nat, page: nat)
    requires
        chapter < lengths.len(),
        offset < max_off(lengths[chapter as int] as nat, page),
    ensures
        reader_step(lengths, chapter, offset, page, ReaderKey::LineDown)
            == (ReaderStep::Scroll { chapter: chapter as usize, offset: (offset + 1) as usize }),
        reader_step(lengths, chapter, offset + 1, page, ReaderKey::LineUp)
            == (ReaderStep::Scroll { chapter: chapter as usize, offset: offset as usize }),
{
}

/// A page down and then a page up come back to the same line, when the page
/// down stays inside the chapter.
pub proof fn law_page_down_then_up(lengths: Seq<usize>, chapter: nat, offset: nat, page: nat)
    requires
        chapter < lengths.len(),
        page >= 1,
        offset + page <= max_off(lengths[chapter as int] as nat, page),
    ensures
        reader_step(lengths, chapter, offset, page, ReaderKey::PageDown)
            == (ReaderStep::Scroll { chapter: chapter as usize, offset: (offset + page) as usize }),
        reader_step(lengths, chapter, offset + page, page, ReaderKey::PageUp)
            == (ReaderStep::Scroll { chapter: chapter as usize, offset: offset as usize }),
{
}

/// Moving the selection keeps it on the shelf, and in the table of contents.
pub proof fn law_selection_stays_in_list(selected: Option<usize>, len: nat)
    requires
        len >= 1,
        len <= usize::MAX,
        selected matches Some(i) ==> i < len,
    ensures
        library_step(selected, len, LibraryKey::Up).selected matches Some(i) && i < len,
        library_step(selected, len, LibraryKey::Down).selected matches Some(i) && i < len,
        toc_step(selected, len, TocKey::Up) matches TocStep::Select(i) && i < len,
        toc_step(selected, len, TocKey::Down) matches TocStep::Select(i) && i < len,
{
}


/// Going back from the top of a chapter, by a line or by a page alike, lands on the
/// last full page of the chapter before: `lengths[c - 1] - page` lines into it, or
/// its top when it is shorter than a page.
pub proof fn law_back_from_chapter_top(lengths: Seq<usize>, chapter: nat, page: nat, key: ReaderKey)
    requires
        0 < chapter < lengths.len(),
        key == ReaderKey::LineUp || key == ReaderKey::PageUp,
    ensures
        reader_step(lengths, chapter, 0, page, key) == (ReaderStep::Scroll {
            chapter: (chapter - 1) as usize,
            offset: (if lengths[chapter - 1] >= page { lengths[chapter - 1] - page } else { 0 }) as usize,
        }),
{
}

} // verus!
