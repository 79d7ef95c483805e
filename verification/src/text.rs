//! HTML cleanup, display-width line wrapping and chapter splitting.
use vstd::prelude::*;
use crate::strs::{
    append_chars, ascii_alphanumeric, chars_eq, copy_range, is_ascii_alphanumeric, lines, lower,
    lower_all, to_ascii_lowercase, trim, views, trim_chars, split_lines, chars_of, string_of,
    trim_end, trim_end_chars, ascii_digit, white_space, upper_all, is_ascii_digit, is_whitespace,
    to_ascii_uppercase, starts_with, decimal, decimal_chars, is_blank, line_end, strip_cr,
    lemma_line_end_bound, lemma_line_end_at, trim_start,
};

verus! {

// ---------------------------------------------------------------------------
// Numbers inside character references
// ---------------------------------------------------------------------------

/// The value of `c` as a digit in base `radix` (10 or 16), as `char::to_digit` gives it.
pub open spec fn digit_value(c: char, radix: nat) -> Option<nat> {
    if '0' <= c && c <= '9' {
        Some((c as nat - 48) as nat)
    } else if radix == 16 && 'a' <= c && c <= 'f' {
        Some((c as nat - 87) as nat)
    } else if radix == 16 && 'A' <= c && c <= 'F' {
        Some((c as nat - 55) as nat)
    } else {
        None
    }
}

pub open spec fn all_digits(d: Seq<char>, radix: nat) -> bool {
    forall|i: int| 0 <= i < d.len() ==> (#[trigger] digit_value(d[i], radix)) is Some
}

/// The number that the digits `d` spell in base `radix`.
pub open spec fn digits_value(d: Seq<char>, radix: nat) -> nat
    decreases d.len(),
{
    if d.len() == 0 {
        0
    } else {
        digits_value(d.drop_last(), radix) * radix + digit_value(d.last(), radix).unwrap_or(0)
    }
}

/// `u32::from_str_radix(s, radix)` as an `Option`: an optional `+`, then at least
/// one digit, and a value that fits in a `u32`.
pub open spec fn parse_u32(s: Seq<char>, radix: nat) -> Option<u32> {
    if s.len() == 0 {
        None
    } else {
        let d = if s[0] == '+' { s.drop_first() } else { s };
        if d.len() == 0 {
            None
        } else if all_digits(d, radix) && digits_value(d, radix) <= u32::MAX {
            Some(digits_value(d, radix) as u32)
        } else {
            None
        }
    }
}

/// A `u32` that names a Unicode scalar value (what `char::from_u32` accepts).
pub open spec fn is_scalar_value(n: u32) -> bool {
    n <= 0x10FFFF && !(0xD800 <= n && n <= 0xDFFF)
}

/// `char::from_u32`: `Some` exactly for scalar values, with that code point.
pub assume_specification[ char::from_u32 ](i: u32) -> (r: Option<char>)
    ensures
        r is Some <==> is_scalar_value(i),
        r matches Some(c) ==> c as u32 == i,
;

/// The number a numeric character reference spells: `#x`/`#X` then hex, or `#` then decimal.
pub open spec fn reference_number(e: Seq<char>) -> Option<u32> {
    let hex = if e.len() >= 2 && e[0] == '#' && e[1] == 'x' {
        parse_u32(e.skip(2), 16)
    } else if e.len() >= 2 && e[0] == '#' && e[1] == 'X' {
        parse_u32(e.skip(2), 16)
    } else {
        None
    };
    if hex is Some {
        hex
    } else if e.len() >= 1 && e[0] == '#' {
        parse_u32(e.skip(1), 10)
    } else {
        None
    }
}

/// What a character reference `&e;` stands for: a named entity, a numeric
/// reference to a valid scalar value, or nothing.
pub open spec fn entity_text(e: Seq<char>) -> Seq<char> {
    if e == seq!['a', 'm', 'p'] {
        seq!['&']
    } else if e == seq!['l', 't'] {
        seq!['<']
    } else if e == seq!['g', 't'] {
        seq!['>']
    } else if e == seq!['q', 'u', 'o', 't'] {
        seq!['"']
    } else if e == seq!['a', 'p', 'o', 's'] {
        seq!['\'']
    } else if e == seq!['n', 'b', 's', 'p'] {
        seq![' ']
    } else if e == seq!['m', 'd', 'a', 's', 'h'] {
        seq!['\u{2014}']
    } else if e == seq!['n', 'd', 'a', 's', 'h'] {
        seq!['\u{2013}']
    } else if e == seq!['h', 'e', 'l', 'l', 'i', 'p'] {
        seq!['\u{2026}']
    } else if e == seq!['l', 'd', 'q', 'u', 'o'] {
        seq!['\u{201c}']
    } else if e == seq!['r', 'd', 'q', 'u', 'o'] {
        seq!['\u{201d}']
    } else if e == seq!['l', 's', 'q', 'u', 'o'] {
        seq!['\u{2018}']
    } else if e == seq!['r', 's', 'q', 'u', 'o'] {
        seq!['\u{2019}']
    } else {
        match reference_number(e) {
            Some(n) => if is_scalar_value(n) {
                seq![n as char]
            } else {
                Seq::empty()
            },
            None => Seq::empty(),
        }
    }
}

proof fn lemma_digits_value_prefix(d: Seq<char>, k: int, radix: nat)
    requires
        0 <= k <= d.len(),
        radix >= 1,
    ensures
        digits_value(d.take(k), radix) <= digits_value(d, radix),
    decreases d.len() - k,
{
    if k < d.len() {
        lemma_digits_value_prefix(d, k + 1, radix);
        assert(d.take(k + 1).drop_last() =~= d.take(k));
        let v = digits_value(d.take(k), radix);
        assert(v * radix >= v) by (nonlinear_arith)
            requires
                radix >= 1,
        ;
    } else {
        assert(d.take(k) =~= d);
    }
}

/// `char::to_digit`.
fn digit_of(c: char, radix: u32) -> (r: Option<u32>)
    requires
        radix == 10 || radix == 16,
    ensures
        r is Some <==> digit_value(c, radix as nat) is Some,
        r matches Some(v) ==> v == digit_value(c, radix as nat).unwrap() && v < radix,
{
    if '0' <= c && c <= '9' {
        Some(c as u32 - 48)
    } else if radix == 16 && 'a' <= c && c <= 'f' {
        Some(c as u32 - 87)
    } else if radix == 16 && 'A' <= c && c <= 'F' {
        Some(c as u32 - 55)
    } else {
        None
    }
}

/// `u32::from_str_radix(s, radix).ok()` for radix 10 or 16.
pub fn parse_number(s: &[char], radix: u32) -> (r: Option<u32>)
    requires
        radix == 10 || radix == 16,
    ensures
        r == parse_u32(s@, radix as nat),
{
    if s.len() == 0 {
        return None;
    }
    let start: usize = if s[0] == '+' { 1 } else { 0 };
    let ghost d = if s@[0] == '+' { s@.drop_first() } else { s@ };
    assert(d =~= s@.skip(start as int));
    if start == s.len() {
        return None;
    }
    let mut acc: u64 = 0;
    let mut i = start;
    while i < s.len()
        invariant
            start <= i <= s@.len(),
            s@.len() > 0,
            start < s@.len(),
            d == (if s@[0] == '+' { s@.drop_first() } else { s@ }),
            d == s@.skip(start as int),
            radix == 10 || radix == 16,
            all_digits(s@.subrange(start as int, i as int), radix as nat),
            acc == digits_value(s@.subrange(start as int, i as int), radix as nat),
            acc <= u32::MAX,
        decreases s@.len() - i,
    {
        let ghost pre = s@.subrange(start as int, i as int);
        let ghost next = s@.subrange(start as int, i + 1);
        assert(next.drop_last() =~= pre);
        match digit_of(s[i], radix) {
            None => {
                assert(!all_digits(d, radix as nat)) by {
                    assert(d[i - start] == s@[i as int]);
                    assert(digit_value(d[i - start], radix as nat) is None);
                }
                return None;
            },
            Some(v) => {
                assert(acc * (radix as u64) <= u32::MAX * 16) by (nonlinear_arith)
                    requires
                        acc <= u32::MAX,
                        radix <= 16,
                ;
                acc = acc * (radix as u64) + (v as u64);
                assert(acc == digits_value(next, radix as nat));
                if acc > u32::MAX as u64 {
                    proof {
                        assert(next =~= d.take(i + 1 - start));
                        lemma_digits_value_prefix(d, i + 1 - start, radix as nat);
                    }
                    return None;
                }
                assert(all_digits(next, radix as nat)) by {
                    assert forall|j: int| 0 <= j < next.len() implies
                        (#[trigger] digit_value(next[j], radix as nat)) is Some by {
                        if j < pre.len() {
                            assert(next[j] == pre[j]);
                        }
                    }
                }
            },
        }
        i = i + 1;
    }
    assert(s@.subrange(start as int, s@.len() as int) =~= d);
    Some(acc as u32)
}

proof fn lemma_skip_subrange(s: Seq<char>, k: int)
    requires
        0 <= k <= s.len(),
    ensures
        s.skip(k) == s.subrange(k, s.len() as int),
{
    assert(s.skip(k) =~= s.subrange(k, s.len() as int));
}

/// Whether `e` equals the characters of `lit`.
fn is_word(e: &[char], lit: &[char]) -> (b: bool)
    ensures
        b == (e@ == lit@),
{
    chars_eq(e, lit)
}

/// The text a character reference `&e;` stands for.
fn decode_entity(e: &[char]) -> (r: Vec<char>)
    ensures
        r@ == entity_text(e@),
{
    if is_word(e, &['a', 'm', 'p']) {
        return vec!['&'];
    }
    if is_word(e, &['l', 't']) {
        return vec!['<'];
    }
    if is_word(e, &['g', 't']) {
        return vec!['>'];
    }
    if is_word(e, &['q', 'u', 'o', 't']) {
        return vec!['"'];
    }
    if is_word(e, &['a', 'p', 'o', 's']) {
        return vec!['\''];
    }
    if is_word(e, &['n', 'b', 's', 'p']) {
        return vec![' '];
    }
    if is_word(e, &['m', 'd', 'a', 's', 'h']) {
        return vec!['\u{2014}'];
    }
    if is_word(e, &['n', 'd', 'a', 's', 'h']) {
        return vec!['\u{2013}'];
    }
    if is_word(e, &['h', 'e', 'l', 'l', 'i', 'p']) {
        return vec!['\u{2026}'];
    }
    if is_word(e, &['l', 'd', 'q', 'u', 'o']) {
        return vec!['\u{201c}'];
    }
    if is_word(e, &['r', 'd', 'q', 'u', 'o']) {
        return vec!['\u{201d}'];
    }
    if is_word(e, &['l', 's', 'q', 'u', 'o']) {
        return vec!['\u{2018}'];
    }
    if is_word(e, &['r', 's', 'q', 'u', 'o']) {
        return vec!['\u{2019}'];
    }
    let mut hex: Option<u32> = None;
    if e.len() >= 2 && e[0] == '#' && (e[1] == 'x' || e[1] == 'X') {
        let digits = copy_range(e, 2, e.len());
        proof {
            lemma_skip_subrange(e@, 2);
        }
        hex = parse_number(digits.as_slice(), 16);
    }
    let num = if hex.is_some() {
        hex
    } else if e.len() >= 1 && e[0] == '#' {
        let digits = copy_range(e, 1, e.len());
        proof {
            lemma_skip_subrange(e@, 1);
        }
        parse_number(digits.as_slice(), 10)
    } else {
        None
    };
    assert(num == reference_number(e@));
    match num {
        Some(n) => match char::from_u32(n) {
            Some(c) => {
                proof {
                    vstd::utf8::char_u32_cast(c, n);
                }
                vec![c]
            },
            None => Vec::new(),
        },
        None => Vec::new(),
    }
}

// ---------------------------------------------------------------------------
// HTML to plain text
// ---------------------------------------------------------------------------

/// End of the run of ASCII letters and digits that starts at `i`.
pub open spec fn alnum_end(s: Seq<char>, i: int) -> int
    decreases s.len() - i,
{
    if 0 <= i < s.len() && ascii_alphanumeric(s[i]) {
        alnum_end(s, i + 1)
    } else {
        i
    }
}

/// Index of the first `c` at or after `i`, or `s.len()`.
pub open spec fn find_from(s: Seq<char>, i: int, c: char) -> int
    decreases s.len() - i,
{
    if 0 <= i < s.len() {
        if s[i] == c {
            i
        } else {
            find_from(s, i + 1, c)
        }
    } else {
        s.len() as int
    }
}

/// Where scanning resumes after the rest of a tag: just past the next `'>'`, or the end.
pub open spec fn past_gt(s: Seq<char>, i: int) -> int {
    let k = find_from(s, i, '>');
    if k < s.len() {
        k + 1
    } else {
        s.len() as int
    }
}

/// Skipping the body of a `<script>` or `<style>` element: the first position
/// `m > w` at which the text read since `w`, lowercased, ends with `pat`
/// (`"</script"` or `"</style"`); the end of input when there is none. The rest
/// of the closing tag, up to its `'>'`, is skipped after it.
pub open spec fn close_end(s: Seq<char>, w: int, m: int, pat: Seq<char>) -> int
    decreases s.len() - m,
{
    if m < s.len() {
        let m1 = m + 1;
        if m1 - w >= pat.len() && lower_all(s.subrange(m1 - pat.len(), m1)) == pat {
            m1
        } else {
            close_end(s, w, m1, pat)
        }
    } else {
        s.len() as int
    }
}

/// A character that may stand in the name of a character reference.
pub open spec fn entity_char(c: char) -> bool {
    ascii_alphanumeric(c) || c == '#'
}

/// Length of the reference name read after an `'&'` at `i - 1`: at most 11 characters
/// that are letters, digits or `'#'`.
pub open spec fn entity_len(s: Seq<char>, i: int, n: int) -> int
    decreases 11 - n,
{
    if 0 <= n < 11 && 0 <= i + n < s.len() && entity_char(s[i + n]) {
        entity_len(s, i, n + 1)
    } else {
        n
    }
}

/// Tags that begin a new line of text.
pub open spec fn block_tag(name: Seq<char>) -> bool {
    ||| name == seq!['p']
    ||| name == seq!['d', 'i', 'v']
    ||| name == seq!['b', 'r']
    ||| name == seq!['h', '1']
    ||| name == seq!['h', '2']
    ||| name == seq!['h', '3']
    ||| name == seq!['h', '4']
    ||| name == seq!['h', '5']
    ||| name == seq!['h', '6']
    ||| name == seq!['l', 'i']
    ||| name == seq!['t', 'r']
    ||| name == seq!['t', 'a', 'b', 'l', 'e']
    ||| name == seq!['s', 'e', 'c', 't', 'i', 'o', 'n']
}

/// Tags whose content is dropped.
pub open spec fn raw_text_tag(name: Seq<char>) -> bool {
    name == seq!['s', 'c', 'r', 'i', 'p', 't'] || name == seq!['s', 't', 'y', 'l', 'e']
}

proof fn lemma_alnum_end(s: Seq<char>, i: int)
    requires
        0 <= i <= s.len(),
    ensures
        i <= alnum_end(s, i) <= s.len(),
        forall|j: int| i <= j < alnum_end(s, i) ==> ascii_alphanumeric(#[trigger] s[j]),
    decreases s.len() - i,
{
    if i < s.len() && ascii_alphanumeric(s[i]) {
        lemma_alnum_end(s, i + 1);
    }
}

proof fn lemma_find_from(s: Seq<char>, i: int, c: char)
    requires
        0 <= i <= s.len(),
    ensures
        i <= find_from(s, i, c) <= s.len(),
    decreases s.len() - i,
{
    if i < s.len() && s[i] != c {
        lemma_find_from(s, i + 1, c);
    }
}

proof fn lemma_close_end(s: Seq<char>, w: int, m: int, pat: Seq<char>)
    requires
        0 <= m <= s.len(),
    ensures
        m <= close_end(s, w, m, pat) <= s.len(),
    decreases s.len() - m,
{
    if m < s.len() {
        let m1 = m + 1;
        if !(m1 - w >= pat.len() && lower_all(s.subrange(m1 - pat.len(), m1)) == pat) {
            lemma_close_end(s, w, m1, pat);
        }
    }
}

proof fn lemma_entity_len(s: Seq<char>, i: int, n: int)
    requires
        0 <= n <= 11,
        0 <= i,
        i + n <= s.len(),
    ensures
        n <= entity_len(s, i, n) <= 11,
        i + entity_len(s, i, n) <= s.len(),
    decreases 11 - n,
{
    if n < 11 && i + n < s.len() && entity_char(s[i + n]) {
        lemma_entity_len(s, i, n + 1);
    }
}

/// Where the tag that opens with `'<'` at `i` ends, with its lowercased name and
/// whether it is a closing tag: `(after_name, name, closing)`.
pub open spec fn tag_name_start(s: Seq<char>, i: int) -> int {
    if i + 1 < s.len() && s[i + 1] == '/' {
        i + 2
    } else {
        i + 1
    }
}

pub open spec fn tag_name(s: Seq<char>, i: int) -> Seq<char> {
    let j1 = tag_name_start(s, i);
    lower_all(s.subrange(j1, alnum_end(s, j1)))
}

pub open spec fn tag_closing(s: Seq<char>, i: int) -> bool {
    i + 1 < s.len() && s[i + 1] == '/'
}

/// Where scanning resumes after the tag that opens at `i`, and what it adds to the text.
pub open spec fn tag_step(s: Seq<char>, i: int) -> (int, Seq<char>) {
    let j3 = past_gt(s, alnum_end(s, tag_name_start(s, i)));
    let name = tag_name(s, i);
    if raw_text_tag(name) && !tag_closing(s, i) {
        (past_gt(s, close_end(s, j3, j3, seq!['<', '/'] + name)), Seq::empty())
    } else if block_tag(name) {
        (j3, seq!['\n'])
    } else {
        (j3, Seq::empty())
    }
}

/// Where scanning resumes after the `'&'` at `i`, and what it adds to the text.
pub open spec fn amp_step(s: Seq<char>, i: int) -> (int, Seq<char>) {
    let n = entity_len(s, i + 1, 0);
    let e_end = i + 1 + n;
    let next = if n < 11 && e_end < s.len() && s[e_end] == ';' {
        e_end + 1
    } else {
        e_end
    };
    if n == 0 {
        (next, seq!['&'])
    } else {
        (next, entity_text(s.subrange(i + 1, e_end)))
    }
}

/// One step of the HTML scanner at `i`: where it resumes and what it outputs.
pub open spec fn html_step(s: Seq<char>, i: int) -> (int, Seq<char>) {
    if s[i] == '<' {
        tag_step(s, i)
    } else if s[i] == '&' {
        amp_step(s, i)
    } else {
        (i + 1, seq![s[i]])
    }
}

pub proof fn lemma_html_step(s: Seq<char>, i: int)
    requires
        0 <= i < s.len(),
    ensures
        i < html_step(s, i).0 <= s.len(),
{
    if s[i] == '<' {
        let j1 = tag_name_start(s, i);
        lemma_alnum_end(s, j1);
        let j2 = alnum_end(s, j1);
        lemma_find_from(s, j2, '>');
        let j3 = past_gt(s, j2);
        lemma_close_end(s, j3, j3, seq!['<', '/'] + tag_name(s, i));
        lemma_find_from(s, close_end(s, j3, j3, seq!['<', '/'] + tag_name(s, i)), '>');
    } else if s[i] == '&' {
        lemma_entity_len(s, i + 1, 0);
    }
}

/// The text of `s` from `i` on, with tags removed or turned into line breaks, the
/// bodies of scripts and styles dropped, and character references decoded.
pub open spec fn html_text(s: Seq<char>, i: int) -> Seq<char>
    decreases s.len() - i,
{
    if 0 <= i < s.len() {
        let (next, piece) = html_step(s, i);
        proof {
            lemma_html_step(s, i);
        }
        piece + html_text(s, next)
    } else {
        Seq::empty()
    }
}

/// Lines joined back after trimming each one, with each run of blank lines cut
/// down to a single empty line; `blank` says whether the line before was blank.
pub open spec fn collapse(ls: Seq<Seq<char>>, blank: bool) -> Seq<char>
    decreases ls.len(),
{
    if ls.len() == 0 {
        Seq::empty()
    } else {
        let t = trim(ls[0]);
        if t.len() == 0 {
            (if blank { Seq::empty() } else { seq!['\n'] }) + collapse(ls.drop_first(), true)
        } else {
            t + seq!['\n'] + collapse(ls.drop_first(), false)
        }
    }
}

/// `s` without its leading line breaks.
pub open spec fn drop_newlines(s: Seq<char>) -> Seq<char>
    decreases s.len(),
{
    if s.len() > 0 && s[0] == '\n' {
        drop_newlines(s.drop_first())
    } else {
        s
    }
}

/// The plain text that `strip_html` makes of `html`.
pub open spec fn plain_text(html: Seq<char>) -> Seq<char> {
    drop_newlines(collapse(lines(html_text(html, 0)), false))
}

fn alnum_end_at(s: &[char], i: usize) -> (r: usize)
    requires
        i <= s@.len(),
    ensures
        r == alnum_end(s@, i as int),
{
    let mut j = i;
    while j < s.len() && is_ascii_alphanumeric(s[j])
        invariant
            i <= j <= s@.len(),
            alnum_end(s@, i as int) == alnum_end(s@, j as int),
        decreases s@.len() - j,
    {
        j = j + 1;
    }
    j
}

fn past_gt_at(s: &[char], i: usize) -> (r: usize)
    requires
        i <= s@.len(),
    ensures
        r == past_gt(s@, i as int),
{
    let mut k = i;
    while k < s.len() && s[k] != '>'
        invariant
            i <= k <= s@.len(),
            find_from(s@, i as int, '>') == find_from(s@, k as int, '>'),
        decreases s@.len() - k,
    {
        k = k + 1;
    }
    if k < s.len() {
        k + 1
    } else {
        s.len()
    }
}

/// Whether `s[from..from + pat.len()]`, lowercased, is `pat`.
fn lower_matches(s: &[char], from: usize, pat: &[char]) -> (b: bool)
    requires
        from + pat@.len() <= s@.len(),
    ensures
        b == (lower_all(s@.subrange(from as int, from + pat@.len())) == pat@),
{
    let ghost w = s@.subrange(from as int, from + pat@.len());
    let len = s.len();
    let mut k: usize = 0;
    while k < pat.len()
        invariant
            k <= pat@.len(),
            len == s@.len(),
            from + pat@.len() <= s@.len(),
            w == s@.subrange(from as int, from + pat@.len()),
            forall|j: int| 0 <= j < k ==> lower(w[j]) == pat@[j],
        decreases pat@.len() - k,
    {
        if to_ascii_lowercase(s[from + k]) != pat[k] {
            assert(lower_all(w)[k as int] != pat@[k as int]);
            return false;
        }
        k = k + 1;
    }
    assert(lower_all(w) =~= pat@);
    true
}

fn close_end_at(s: &[char], w: usize, pat: &[char]) -> (r: usize)
    requires
        w <= s@.len(),
    ensures
        r == close_end(s@, w as int, w as int, pat@),
{
    let mut m = w;
    while m < s.len()
        invariant
            w <= m <= s@.len(),
            close_end(s@, w as int, w as int, pat@) == close_end(s@, w as int, m as int, pat@),
        decreases s@.len() - m,
    {
        let m1 = m + 1;
        if m1 - w >= pat.len() && lower_matches(s, m1 - pat.len(), pat) {
            return m1;
        }
        m = m1;
    }
    s.len()
}

fn entity_len_at(s: &[char], i: usize) -> (r: usize)
    requires
        i <= s@.len(),
    ensures
        r == entity_len(s@, i as int, 0),
        r <= 11,
        i + r <= s@.len(),
{
    proof {
        lemma_entity_len(s@, i as int, 0);
    }
    let len = s.len();
    let mut n: usize = 0;
    while n < 11 && i + n < len && (is_ascii_alphanumeric(s[i + n]) || s[i + n] == '#')
        invariant
            n <= 11,
            len == s@.len(),
            i + n <= s@.len(),
            entity_len(s@, i as int, 0) == entity_len(s@, i as int, n as int),
        decreases 11 - n,
    {
        n = n + 1;
    }
    n
}

fn is_block_tag(name: &[char]) -> (b: bool)
    ensures
        b == block_tag(name@),
{
    if name.len() == 1 && name[0] == 'p' {
        assert(name@ =~= seq!['p']);
        return true;
    }
    if is_word(name, &['d', 'i', 'v']) {
        return true;
    }
    assert(name@ != seq!['d', 'i', 'v']);
    if is_word(name, &['b', 'r']) {
        return true;
    }
    assert(name@ != seq!['b', 'r']);
    if is_word(name, &['h', '1']) {
        return true;
    }
    assert(name@ != seq!['h', '1']);
    if is_word(name, &['h', '2']) {
        return true;
    }
    assert(name@ != seq!['h', '2']);
    if is_word(name, &['h', '3']) {
        return true;
    }
    assert(name@ != seq!['h', '3']);
    if is_word(name, &['h', '4']) {
        return true;
    }
    assert(name@ != seq!['h', '4']);
    if is_word(name, &['h', '5']) {
        return true;
    }
    assert(name@ != seq!['h', '5']);
    if is_word(name, &['h', '6']) {
        return true;
    }
    assert(name@ != seq!['h', '6']);
    if is_word(name, &['l', 'i']) {
        return true;
    }
    assert(name@ != seq!['l', 'i']);
    if is_word(name, &['t', 'r']) {
        return true;
    }
    assert(name@ != seq!['t', 'r']);
    if is_word(name, &['t', 'a', 'b', 'l', 'e']) {
        return true;
    }
    assert(name@ != seq!['t', 'a', 'b', 'l', 'e']);
    if is_word(name, &['s', 'e', 'c', 't', 'i', 'o', 'n']) {
        return true;
    }
    assert(name@ != seq!['s', 'e', 'c', 't', 'i', 'o', 'n']);
    false
}

fn is_raw_text_tag(name: &[char]) -> (b: bool)
    ensures
        b == raw_text_tag(name@),
{
    is_word(name, &['s', 'c', 'r', 'i', 'p', 't']) || is_word(name, &['s', 't', 'y', 'l', 'e'])
}

/// Lowercased copy of `s[from..to]`.
fn lowered_range(s: &[char], from: usize, to: usize) -> (r: Vec<char>)
    requires
        from <= to <= s@.len(),
    ensures
        r@ == lower_all(s@.subrange(from as int, to as int)),
{
    let mut r: Vec<char> = Vec::new();
    let mut k = from;
    while k < to
        invariant
            from <= k <= to <= s@.len(),
            r@ == lower_all(s@.subrange(from as int, k as int)),
        decreases to - k,
    {
        r.push(to_ascii_lowercase(s[k]));
        k = k + 1;
        assert(r@ =~= lower_all(s@.subrange(from as int, k as int)));
    }
    r
}

/// The first pass of `strip_html`: tags, scripts, styles and references.
fn html_pass(s: &[char]) -> (out: Vec<char>)
    ensures
        out@ == html_text(s@, 0),
{
    let mut out: Vec<char> = Vec::new();
    let mut i: usize = 0;
    while i < s.len()
        invariant
            i <= s@.len(),
            out@ + html_text(s@, i as int) == html_text(s@, 0),
        decreases s@.len() - i,
    {
        let ghost before = out@;
        proof {
            lemma_html_step(s@, i as int);
        }
        let c = s[i];
        let next: usize;
        if c == '<' {
            let closing = i + 1 < s.len() && s[i + 1] == '/';
            let j1 = if closing { i + 2 } else { i + 1 };
            let j2 = alnum_end_at(s, j1);
            proof {
                lemma_alnum_end(s@, j1 as int);
            }
            let name = lowered_range(s, j1, j2);
            let j3 = past_gt_at(s, j2);
            proof {
                lemma_find_from(s@, j2 as int, '>');
            }
            if is_raw_text_tag(name.as_slice()) && !closing {
                let mut pat: Vec<char> = vec!['<', '/'];
                append_chars(&mut pat, name.as_slice());
                let body_end = close_end_at(s, j3, pat.as_slice());
                proof {
                    lemma_close_end(s@, j3 as int, j3 as int, pat@);
                }
                next = past_gt_at(s, body_end);
                assert(html_step(s@, i as int) == (next as int, Seq::<char>::empty()));
            } else if is_block_tag(name.as_slice()) {
                out.push('\n');
                next = j3;
                assert(html_step(s@, i as int) == (next as int, seq!['\n']));
            } else {
                next = j3;
                assert(html_step(s@, i as int) == (next as int, Seq::<char>::empty()));
            }
        } else if c == '&' {
            let n = entity_len_at(s, i + 1);
            let e_end = i + 1 + n;
            next = if n < 11 && e_end < s.len() && s[e_end] == ';' { e_end + 1 } else { e_end };
            if n == 0 {
                out.push('&');
                assert(html_step(s@, i as int) == (next as int, seq!['&']));
            } else {
                let e = copy_range(s, i + 1, e_end);
                let d = decode_entity(e.as_slice());
                append_chars(&mut out, d.as_slice());
                assert(html_step(s@, i as int) == (next as int, d@));
            }
        } else {
            out.push(c);
            next = i + 1;
            assert(html_step(s@, i as int) == (next as int, seq![c]));
        }
        assert(html_text(s@, i as int) == (out@.skip(before.len() as int)) + html_text(s@, next as int));
        assert(out@ =~= before + out@.skip(before.len() as int));
        i = next;
    }
    assert(out@ + html_text(s@, i as int) =~= out@);
    out
}

/// The second pass of `strip_html`: trim lines and fold runs of blank lines.
fn collapse_lines(ls: &Vec<Vec<char>>) -> (r: Vec<char>)
    ensures
        r@ == collapse(views(ls@), false),
{
    let ghost all = views(ls@);
    let mut r: Vec<char> = Vec::new();
    let mut blank = false;
    let mut k: usize = 0;
    assert(all.skip(0) =~= all);
    while k < ls.len()
        invariant
            k <= ls@.len(),
            all == views(ls@),
            r@ + collapse(all.skip(k as int), blank) == collapse(all, false),
        decreases ls@.len() - k,
    {
        let ghost before = r@;
        let ghost b0 = blank;
        assert(all.skip(k as int).drop_first() =~= all.skip(k + 1));
        assert(all.skip(k as int)[0] == ls@[k as int]@);
        let t = trim_chars(ls[k].as_slice());
        if t.len() == 0 {
            if !blank {
                r.push('\n');
            }
            blank = true;
        } else {
            append_chars(&mut r, t.as_slice());
            r.push('\n');
            blank = false;
        }
        assert(r@ + collapse(all.skip(k + 1), blank) =~= before + collapse(all.skip(k as int), b0));
        k = k + 1;
    }
    assert(r@ + collapse(all.skip(k as int), blank) =~= r@);
    r
}

/// `s` without its leading line breaks.
fn drop_leading_newlines(s: &[char]) -> (r: Vec<char>)
    ensures
        r@ == drop_newlines(s@),
{
    let mut b: usize = 0;
    assert(s@.skip(0) =~= s@);
    while b < s.len() && s[b] == '\n'
        invariant
            b <= s@.len(),
            drop_newlines(s@) == drop_newlines(s@.skip(b as int)),
        decreases s@.len() - b,
    {
        assert(s@.skip(b as int).drop_first() =~= s@.skip(b + 1));
        b = b + 1;
    }
    let r = copy_range(s, b, s.len());
    assert(r@ =~= s@.skip(b as int));
    r
}

/// Turns HTML (an EPUB chapter, a MOBI text) into plain text for the terminal:
/// block tags start new lines, scripts and styles are dropped, character
/// references are decoded, lines are trimmed, runs of blank lines become one,
/// and leading blank lines are removed.
pub fn strip_html(html: &str) -> (r: String)
    ensures
        r@ == plain_text(html@),
{
    let s = chars_of(html);
    let raw = html_pass(s.as_slice());
    let ls = split_lines(raw.as_slice());
    let folded = collapse_lines(&ls);
    let out = drop_leading_newlines(folded.as_slice());
    string_of(out.as_slice())
}

// ---------------------------------------------------------------------------
// Wrapping by display width
// ---------------------------------------------------------------------------

/// The terminal width of a character as unicode-width computes it
/// (`UnicodeWidthChar::width`); `None` for control characters.
pub uninterp spec fn display_width(c: char) -> Option<usize>;

/// `UnicodeWidthChar::width` of unicode-width. Claims that the result is the
/// crate's width of `c`, and what its lookup does before any table: characters
/// below U+0020 and from U+007F to U+009F have no width, the other ASCII
/// characters have width 1, and every character from U+00A0 on has some width.
#[verifier::external_body]
fn char_width(c: char) -> (r: Option<usize>)
    ensures
        r == display_width(c),
        (c as u32) < 0x20 ==> r is None,
        0x20 <= (c as u32) < 0x7F ==> r == Some(1usize),
        0x7F <= (c as u32) < 0xA0 ==> r is None,
        (c as u32) >= 0xA0 ==> r is Some,
{
    unicode_width::UnicodeWidthChar::width(c)
}

/// Columns that a character takes when wrapping: its width, or 0 for a control character.
pub open spec fn columns(c: char) -> nat {
    match display_width(c) {
        Some(w) => w as nat,
        None => 0,
    }
}

/// Columns that a character takes when wrapping (`columns`): none for an ASCII or
/// C1 control character, one for any other ASCII character.
pub fn char_columns(c: char) -> (n: usize)
    ensures
        n == columns(c),
        (c as u32) < 0x20 || (0x7F <= (c as u32) && (c as u32) < 0xA0) ==> n == 0,
        0x20 <= (c as u32) < 0x7F ==> n == 1,
{
    match char_width(c) {
        Some(w) => w,
        None => 0,
    }
}

/// Greedy wrapping of `l` at `width` columns: the finished rows, the row being
/// filled, and its width. A character that would overflow a non-empty row starts
/// a new one.
pub open spec fn wrap_state(l: Seq<char>, width: nat) -> (Seq<Seq<char>>, Seq<char>, nat)
    decreases l.len(),
{
    if l.len() == 0 {
        (Seq::empty(), Seq::empty(), 0)
    } else {
        let (done, cur, used) = wrap_state(l.drop_last(), width);
        let c = l.last();
        if used + columns(c) > width && cur.len() > 0 {
            (done.push(cur), seq![c], columns(c))
        } else {
            (done, cur.push(c), used + columns(c))
        }
    }
}

/// The rows that one line becomes: an empty line stays one empty row.
pub open spec fn wrap_line(l: Seq<char>, width: nat) -> Seq<Seq<char>> {
    if l.len() == 0 {
        seq![Seq::empty()]
    } else {
        let (done, cur, used) = wrap_state(l, width);
        if cur.len() > 0 {
            done.push(cur)
        } else {
            done
        }
    }
}

/// The rows of a sequence of lines, each with its trailing white space cut.
pub open spec fn wrap_lines(ls: Seq<Seq<char>>, width: nat) -> Seq<Seq<char>>
    decreases ls.len(),
{
    if ls.len() == 0 {
        Seq::empty()
    } else {
        wrap_line(trim_end(ls[0]), width) + wrap_lines(ls.drop_first(), width)
    }
}

/// What `wrap_text` returns: the rows of every line of `text` at width
/// `max(width, 1)`, and one empty row when there are none.
pub open spec fn wrapped(text: Seq<char>, width: nat) -> Seq<Seq<char>> {
    let r = wrap_lines(lines(text), if width == 0 { 1 } else { width });
    if r.len() == 0 {
        seq![Seq::empty()]
    } else {
        r
    }
}

/// The views of a sequence of strings.
pub open spec fn string_views(v: Seq<String>) -> Seq<Seq<char>> {
    v.map_values(|s: String| s@)
}

/// Rows of one non-empty line.
fn wrap_one(l: &[char], width: usize, out: &mut Vec<Vec<char>>)
    requires
        l@.len() > 0,
        width >= 1,
    ensures
        views(final(out)@) == views(old(out)@) + wrap_line(l@, width as nat),
{
    let ghost start = views(out@);
    let mut done: Vec<Vec<char>> = Vec::new();
    let mut cur: Vec<char> = Vec::new();
    let mut used: usize = 0;
    let mut i: usize = 0;
    assert(l@.take(0) =~= Seq::<char>::empty());
    while i < l.len()
        invariant
            i <= l@.len(),
            width >= 1,
            (views(done@), cur@, used as nat) == wrap_state(l@.take(i as int), width as nat),
            cur@.len() == 0 ==> used == 0,
        decreases l@.len() - i,
    {
        let c = l[i];
        let w = char_columns(c);
        assert(l@.take(i + 1).drop_last() =~= l@.take(i as int));
        assert(l@.take(i + 1).last() == c);
        let over = used > width || w > width - used;
        if over && cur.len() > 0 {
            let full = cur;
            let ghost d0 = views(done@);
            done.push(full);
            assert(views(done@) =~= d0.push(full@));
            cur = Vec::new();
            cur.push(c);
            assert(cur@ =~= seq![c]);
            used = w;
        } else {
            cur.push(c);
            used = used + w;
        }
        i = i + 1;
    }
    assert(l@.take(l@.len() as int) =~= l@);
    let ghost o0 = out@;
    let ghost d0 = done@;
    out.append(&mut done);
    assert(views(out@) =~= views(o0) + views(d0));
    if cur.len() > 0 {
        let ghost o0 = views(out@);
        out.push(cur);
        assert(views(out@) =~= o0.push(cur@));
    }
}

/// Wraps text to a terminal width, counting wide characters (such as CJK) as two
/// columns: each line, with trailing white space cut, is filled greedily to
/// `max(width, 1)` columns; an empty line stays an empty row, and an empty text
/// gives one empty row.
pub fn wrap_text(text: &str, width: usize) -> (r: Vec<String>)
    ensures
        string_views(r@) == wrapped(text@, width as nat),
{
    let w = if width == 0 { 1 } else { width };
    let s = chars_of(text);
    let ls = split_lines(s.as_slice());
    let ghost all = views(ls@);
    let mut rows: Vec<Vec<char>> = Vec::new();
    let mut k: usize = 0;
    assert(all.skip(0) =~= all);
    while k < ls.len()
        invariant
            k <= ls@.len(),
            w >= 1,
            all == views(ls@),
            views(rows@) + wrap_lines(all.skip(k as int), w as nat) == wrap_lines(all, w as nat),
        decreases ls@.len() - k,
    {
        let ghost before = views(rows@);
        assert(all.skip(k as int).drop_first() =~= all.skip(k + 1));
        assert(all.skip(k as int)[0] == ls@[k as int]@);
        let t = trim_end_chars(ls[k].as_slice());
        if t.len() == 0 {
            rows.push(Vec::new());
            assert(views(rows@) =~= before + wrap_line(t@, w as nat));
        } else {
            wrap_one(t.as_slice(), w, &mut rows);
        }
        assert(views(rows@) + wrap_lines(all.skip(k + 1), w as nat) =~= before + wrap_lines(all.skip(k as int), w as nat));
        k = k + 1;
    }
    assert(views(rows@) + wrap_lines(all.skip(k as int), w as nat) =~= views(rows@));
    if rows.len() == 0 {
        rows.push(Vec::new());
        assert(views(rows@) =~= seq![Seq::<char>::empty()]);
    }
    let mut r: Vec<String> = Vec::new();
    let mut k: usize = 0;
    while k < rows.len()
        invariant
            k <= rows@.len(),
            string_views(r@) == views(rows@).take(k as int),
        decreases rows@.len() - k,
    {
        let ghost r0 = string_views(r@);
        let line = string_of(rows[k].as_slice());
        r.push(line);
        assert(string_views(r@) =~= r0.push(line@));
        assert(views(rows@).take(k + 1) =~= views(rows@).take(k as int).push(rows@[k as int]@));
        k = k + 1;
        assert(string_views(r@) =~= views(rows@).take(k as int));
    }
    assert(views(rows@).take(k as int) =~= views(rows@));
    r
}

// ---------------------------------------------------------------------------
// Chapters
// ---------------------------------------------------------------------------

/// `p` is a prefix of `s`.
pub open spec fn has_prefix(s: Seq<char>, p: Seq<char>) -> bool {
    p.len() <= s.len() && s.take(p.len() as int) == p
}

/// A digit of a chapter number: ASCII, or one of 零一二三四五六七八九十百千万两.
pub open spec fn numeral_char(c: char) -> bool {
    ||| ascii_digit(c)
    ||| c == '零' || c == '一' || c == '二' || c == '三' || c == '四'
    ||| c == '五' || c == '六' || c == '七' || c == '八' || c == '九'
    ||| c == '十' || c == '百' || c == '千' || c == '万' || c == '两'
}

/// The word after a chapter number: 章节回卷部幕.
pub open spec fn unit_char(c: char) -> bool {
    c == '章' || c == '节' || c == '回' || c == '卷' || c == '部' || c == '幕'
}

/// End of the run of numeral characters that starts at `i`.
pub open spec fn numeral_end(s: Seq<char>, i: int) -> int
    decreases s.len() - i,
{
    if 0 <= i < s.len() && numeral_char(s[i]) {
        numeral_end(s, i + 1)
    } else {
        i
    }
}

/// Headings that need no number: 楔子, 序章, 序言, 尾声, 终章, 番外.
pub open spec fn named_heading(s: Seq<char>) -> bool {
    ||| has_prefix(s, seq!['楔', '子'])
    ||| has_prefix(s, seq!['序', '章'])
    ||| has_prefix(s, seq!['序', '言'])
    ||| has_prefix(s, seq!['尾', '声'])
    ||| has_prefix(s, seq!['终', '章'])
    ||| has_prefix(s, seq!['番', '外'])
}

/// Whether a line is a chapter heading. Trimmed, it has 2 to 40 characters and is
/// either 第 + a number + a unit word that ends the line or is followed by white
/// space, or starts with `CHAPTER ` in any ASCII case, or with one of the named
/// headings.
pub open spec fn heading(line: Seq<char>) -> bool {
    let s = trim(line);
    if s.len() < 2 || s.len() > 40 {
        false
    } else {
        let i = numeral_end(s, 1);
        if s[0] == '第' && i > 1 && i < s.len() && unit_char(s[i]) {
            i + 1 == s.len() || white_space(s[i + 1])
        } else {
            has_prefix(upper_all(s), seq!['C', 'H', 'A', 'P', 'T', 'E', 'R', ' '])
                || named_heading(s)
        }
    }
}

fn is_numeral_char(c: char) -> (b: bool)
    ensures
        b == numeral_char(c),
{
    is_ascii_digit(c) || c == '零' || c == '一' || c == '二' || c == '三' || c == '四' || c == '五'
        || c == '六' || c == '七' || c == '八' || c == '九' || c == '十' || c == '百' || c == '千'
        || c == '万' || c == '两'
}

fn is_unit_char(c: char) -> (b: bool)
    ensures
        b == unit_char(c),
{
    c == '章' || c == '节' || c == '回' || c == '卷' || c == '部' || c == '幕'
}

/// Whether `s` begins with `p`.
fn begins(s: &[char], p: &[char]) -> (b: bool)
    ensures
        b == has_prefix(s@, p@),
{
    starts_with(s, p)
}

/// Decides whether a line is a chapter heading (第X章/回/节/卷, `Chapter N`, 楔子,
/// 序章, 尾声, 番外 and the like).
pub fn is_chapter_heading(line: &str) -> (b: bool)
    ensures
        b == heading(line@),
{
    let all = chars_of(line);
    is_heading_chars(all.as_slice())
}

fn is_heading_chars(line: &[char]) -> (b: bool)
    ensures
        b == heading(line@),
{
    let s = trim_chars(line);
    let n = s.len();
    if n < 2 || n > 40 {
        return false;
    }
    let mut i: usize = 1;
    while i < n && is_numeral_char(s[i])
        invariant
            1 <= i <= n,
            n == s@.len(),
            numeral_end(s@, 1) == numeral_end(s@, i as int),
        decreases n - i,
    {
        i = i + 1;
    }
    if s[0] == '第' && i > 1 && i < n && is_unit_char(s[i]) {
        return i + 1 == n || is_whitespace(s[i + 1]);
    }
    let mut up: Vec<char> = Vec::new();
    let mut k: usize = 0;
    while k < n
        invariant
            k <= n,
            n == s@.len(),
            up@ == upper_all(s@.take(k as int)),
        decreases n - k,
    {
        up.push(to_ascii_uppercase(s[k]));
        k = k + 1;
        assert(up@ =~= upper_all(s@.take(k as int)));
    }
    assert(s@.take(n as int) =~= s@);
    if begins(up.as_slice(), &['C', 'H', 'A', 'P', 'T', 'E', 'R', ' ']) {
        return true;
    }
    begins(s.as_slice(), &['楔', '子']) || begins(s.as_slice(), &['序', '章'])
        || begins(s.as_slice(), &['序', '言']) || begins(s.as_slice(), &['尾', '声'])
        || begins(s.as_slice(), &['终', '章']) || begins(s.as_slice(), &['番', '外'])
}

/// The first line of `ls` that is not blank, trimmed.
pub open spec fn first_nonblank(ls: Seq<Seq<char>>) -> Option<Seq<char>>
    decreases ls.len(),
{
    if ls.len() == 0 {
        None
    } else if trim(ls[0]).len() > 0 {
        Some(trim(ls[0]))
    } else {
        first_nonblank(ls.drop_first())
    }
}

/// At most the first 24 characters of `t`.
pub open spec fn head24(t: Seq<char>) -> Seq<char> {
    if t.len() <= 24 {
        t
    } else {
        t.take(24)
    }
}

/// `第 {index} 节`.
pub open spec fn section_title(index: nat) -> Seq<char> {
    seq!['第', ' '] + decimal(index) + seq![' ', '节']
}

/// The title of a chapter body: its first non-blank line, trimmed, cut to 24
/// characters; `第 {index} 节` when every line is blank.
pub open spec fn body_title(body: Seq<char>, index: nat) -> Seq<char> {
    match first_nonblank(lines(body)) {
        Some(t) => head24(t),
        None => section_title(index),
    }
}

/// The title for a chapter body, or `第 {index} 节` when it has no text.
pub fn title_of(body: &[char], index: usize) -> (r: Vec<char>)
    ensures
        r@ == body_title(body@, index as nat),
{
    let ls = split_lines(body);
    let ghost all = views(ls@);
    let mut k: usize = 0;
    assert(all.skip(0) =~= all);
    while k < ls.len()
        invariant
            k <= ls@.len(),
            all == views(ls@),
            all == lines(body@),
            first_nonblank(all) == first_nonblank(all.skip(k as int)),
        decreases ls@.len() - k,
    {
        assert(all.skip(k as int).drop_first() =~= all.skip(k + 1));
        assert(all.skip(k as int)[0] == ls@[k as int]@);
        let t = trim_chars(ls[k].as_slice());
        if t.len() > 0 {
            assert(first_nonblank(all.skip(k as int)) == Some(t@));
            assert(first_nonblank(lines(body@)) == Some(t@));
            if t.len() <= 24 {
                return t;
            }
            let r = copy_range(t.as_slice(), 0, 24);
            assert(r@ =~= t@.take(24));
            return r;
        }
        k = k + 1;
    }
    let mut r: Vec<char> = vec!['第', ' '];
    let d = decimal_chars(index);
    append_chars(&mut r, d.as_slice());
    r.push(' ');
    r.push('节');
    assert(r@ =~= section_title(index as nat));
    r
}

/// A chapter made of `body` when `count` chapters come before it.
pub open spec fn make_chapter(count: nat, body: Seq<char>) -> (Seq<char>, Seq<char>) {
    (body_title(body, count + 1), body)
}

/// Splitting state after the lines `ls`: the finished chapters and the body
/// being gathered. A heading closes the body gathered so far, unless that is blank.
pub open spec fn split_state(ls: Seq<Seq<char>>) -> (Seq<(Seq<char>, Seq<char>)>, Seq<char>)
    decreases ls.len(),
{
    if ls.len() == 0 {
        (Seq::empty(), Seq::empty())
    } else {
        let (chs, cur) = split_state(ls.drop_last());
        let line = ls.last();
        if heading(line) {
            let chs2 = if trim(cur).len() > 0 {
                chs.push(make_chapter(chs.len(), cur))
            } else {
                chs
            };
            (chs2, line + seq!['\n'])
        } else {
            (chs, cur + line + seq!['\n'])
        }
    }
}

/// The `(title, body)` chapters of a text; text before the first heading is a
/// chapter too, and a text with no chapter gives one.
pub open spec fn chapters_of(text: Seq<char>) -> Seq<(Seq<char>, Seq<char>)> {
    let (chs, cur) = split_state(lines(text));
    if trim(cur).len() > 0 || chs.len() == 0 {
        chs.push(make_chapter(chs.len(), cur))
    } else {
        chs
    }
}

/// The views of `(title, body)` pairs.
pub open spec fn pair_views(v: Seq<(String, String)>) -> Seq<(Seq<char>, Seq<char>)> {
    v.map_values(|p: (String, String)| (p.0@, p.1@))
}

/// Adds a chapter made of `body`, titled after its first non-blank line.
fn push_chapter(chapters: &mut Vec<(String, String)>, body: Vec<char>)
    requires
        old(chapters)@.len() < usize::MAX,
    ensures
        final(chapters)@.len() == old(chapters)@.len() + 1,
        pair_views(final(chapters)@) == pair_views(old(chapters)@).push(
            make_chapter(old(chapters)@.len(), body@),
        ),
{
    let index: usize = chapters.len() + 1;
    let title = title_of(body.as_slice(), index);
    let ghost c0 = pair_views(chapters@);
    chapters.push((string_of(title.as_slice()), string_of(body.as_slice())));
    assert(pair_views(chapters@) =~= c0.push(make_chapter(c0.len(), body@)));
}

/// Splits plain text into `(title, body)` chapters at chapter headings. Text
/// before the first heading is kept as a chapter too, a blank stretch before a
/// heading is dropped, and there is always at least one chapter.
pub fn split_chapters(text: &str) -> (r: Vec<(String, String)>)
    ensures
        pair_views(r@) == chapters_of(text@),
        r@.len() >= 1,
{
    let s = chars_of(text);
    let ls = split_lines(s.as_slice());
    let ghost all = views(ls@);
    let mut chapters: Vec<(String, String)> = Vec::new();
    let mut cur: Vec<char> = Vec::new();
    let mut k: usize = 0;
    assert(all.take(0) =~= Seq::<Seq<char>>::empty());
    while k < ls.len()
        invariant
            k <= ls@.len(),
            all == views(ls@),
            all == lines(s@),
            (pair_views(chapters@), cur@) == split_state(all.take(k as int)),
            k == 0 ==> chapters@.len() == 0 && cur@.len() == 0,
            k > 0 ==> chapters@.len() < k,
        decreases ls@.len() - k,
    {
        assert(all.take(k + 1).drop_last() =~= all.take(k as int));
        assert(all.take(k + 1).last() == ls@[k as int]@);
        let line = ls[k].as_slice();
        if is_heading_chars(line) {
            if !is_blank(cur.as_slice()) {
                push_chapter(&mut chapters, cur);
            }
            cur = Vec::new();
        }
        append_chars(&mut cur, line);
        cur.push('\n');
        k = k + 1;
    }
    assert(all.take(k as int) =~= all);
    if !is_blank(cur.as_slice()) || chapters.len() == 0 {
        push_chapter(&mut chapters, cur);
    }
    chapters
}

// ---------------------------------------------------------------------------
// Laws
// ---------------------------------------------------------------------------

/// The rows joined back into one line.
pub open spec fn flatten(rows: Seq<Seq<char>>) -> Seq<char>
    decreases rows.len(),
{
    if rows.len() == 0 {
        Seq::empty()
    } else {
        flatten(rows.drop_last()) + rows.last()
    }
}

/// The columns a row takes.
pub open spec fn row_width(r: Seq<char>) -> nat
    decreases r.len(),
{
    if r.len() == 0 {
        0
    } else {
        row_width(r.drop_last()) + columns(r.last())
    }
}

/// A row fits in `width` columns, or is a single character too wide for any row.
pub open spec fn row_fits(r: Seq<char>, width: nat) -> bool {
    row_width(r) <= width || r.len() == 1
}

proof fn lemma_wrap_state(l: Seq<char>, width: nat)
    ensures
        ({
            let (done, cur, used) = wrap_state(l, width);
            &&& flatten(done) + cur == l
            &&& used == row_width(cur)
            &&& used <= width || cur.len() <= 1
            &&& forall|i: int| 0 <= i < done.len() ==> #[trigger] done[i].len() > 0 && row_fits(done[i], width)
        }),
    decreases l.len(),
{
    if l.len() > 0 {
        lemma_wrap_state(l.drop_last(), width);
        let (done, cur, used) = wrap_state(l.drop_last(), width);
        let c = l.last();
        assert(l =~= l.drop_last().push(c));
        if used + columns(c) > width && cur.len() > 0 {
            let d2 = done.push(cur);
            assert(d2.drop_last() =~= done);
            assert(flatten(d2) == flatten(done) + cur);
            assert(seq![c].drop_last() =~= Seq::<char>::empty());
            assert(seq![c].last() == c);
            assert(row_width(Seq::<char>::empty()) == 0);
            assert(row_width(seq![c]) == columns(c));
            assert(flatten(d2) + seq![c] =~= l);
        } else {
            assert(cur.push(c).drop_last() =~= cur);
            assert(flatten(done) + cur.push(c) =~= l);
        }
    }
}

/// Wrapping loses and adds no text: the rows of a line, joined, are the line.
pub proof fn law_wrap_keeps_text(l: Seq<char>, width: nat)
    ensures
        flatten(wrap_line(l, width)) == l,
{
    if l.len() == 0 {
        let rows = seq![Seq::<char>::empty()];
        assert(rows.drop_last() =~= Seq::<Seq<char>>::empty());
        assert(flatten(Seq::<Seq<char>>::empty()) == Seq::<char>::empty());
        assert(rows.last() == Seq::<char>::empty());
        assert(flatten(rows) =~= l);
    } else {
        lemma_wrap_state(l, width);
        let (done, cur, used) = wrap_state(l, width);
        if cur.len() > 0 {
            assert(done.push(cur).drop_last() =~= done);
        } else {
            assert(flatten(done) + cur =~= flatten(done));
        }
    }
}

/// Every row that wrapping makes of a non-empty line is non-empty and fits the
/// width, unless it is one character wider than the width on its own.
pub proof fn law_wrap_rows_fit(l: Seq<char>, width: nat)
    requires
        l.len() > 0,
    ensures
        forall|i: int| 0 <= i < wrap_line(l, width).len() ==>
            (#[trigger] wrap_line(l, width)[i]).len() > 0 && row_fits(wrap_line(l, width)[i], width),
{
    lemma_wrap_state(l, width);
    let (done, cur, used) = wrap_state(l, width);
    if cur.len() > 0 {
        let rows = done.push(cur);
        assert forall|i: int| 0 <= i < rows.len() implies (#[trigger] rows[i]).len() > 0 && row_fits(rows[i], width) by {
            if i < done.len() {
                assert(rows[i] == done[i]);
            }
        }
    }
}

/// No three line breaks in a row: at most one blank line between lines of text.
pub open spec fn no_blank_run(s: Seq<char>) -> bool {
    forall|i: int| 0 <= i && i + 2 < s.len() ==> !(#[trigger] s[i] == '\n' && s[i + 1] == '\n' && s[i + 2] == '\n')
}

pub open spec fn newline_free(s: Seq<char>) -> bool {
    forall|i: int| 0 <= i < s.len() ==> #[trigger] s[i] != '\n'
}

proof fn lemma_lines_newline_free(s: Seq<char>)
    ensures
        forall|i: int| 0 <= i < lines(s).len() ==> newline_free(#[trigger] lines(s)[i]),
    decreases s.len(),
{
    if s.len() > 0 {
        lemma_line_end_bound(s);
        let k = line_end(s);
        if k < s.len() {
            lemma_lines_newline_free(s.skip(k as int + 1));
            let first = strip_cr(s.take(k as int));
            assert(newline_free(first)) by {
                assert forall|i: int| 0 <= i < first.len() implies #[trigger] first[i] != '\n' by {
                    assert(first[i] == s[i]);
                }
            }
            let rest = lines(s.skip(k as int + 1));
            assert forall|i: int| 0 <= i < lines(s).len() implies newline_free(#[trigger] lines(s)[i]) by {
                if i > 0 {
                    assert(lines(s)[i] == rest[i - 1]);
                }
            }
        } else {
            assert(lines(s) == seq![s]);
        }
    }
}

proof fn lemma_trim_end_prefix(s: Seq<char>)
    ensures
        trim_end(s).len() <= s.len(),
        trim_end(s) == s.take(trim_end(s).len() as int),
        trim_end(s).len() > 0 ==> !white_space(trim_end(s).last()),
    decreases s.len(),
{
    if s.len() > 0 && white_space(s.last()) {
        lemma_trim_end_prefix(s.drop_last());
        assert(s.drop_last().take(trim_end(s).len() as int) =~= s.take(trim_end(s).len() as int));
    } else {
        assert(s.take(s.len() as int) =~= s);
    }
}

proof fn lemma_trim_start_suffix(s: Seq<char>)
    ensures
        trim_start(s).len() <= s.len(),
        trim_start(s) == s.skip(s.len() - trim_start(s).len()),
        trim_start(s).len() > 0 ==> !white_space(trim_start(s)[0]),
    decreases s.len(),
{
    if s.len() > 0 && white_space(s[0]) {
        lemma_trim_start_suffix(s.drop_first());
        assert(s.drop_first().skip(s.len() - 1 - trim_start(s).len()) =~= s.skip(s.len() - trim_start(s).len()));
    } else {
        assert(s.skip(0) =~= s);
    }
}

/// A trimmed line: no line break inside, and no white space at either end.
proof fn lemma_trim_line(t: Seq<char>)
    requires
        newline_free(t),
    ensures
        newline_free(trim(t)),
        trim(t).len() > 0 ==> !white_space(trim(t)[0]) && !white_space(trim(t).last()),
{
    lemma_trim_end_prefix(t);
    let e = trim_end(t);
    lemma_trim_start_suffix(e);
    let u = trim(t);
    assert(u == e.skip(e.len() - u.len()));
    assert forall|i: int| 0 <= i < u.len() implies #[trigger] u[i] != '\n' by {
        assert(u[i] == e[e.len() - u.len() + i]);
        assert(e[e.len() - u.len() + i] == t[e.len() - u.len() + i]);
    }
    if u.len() > 0 {
        assert(u.last() == e.last());
    }
}

proof fn lemma_collapse_shape(ls: Seq<Seq<char>>, blank: bool)
    requires
        forall|i: int| 0 <= i < ls.len() ==> newline_free(#[trigger] ls[i]),
    ensures
        ({
            let s = collapse(ls, blank);
            &&& blank ==> (s.len() == 0 || s[0] != '\n')
            &&& (s.len() >= 2 && s[0] == '\n') ==> s[1] != '\n'
            &&& no_blank_run(s)
            &&& (s.len() == 0 || s.last() == '\n')
        }),
    decreases ls.len(),
{
    if ls.len() > 0 {
        let rest = ls.drop_first();
        assert forall|i: int| 0 <= i < rest.len() implies newline_free(#[trigger] rest[i]) by {
            assert(rest[i] == ls[i + 1]);
        }
        lemma_trim_line(ls[0]);
        let t = trim(ls[0]);
        if t.len() == 0 {
            lemma_collapse_shape(rest, true);
            let r = collapse(rest, true);
            if !blank {
                let s = seq!['\n'] + r;
                assert forall|i: int| 0 <= i && i + 2 < s.len() implies !(#[trigger] s[i] == '\n' && s[i + 1] == '\n' && s[i + 2] == '\n') by {
                    if i == 0 {
                        assert(s[1] == r[0]);
                    } else {
                        assert(s[i] == r[i - 1] && s[i + 1] == r[i] && s[i + 2] == r[i + 1]);
                    }
                }
                if r.len() > 0 {
                    assert(s.last() == r.last());
                }
            } else {
                assert(seq![] + r =~= r);
            }
        } else {
            lemma_collapse_shape(rest, false);
            let r = collapse(rest, false);
            let s = t + seq!['\n'] + r;
            let n = t.len();
            assert(s[0] == t[0]);
            assert('\n' == '\n' && white_space('\n'));
            assert forall|i: int| 0 <= i && i + 2 < s.len() implies !(#[trigger] s[i] == '\n' && s[i + 1] == '\n' && s[i + 2] == '\n') by {
                if i + 2 < n {
                    assert(s[i] == t[i]);
                } else if i + 2 == n {
                    assert(s[i + 1] == t[n - 1]);
                } else if i + 1 == n {
                    assert(s[i] == t[n - 1]);
                } else if i == n {
                    if r.len() >= 2 && r[0] == '\n' {
                        assert(s[i + 2] == r[1]);
                    }
                } else {
                    assert(s[i] == r[i - n - 1] && s[i + 1] == r[i - n] && s[i + 2] == r[i - n + 1]);
                }
            }
            if r.len() > 0 {
                assert(s.last() == r.last());
            }
        }
    }
}

proof fn lemma_drop_newlines(s: Seq<char>)
    requires
        no_blank_run(s),
        s.len() == 0 || s.last() == '\n',
    ensures
        ({
            let d = drop_newlines(s);
            &&& (d.len() == 0 || d[0] != '\n')
            &&& no_blank_run(d)
            &&& (d.len() == 0 || d.last() == '\n')
        }),
    decreases s.len(),
{
    if s.len() > 0 && s[0] == '\n' {
        let t = s.drop_first();
        assert forall|i: int| 0 <= i && i + 2 < t.len() implies !(#[trigger] t[i] == '\n' && t[i + 1] == '\n' && t[i + 2] == '\n') by {
            assert(t[i] == s[i + 1] && t[i + 1] == s[i + 2] && t[i + 2] == s[i + 3]);
        }
        if t.len() > 0 {
            assert(t.last() == s.last());
        }
        lemma_drop_newlines(t);
    }
}

/// What `strip_html` returns is tidy: it does not start with a line break, every
/// line of text ends with one, and there is never more than one blank line in a row.
pub proof fn law_plain_text_tidy(html: Seq<char>)
    ensures
        ({
            let r = plain_text(html);
            &&& (r.len() == 0 || r[0] != '\n')
            &&& (r.len() == 0 || r.last() == '\n')
            &&& no_blank_run(r)
        }),
{
    let ls = lines(html_text(html, 0));
    lemma_lines_newline_free(html_text(html, 0));
    lemma_collapse_shape(ls, false);
    lemma_drop_newlines(collapse(ls, false));
}

/// Both ends of a trimmed sequence are not white space.
proof fn lemma_trim_ends(t: Seq<char>)
    ensures
        trim(t).len() > 0 ==> !white_space(trim(t)[0]) && !white_space(trim(t).last()),
{
    lemma_trim_end_prefix(t);
    let e = trim_end(t);
    lemma_trim_start_suffix(e);
    let u = trim(t);
    if u.len() > 0 {
        assert(u.last() == e.last());
    }
}

/// Trimming twice is trimming once.
proof fn lemma_trim_idempotent(t: Seq<char>)
    ensures
        trim(trim(t)) == trim(t),
{
    lemma_trim_ends(t);
    let u = trim(t);
    assert(trim_end(u) == u);
    assert(trim_start(u) == u);
}

/// Lines joined back, each followed by a line break.
pub open spec fn join_lines(ls: Seq<Seq<char>>) -> Seq<char>
    decreases ls.len(),
{
    if ls.len() == 0 {
        Seq::empty()
    } else {
        ls[0] + seq!['\n'] + join_lines(ls.drop_first())
    }
}

/// Lines that are already trimmed and hold no line break.
pub open spec fn clean_lines(ls: Seq<Seq<char>>) -> bool {
    forall|i: int| 0 <= i < ls.len() ==> newline_free(#[trigger] ls[i]) && trim(ls[i]) == ls[i]
}

/// No two empty lines follow each other.
pub open spec fn single_blanks(ls: Seq<Seq<char>>) -> bool {
    forall|i: int, j: int|
        #![trigger ls[i], ls[j]]
        0 <= i && j == i + 1 && j < ls.len() ==> ls[i].len() > 0 || ls[j].len() > 0
}

/// The lines that `collapse` writes out, in order.
pub open spec fn kept_lines(ls: Seq<Seq<char>>, blank: bool) -> Seq<Seq<char>>
    decreases ls.len(),
{
    if ls.len() == 0 {
        seq![]
    } else {
        let t = trim(ls[0]);
        if t.len() == 0 {
            (if blank { seq![] } else { seq![Seq::<char>::empty()] }) + kept_lines(ls.drop_first(), true)
        } else {
            seq![t] + kept_lines(ls.drop_first(), false)
        }
    }
}

proof fn lemma_join_cons(l: Seq<char>, ls: Seq<Seq<char>>)
    ensures
        join_lines(seq![l] + ls) == l + seq!['\n'] + join_lines(ls),
{
    let m = seq![l] + ls;
    assert(m.drop_first() =~= ls);
    assert(m[0] == l);
}

proof fn lemma_kept_lines(ls: Seq<Seq<char>>, blank: bool)
    requires
        forall|i: int| 0 <= i < ls.len() ==> newline_free(#[trigger] ls[i]),
    ensures
        collapse(ls, blank) == join_lines(kept_lines(ls, blank)),
        clean_lines(kept_lines(ls, blank)),
        single_blanks(kept_lines(ls, blank)),
        blank ==> kept_lines(ls, blank).len() == 0 || kept_lines(ls, blank)[0].len() > 0,
    decreases ls.len(),
{
    if ls.len() > 0 {
        let rest = ls.drop_first();
        assert forall|i: int| 0 <= i < rest.len() implies newline_free(#[trigger] rest[i]) by {
            assert(rest[i] == ls[i + 1]);
        }
        lemma_trim_line(ls[0]);
        lemma_trim_idempotent(ls[0]);
        let t = trim(ls[0]);
        if t.len() == 0 {
            lemma_kept_lines(rest, true);
            let k = kept_lines(rest, true);
            if blank {
                assert(seq![] + k =~= k);
            } else {
                let e = Seq::<char>::empty();
                let m = seq![e] + k;
                lemma_join_cons(e, k);
                assert(e + seq!['\n'] + join_lines(k) =~= seq!['\n'] + join_lines(k));
                assert forall|i: int| 0 <= i < m.len() implies newline_free(#[trigger] m[i]) && trim(m[i]) == m[i] by {
                    if i > 0 {
                        assert(m[i] == k[i - 1]);
                    } else {
                        assert(trim(e) == e);
                    }
                }
                assert forall|i: int, j: int| #![trigger m[i], m[j]] 0 <= i && j == i + 1 && j < m.len() implies m[i].len() > 0 || m[j].len() > 0 by {
                    if i > 0 {
                        assert(m[i] == k[i - 1] && m[j] == k[j - 1]);
                    } else {
                        assert(m[j] == k[0]);
                    }
                }
            }
        } else {
            lemma_kept_lines(rest, false);
            let k = kept_lines(rest, false);
            let m = seq![t] + k;
            lemma_join_cons(t, k);
            assert forall|i: int| 0 <= i < m.len() implies newline_free(#[trigger] m[i]) && trim(m[i]) == m[i] by {
                if i > 0 {
                    assert(m[i] == k[i - 1]);
                }
            }
            assert forall|i: int, j: int| #![trigger m[i], m[j]] 0 <= i && j == i + 1 && j < m.len() implies m[i].len() > 0 || m[j].len() > 0 by {
                if i > 0 {
                    assert(m[i] == k[i - 1] && m[j] == k[j - 1]);
                }
            }
        }
    }
}

/// A trimmed line does not end in `'\r'`, so reading joined clean lines back gives them again.
proof fn lemma_lines_of_join(ls: Seq<Seq<char>>)
    requires
        clean_lines(ls),
    ensures
        lines(join_lines(ls)) == ls,
    decreases ls.len(),
{
    if ls.len() > 0 {
        let rest = ls.drop_first();
        assert(clean_lines(rest)) by {
            assert forall|i: int| 0 <= i < rest.len() implies newline_free(#[trigger] rest[i]) && trim(rest[i]) == rest[i] by {
                assert(rest[i] == ls[i + 1]);
            }
        }
        lemma_lines_of_join(rest);
        let l = ls[0];
        let s = join_lines(ls);
        let k = l.len() as int;
        assert(s == l + seq!['\n'] + join_lines(rest));
        assert(s[k] == '\n');
        assert forall|j: int| 0 <= j < k implies s[j] != '\n' by {
            assert(s[j] == l[j]);
        }
        lemma_line_end_at(s, k);
        assert(s.take(k) =~= l);
        assert(s.skip(k + 1) =~= join_lines(rest));
        lemma_trim_line(l);
        assert(white_space('\r'));
        assert(strip_cr(l) == l);
        assert(seq![l] + rest =~= ls);
    }
}

/// Collapsing lines that are already clean, with no blank line where `blank` forbids
/// one, writes them out unchanged.
proof fn lemma_collapse_clean(ls: Seq<Seq<char>>, blank: bool)
    requires
        clean_lines(ls),
        single_blanks(ls),
        blank ==> ls.len() == 0 || ls[0].len() > 0,
    ensures
        collapse(ls, blank) == join_lines(ls),
    decreases ls.len(),
{
    if ls.len() > 0 {
        let rest = ls.drop_first();
        assert(clean_lines(rest)) by {
            assert forall|i: int| 0 <= i < rest.len() implies newline_free(#[trigger] rest[i]) && trim(rest[i]) == rest[i] by {
                assert(rest[i] == ls[i + 1]);
            }
        }
        assert(single_blanks(rest)) by {
            assert forall|i: int, j: int| #![trigger rest[i], rest[j]] 0 <= i && j == i + 1 && j < rest.len() implies rest[i].len() > 0 || rest[j].len() > 0 by {
                assert(rest[i] == ls[i + 1] && rest[j] == ls[j + 1]);
            }
        }
        assert(trim(ls[0]) == ls[0]);
        if ls[0].len() == 0 {
            if rest.len() > 0 {
                assert(rest[0] == ls[1]);
            }
            lemma_collapse_clean(rest, true);
            assert(ls[0] + seq!['\n'] + join_lines(rest) =~= seq!['\n'] + join_lines(rest));
        } else {
            lemma_collapse_clean(rest, false);
        }
    }
}

/// Leading line breaks are dropped only from an empty first line.
proof fn lemma_drop_newlines_clean(ls: Seq<Seq<char>>)
    requires
        clean_lines(ls),
        ls.len() == 0 || ls[0].len() > 0,
    ensures
        drop_newlines(join_lines(ls)) == join_lines(ls),
{
    if ls.len() > 0 {
        let s = join_lines(ls);
        assert(s[0] == ls[0][0]);
        assert(newline_free(ls[0]));
    }
}

/// Text without `'<'` or `'&'` passes the scanner unchanged.
proof fn lemma_html_text_plain(s: Seq<char>, i: int)
    requires
        0 <= i <= s.len(),
        forall|j: int| 0 <= j < s.len() ==> s[j] != '<' && s[j] != '&',
    ensures
        html_text(s, i) == s.skip(i),
    decreases s.len() - i,
{
    if i < s.len() {
        lemma_html_text_plain(s, i + 1);
        assert(seq![s[i]] + s.skip(i + 1) =~= s.skip(i));
    } else {
        assert(s.skip(i) =~= Seq::<char>::empty());
    }
}

/// The lines that make up `plain_text(html)`.
proof fn lemma_plain_text_lines(html: Seq<char>) -> (fl: Seq<Seq<char>>)
    ensures
        plain_text(html) == join_lines(fl),
        clean_lines(fl),
        single_blanks(fl),
        fl.len() == 0 || fl[0].len() > 0,
{
    let ls = lines(html_text(html, 0));
    lemma_lines_newline_free(html_text(html, 0));
    lemma_kept_lines(ls, false);
    let k = kept_lines(ls, false);
    if k.len() > 0 && k[0].len() == 0 {
        let k1 = k.drop_first();
        assert(clean_lines(k1)) by {
            assert forall|i: int| 0 <= i < k1.len() implies newline_free(#[trigger] k1[i]) && trim(k1[i]) == k1[i] by {
                assert(k1[i] == k[i + 1]);
            }
        }
        assert(single_blanks(k1)) by {
            assert forall|i: int, j: int| #![trigger k1[i], k1[j]] 0 <= i && j == i + 1 && j < k1.len() implies k1[i].len() > 0 || k1[j].len() > 0 by {
                assert(k1[i] == k[i + 1] && k1[j] == k[j + 1]);
            }
        }
        if k1.len() > 0 {
            assert(k1[0] == k[1]);
        }
        let s = join_lines(k);
        assert(s == k[0] + seq!['\n'] + join_lines(k1));
        assert(s.drop_first() =~= join_lines(k1));
        lemma_drop_newlines_clean(k1);
        k1
    } else {
        lemma_drop_newlines_clean(k);
        k
    }
}

/// Stripping its own output again changes nothing: once `strip_html` has given back
/// text with no `'<'` and no `'&'` left in it, a second pass returns that text as it is.
pub proof fn law_plain_text_idempotent(html: Seq<char>)
    requires
        !plain_text(html).contains('<'),
        !plain_text(html).contains('&'),
    ensures
        plain_text(plain_text(html)) == plain_text(html),
{
    let r = plain_text(html);
    let fl = lemma_plain_text_lines(html);
    assert forall|j: int| 0 <= j < r.len() implies r[j] != '<' && r[j] != '&' by {
        if r[j] == '<' {
            assert(r.contains('<'));
        }
        if r[j] == '&' {
            assert(r.contains('&'));
        }
    }
    lemma_html_text_plain(r, 0);
    assert(r.skip(0) =~= r);
    lemma_lines_of_join(fl);
    lemma_collapse_clean(fl, false);
    lemma_drop_newlines_clean(fl);
}

/// A chapter body that opens with a heading line.
pub open spec fn opens_with_heading(body: Seq<char>) -> bool {
    exists|l: Seq<char>| heading(l) && #[trigger] has_prefix(body, l + seq!['\n'])
}

proof fn lemma_prefix_extend(s: Seq<char>, p: Seq<char>, x: Seq<char>)
    requires
        has_prefix(s, p),
    ensures
        has_prefix(s + x, p),
{
    assert((s + x).take(p.len() as int) =~= s.take(p.len() as int));
}

proof fn lemma_split_state_headings(ls: Seq<Seq<char>>)
    ensures
        ({
            let (chs, cur) = split_state(ls);
            &&& forall|i: int| 1 <= i < chs.len() ==> opens_with_heading(#[trigger] chs[i].1)
            &&& chs.len() >= 1 ==> opens_with_heading(cur)
        }),
    decreases ls.len(),
{
    if ls.len() > 0 {
        lemma_split_state_headings(ls.drop_last());
        let (chs, cur) = split_state(ls.drop_last());
        let line = ls.last();
        if heading(line) {
            let nc = line + seq!['\n'];
            assert(has_prefix(nc, line + seq!['\n'])) by {
                assert(nc.take(nc.len() as int) =~= nc);
            }
            if trim(cur).len() > 0 {
                let chs2 = chs.push(make_chapter(chs.len(), cur));
                assert forall|i: int| 1 <= i < chs2.len() implies opens_with_heading(#[trigger] chs2[i].1) by {
                    if i < chs.len() {
                        assert(chs2[i] == chs[i]);
                    }
                }
            }
        } else {
            if chs.len() >= 1 {
                let l = choose|l: Seq<char>| heading(l) && #[trigger] has_prefix(cur, l + seq!['\n']);
                lemma_prefix_extend(cur, l + seq!['\n'], line + seq!['\n']);
                assert(cur + line + seq!['\n'] =~= cur + (line + seq!['\n']));
            }
        }
    }
}

/// Chapters begin at headings: every chapter but the first opens with a heading line.
pub proof fn law_chapters_open_with_headings(text: Seq<char>)
    ensures
        chapters_of(text).len() >= 1,
        forall|i: int| 1 <= i < chapters_of(text).len() ==> opens_with_heading(#[trigger] chapters_of(text)[i].1),
{
    let ls = lines(text);
    lemma_split_state_headings(ls);
    let (chs, cur) = split_state(ls);
    if trim(cur).len() > 0 || chs.len() == 0 {
        let r = chs.push(make_chapter(chs.len(), cur));
        assert forall|i: int| 1 <= i < r.len() implies opens_with_heading(#[trigger] r[i].1) by {
            if i < chs.len() {
                assert(r[i] == chs[i]);
            }
        }
    }
}

/// Every character of `s` is white space.
pub open spec fn all_white(s: Seq<char>) -> bool {
    forall|i: int| 0 <= i < s.len() ==> white_space(#[trigger] s[i])
}

/// White space appended to `s` is cut off by `trim_end`.
proof fn lemma_trim_end_suffix(s: Seq<char>, q: Seq<char>)
    requires
        all_white(q),
    ensures
        trim_end(s + q) == trim_end(s),
    decreases q.len(),
{
    if q.len() == 0 {
        assert(s + q =~= s);
    } else {
        let q1 = q.drop_last();
        assert((s + q).last() == q.last());
        assert((s + q).drop_last() =~= s + q1);
        assert(all_white(q1)) by {
            assert forall|i: int| 0 <= i < q1.len() implies white_space(#[trigger] q1[i]) by {
                assert(q1[i] == q[i]);
            }
        }
        lemma_trim_end_suffix(s, q1);
    }
}

/// `trim_end` of `p + s` keeps `p` whole unless `s` is all white space.
proof fn lemma_trim_end_concat(p: Seq<char>, s: Seq<char>)
    ensures
        trim_end(s).len() > 0 ==> trim_end(p + s) == p + trim_end(s),
        trim_end(s).len() == 0 ==> trim_end(p + s) == trim_end(p),
    decreases s.len(),
{
    if s.len() == 0 {
        assert(p + s =~= p);
    } else if white_space(s.last()) {
        assert((p + s).last() == s.last());
        assert((p + s).drop_last() =~= p + s.drop_last());
        lemma_trim_end_concat(p, s.drop_last());
    } else {
        assert((p + s).last() == s.last());
    }
}

/// White space put in front of `s` is cut off by `trim_start`.
proof fn lemma_trim_start_prefix(p: Seq<char>, s: Seq<char>)
    requires
        all_white(p),
    ensures
        trim_start(p + s) == trim_start(s),
    decreases p.len(),
{
    if p.len() == 0 {
        assert(p + s =~= s);
    } else {
        let p1 = p.drop_first();
        assert((p + s)[0] == p[0]);
        assert((p + s).drop_first() =~= p1 + s);
        assert(all_white(p1)) by {
            assert forall|i: int| 0 <= i < p1.len() implies white_space(#[trigger] p1[i]) by {
                assert(p1[i] == p[i + 1]);
            }
        }
        lemma_trim_start_prefix(p1, s);
    }
}

/// Padding a line with white space on either side does not change it once trimmed.
proof fn lemma_trim_padded(before: Seq<char>, line: Seq<char>, after: Seq<char>)
    requires
        all_white(before),
        all_white(after),
    ensures
        trim(before + line + after) == trim(line),
{
    lemma_trim_end_suffix(before + line, after);
    lemma_trim_end_concat(before, line);
    if trim_end(line).len() > 0 {
        lemma_trim_start_prefix(before, trim_end(line));
    } else {
        lemma_trim_end_suffix(Seq::empty(), before);
        assert(Seq::<char>::empty() + before =~= before);
        assert(trim_end(Seq::<char>::empty()) == Seq::<char>::empty());
        assert(trim_start(trim_end(line)) == trim_end(line));
    }
}

/// Whether a line is a chapter heading does not depend on the white space around
/// it: the trimmed line, and the line with white space added before and after it,
/// are headings exactly when the line itself is.
pub proof fn law_heading_ignores_padding(line: Seq<char>, before: Seq<char>, after: Seq<char>)
    requires
        all_white(before),
        all_white(after),
    ensures
        heading(trim(line)) == heading(line),
        heading(before + line + after) == heading(line),
{
    lemma_trim_idempotent(line);
    lemma_trim_padded(before, line, after);
}


/// 第, one chapter numeral (an ASCII digit or one of 零一二三四五六七八九十百千万两)
/// and 章 make a heading line: 第十章 as much as 第3章 or 第九章.
pub proof fn law_numeral_headings(c: char)
    requires
        ('0' <= c && c <= '9') || c == '零' || c == '一' || c == '二' || c == '三' || c == '四'
            || c == '五' || c == '六' || c == '七' || c == '八' || c == '九' || c == '十'
            || c == '百' || c == '千' || c == '万' || c == '两',
    ensures
        heading(seq!['第', c, '章']),
{
    let s = seq!['第', c, '章'];
    assert(!white_space(c));
    assert(s.last() == '章' && !white_space('章'));
    assert(trim_end(s) == s);
    assert(s[0] == '第' && !white_space('第'));
    assert(trim_start(s) == s);
    assert(trim(s) == s);
    assert(!numeral_char('章'));
    assert(numeral_end(s, 2) == 2);
    assert(numeral_char(s[1]));
    assert(numeral_end(s, 1) == 2);
    assert(unit_char(s[2]));
}


/// A run of `n` characters that are neither `'<'` nor `'&'` passes the scanner as it is.
proof fn lemma_html_text_run(s: Seq<char>, i: int, n: int)
    requires
        0 <= i,
        0 <= n,
        i + n <= s.len(),
        forall|j: int| i <= j < i + n ==> s[j] != '<' && s[j] != '&',
    ensures
        html_text(s, i) == s.subrange(i, i + n) + html_text(s, i + n),
    decreases n,
{
    if n == 0 {
        assert(s.subrange(i, i) + html_text(s, i) =~= html_text(s, i));
    } else {
        lemma_html_text_run(s, i + 1, n - 1);
        assert(html_step(s, i) == (i + 1, seq![s[i]]));
        assert(seq![s[i]] + (s.subrange(i + 1, i + n) + html_text(s, i + n)) =~= s.subrange(i, i + n) + html_text(s, i + n));
    }
}

proof fn lemma_alnum_run(s: Seq<char>, j: int, n: int)
    requires
        0 <= j,
        0 <= n,
        j + n < s.len(),
        forall|k: int| j <= k < j + n ==> ascii_alphanumeric(#[trigger] s[k]),
        !ascii_alphanumeric(s[j + n]),
    ensures
        alnum_end(s, j) == j + n,
    decreases n,
{
    if n > 0 {
        assert(ascii_alphanumeric(s[j]));
        lemma_alnum_run(s, j + 1, n - 1);
    }
}

/// A tag name of lowercase ASCII letters and digits, neither `script` nor `style`.
pub open spec fn plain_tag_name(t: Seq<char>) -> bool {
    &&& t.len() > 0
    &&& forall|k: int| 0 <= k < t.len() ==> ('a' <= #[trigger] t[k] && t[k] <= 'z') || ('0' <= t[k] && t[k] <= '9')
    &&& !raw_text_tag(t)
}

/// The tag `<t>`, or `</t>` when `closing`, at `i`: the scanner skips it and writes a
/// line break for it exactly when `t` is a block tag.
proof fn lemma_html_text_tag(s: Seq<char>, i: int, t: Seq<char>, closing: bool)
    requires
        plain_tag_name(t),
        0 <= i,
        ({
            let tag = if closing { seq!['<', '/'] } else { seq!['<'] } + t + seq!['>'];
            i + tag.len() <= s.len() && s.subrange(i, i + tag.len()) == tag
        }),
    ensures
        ({
            let k = if closing { t.len() + 3 } else { t.len() + 2 };
            html_text(s, i) == (if block_tag(t) { seq!['\n'] } else { Seq::<char>::empty() }) + html_text(s, i + k)
        }),
{
    let open = if closing { seq!['<', '/'] } else { seq!['<'] };
    let tag = open + t + seq!['>'];
    let j1 = i + open.len();
    let n = t.len() as int;
    assert(s[i] == tag[0]);
    assert(s[i + 1] == tag[1]);
    assert forall|k: int| j1 <= k < j1 + n implies ascii_alphanumeric(#[trigger] s[k]) by {
        assert(s[k] == tag[k - i]);
        assert(tag[k - i] == t[k - j1]);
    }
    assert(s[j1 + n] == tag[j1 + n - i]);
    assert(s[j1 + n] == '>');
    if !closing {
        assert(s[i + 1] == t[0]);
    }
    assert(tag_name_start(s, i) == j1);
    assert(tag_closing(s, i) == closing);
    lemma_alnum_run(s, j1, n);
    assert(s.subrange(j1, j1 + n) =~= t) by {
        assert forall|k: int| 0 <= k < n implies s.subrange(j1, j1 + n)[k] == t[k] by {
            assert(s[j1 + k] == tag[j1 + k - i]);
        }
    }
    assert(lower_all(t) =~= t);
    assert(tag_name(s, i) == t);
    assert(find_from(s, j1 + n, '>') == j1 + n);
    assert(past_gt(s, j1 + n) == j1 + n + 1);
    assert(tag_step(s, i).0 == j1 + n + 1);
}

pub open spec fn ascii_letters(x: Seq<char>) -> bool {
    forall|k: int| 0 <= k < x.len() ==> ('a' <= #[trigger] x[k] && x[k] <= 'z') || ('A' <= x[k] && x[k] <= 'Z')
}

proof fn lemma_letters_clean(x: Seq<char>)
    requires
        ascii_letters(x),
    ensures
        newline_free(x),
        trim(x) == x,
{
    if x.len() > 0 {
        assert(!white_space(x.last()));
        assert(!white_space(x[0]));
    }
    assert(trim_end(x) == x);
    assert(trim_start(x) == x);
}

/// One element `<t>x</t>` of a block tag `t` at `i`: a line break, `x` and a line break.
proof fn lemma_block_element_scan(s: Seq<char>, i: int, t: Seq<char>, x: Seq<char>)
    requires
        plain_tag_name(t),
        block_tag(t),
        ascii_letters(x),
        0 <= i,
        ({
            let e = (seq!['<'] + t + seq!['>']) + x + (seq!['<', '/'] + t + seq!['>']);
            i + e.len() <= s.len() && s.subrange(i, i + e.len()) == e
        }),
    ensures
        html_text(s, i) == seq!['\n'] + x + seq!['\n'] + html_text(s, i + x.len() + 2 * t.len() + 5),
{
    let open = seq!['<'] + t + seq!['>'];
    let close = seq!['<', '/'] + t + seq!['>'];
    let e = open + x + close;
    let p1 = i + open.len();
    let p2 = p1 + x.len();
    let p3 = p2 + close.len();
    assert(s.subrange(i, p1) =~= open) by {
        assert forall|k: int| 0 <= k < open.len() implies s.subrange(i, p1)[k] == open[k] by {
            assert(s.subrange(i, i + e.len())[k] == s[i + k]);
        }
    }
    lemma_html_text_tag(s, i, t, false);
    assert forall|j: int| p1 <= j < p2 implies s[j] != '<' && s[j] != '&' by {
        assert(s.subrange(i, i + e.len())[j - i] == s[j]);
        assert(e[j - i] == x[j - p1]);
    }
    lemma_html_text_run(s, p1, x.len() as int);
    assert(s.subrange(p1, p2) =~= x) by {
        assert forall|k: int| 0 <= k < x.len() implies s.subrange(p1, p2)[k] == x[k] by {
            assert(s.subrange(i, i + e.len())[p1 + k - i] == s[p1 + k]);
        }
    }
    assert(s.subrange(p2, p3) =~= close) by {
        assert forall|k: int| 0 <= k < close.len() implies s.subrange(p2, p3)[k] == close[k] by {
            assert(s.subrange(i, i + e.len())[p2 + k - i] == s[p2 + k]);
        }
    }
    lemma_html_text_tag(s, p2, t, true);
    assert(seq!['\n'] + (x + (seq!['\n'] + html_text(s, p3))) =~= seq!['\n'] + x + seq!['\n'] + html_text(s, p3));
}

/// The scanner's text of `<t>x</t><t>y</t>` for a block tag `t`.
#[verifier::rlimit(30)]
proof fn lemma_block_pair_scan(t: Seq<char>, x: Seq<char>, y: Seq<char>)
    requires
        plain_tag_name(t),
        block_tag(t),
        ascii_letters(x),
        ascii_letters(y),
    ensures
        ({
            let open = seq!['<'] + t + seq!['>'];
            let close = seq!['<', '/'] + t + seq!['>'];
            html_text(open + x + close + open + y + close, 0)
                == seq!['\n'] + x + seq!['\n'] + seq!['\n'] + y + seq!['\n']
        }),
{
    let open = seq!['<'] + t + seq!['>'];
    let close = seq!['<', '/'] + t + seq!['>'];
    let ex = open + x + close;
    let ey = open + y + close;
    let s = open + x + close + open + y + close;
    assert(s =~= ex + ey);
    let m = ex.len() as int;
    assert(s.subrange(0, m) =~= ex);
    lemma_block_element_scan(s, 0, t, x);
    assert(s.subrange(m, m + ey.len()) =~= ey);
    lemma_block_element_scan(s, m, t, y);
    assert(html_text(s, s.len() as int) == Seq::<char>::empty());
    assert(html_text(s, 0) =~= seq!['\n'] + x + seq!['\n'] + seq!['\n'] + y + seq!['\n']);
}

/// Scanned text that is a blank line, `x`, a blank line and `y` comes out as `x`,
/// a blank line and `y`.
proof fn lemma_block_pair_lines(s: Seq<char>, x: Seq<char>, y: Seq<char>)
    requires
        x.len() > 0,
        y.len() > 0,
        ascii_letters(x),
        ascii_letters(y),
        html_text(s, 0) == seq!['\n'] + x + seq!['\n'] + seq!['\n'] + y + seq!['\n'],
    ensures
        plain_text(s) == x + seq!['\n', '\n'] + y + seq!['\n'],
{
    let e = Seq::<char>::empty();
    let h = seq!['\n'] + x + seq!['\n'] + seq!['\n'] + y + seq!['\n'];
    lemma_letters_clean(x);
    lemma_letters_clean(y);
    assert(trim(e) == e);
    assert(newline_free(e));
    let l3 = seq![y];
    let l2 = seq![e] + l3;
    let l1 = seq![x] + l2;
    let ls = seq![e] + l1;
    lemma_join_cons(y, Seq::empty());
    assert(seq![y] + Seq::<Seq<char>>::empty() =~= l3);
    lemma_join_cons(e, l3);
    lemma_join_cons(x, l2);
    lemma_join_cons(e, l1);
    assert(join_lines(ls) =~= h);
    assert(clean_lines(ls)) by {
        assert forall|i: int| 0 <= i < ls.len() implies newline_free(#[trigger] ls[i]) && trim(ls[i]) == ls[i] by {
            if i == 1 {
                assert(ls[i] == x);
            } else if i == 3 {
                assert(ls[i] == y);
            } else {
                assert(ls[i] == e);
            }
        }
    }
    assert(single_blanks(ls)) by {
        assert forall|i: int, j: int| #![trigger ls[i], ls[j]] 0 <= i && j == i + 1 && j < ls.len() implies ls[i].len() > 0 || ls[j].len() > 0 by {
            if i == 0 || i == 2 {
                assert(ls[j].len() > 0);
            } else {
                assert(ls[i].len() > 0);
            }
        }
    }
    lemma_lines_of_join(ls);
    lemma_collapse_clean(ls, false);
    assert(clean_lines(l1)) by {
        assert forall|i: int| 0 <= i < l1.len() implies newline_free(#[trigger] l1[i]) && trim(l1[i]) == l1[i] by {
            assert(l1[i] == ls[i + 1]);
        }
    }
    assert(l1[0] == x);
    lemma_drop_newlines_clean(l1);
    assert(join_lines(ls).drop_first() =~= join_lines(l1));
    assert(join_lines(l1) =~= x + seq!['\n', '\n'] + y + seq!['\n']);
}

/// Each of the tags p, div, br, h1 to h6, li, tr, table and section starts a new
/// line: two words, each inside its own element of such a tag, come out on lines
/// of their own, one blank line apart.
pub proof fn law_block_tags_break_lines(t: Seq<char>, x: Seq<char>, y: Seq<char>)
    requires
        t == seq!['p'] || t == seq!['d', 'i', 'v'] || t == seq!['b', 'r'] || t == seq!['h', '1']
            || t == seq!['h', '2'] || t == seq!['h', '3'] || t == seq!['h', '4'] || t == seq!['h', '5']
            || t == seq!['h', '6'] || t == seq!['l', 'i'] || t == seq!['t', 'r']
            || t == seq!['t', 'a', 'b', 'l', 'e'] || t == seq!['s', 'e', 'c', 't', 'i', 'o', 'n'],
        x.len() > 0,
        y.len() > 0,
        ascii_letters(x),
        ascii_letters(y),
    ensures
        ({
            let open = seq!['<'] + t + seq!['>'];
            let close = seq!['<', '/'] + t + seq!['>'];
            plain_text(open + x + close + open + y + close) == x + seq!['\n', '\n'] + y + seq!['\n']
        }),
{
    assert(plain_tag_name(t) && block_tag(t)) by {
        assert(t.len() > 0);
        assert(!raw_text_tag(t)) by {
            assert(seq!['s', 'c', 'r', 'i', 'p', 't'].len() == 6 && seq!['s', 't', 'y', 'l', 'e'].len() == 5);
            if t.len() == 6 {
                assert(t[0] != seq!['s', 'c', 'r', 'i', 'p', 't'][0] || t[1] != 'c');
            }
            if t.len() == 5 {
                assert(t[1] != 't');
            }
        }
    }
    let open = seq!['<'] + t + seq!['>'];
    let close = seq!['<', '/'] + t + seq!['>'];
    lemma_block_pair_scan(t, x, y);
    lemma_block_pair_lines(open + x + close + open + y + close, x, y);
}
} // verus!
