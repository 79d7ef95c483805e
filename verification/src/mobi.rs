//! A minimal MOBI (PalmDB / PalmDOC) reader: it recovers the book's HTML text,
//! which `text::strip_html` then turns into plain text.
use vstd::prelude::*;
use crate::strs::{append_chars, decimal, decimal_chars, from_utf8_lossy, string_of, utf8_lossy};

verus! {

/// Big-endian 16-bit number at `off`.
pub open spec fn be16(d: Seq<u8>, off: int) -> nat {
    (d[off] as nat) * 256 + (d[off + 1] as nat)
}

/// Big-endian 32-bit number at `off`.
pub open spec fn be32(d: Seq<u8>, off: int) -> nat {
    (((d[off] as nat) * 256 + (d[off + 1] as nat)) * 256 + (d[off + 2] as nat)) * 256 + (d[off + 3] as nat)
}

pub open spec fn min_int(a: int, b: int) -> int {
    if a <= b { a } else { b }
}

/// Number of records in the PalmDB record table (offset 76).
pub open spec fn record_total(d: Seq<u8>) -> nat {
    be16(d, 76)
}

/// Start of record `i`: its table entry, clamped to the data.
pub open spec fn record_start(d: Seq<u8>, i: int) -> int {
    min_int(be32(d, 78 + 8 * i) as int, d.len() as int)
}

/// End of record `i`: the start of the next record, or the end of the data.
pub open spec fn record_end(d: Seq<u8>, i: int) -> int {
    if i + 1 < record_total(d) {
        min_int(be32(d, 78 + 8 * (i + 1)) as int, d.len() as int)
    } else {
        d.len() as int
    }
}

/// Record `i` can be cut out of the data: its table entry lies inside the data
/// and its end does not come before its start.
pub open spec fn record_readable(d: Seq<u8>, i: int) -> bool {
    &&& 78 + 8 * i + 4 <= d.len()
    &&& (i + 1 < record_total(d) ==> 78 + 8 * (i + 1) + 4 <= d.len())
    &&& record_start(d, i) <= record_end(d, i)
}

pub open spec fn record(d: Seq<u8>, i: int) -> Seq<u8> {
    d.subrange(record_start(d, i), record_end(d, i))
}

/// Number of text records read: the header's count, at most the records after the header.
pub open spec fn text_records(d: Seq<u8>) -> nat {
    let r0 = record(d, 0);
    let n = record_total(d);
    let cnt = be16(r0, 8);
    let avail: nat = if n >= 1 { (n - 1) as nat } else { 0 };
    if cnt <= avail { cnt } else { avail }
}

/// The table checks that `load` makes before it cuts out record 0.
pub open spec fn table_complete(d: Seq<u8>) -> bool {
    d.len() >= 78 && d.len() >= 78 + 8 * record_total(d)
}

/// The records that `load` cuts out can all be cut out: record 0 once the table
/// is complete; and, once the header is whole and unencrypted, each text record
/// read (only the first one under an unknown compression).
pub open spec fn mobi_readable(d: Seq<u8>) -> bool {
    table_complete(d) ==> {
        &&& record_readable(d, 0)
        &&& ({
            let r0 = record(d, 0);
            let comp = be16(r0, 0);
            let m = if comp == 1 || comp == 2 { text_records(d) } else if text_records(d) >= 1 { 1 } else { 0 };
            (r0.len() >= 16 && be16(r0, 12) == 0) ==>
                forall|i: int| 1 <= i <= m ==> #[trigger] record_readable(d, i)
        })
    }
}

/// `s` with each of the `length` bytes copied from `distance` back, one at a time,
/// so that a copy may overlap the bytes it produces.
pub open spec fn lz_copy(s: Seq<u8>, distance: nat, length: nat) -> Seq<u8>
    decreases length,
{
    if length == 0 {
        s
    } else {
        let t = lz_copy(s, distance, (length - 1) as nat);
        t.push(t[t.len() - distance])
    }
}

/// One PalmDOC token at `i`: where decoding resumes and what the output becomes.
/// `0x01..=0x08` copies that many literal bytes, `0x00` and `0x09..=0x7f` stand for
/// themselves, `0x80..=0xbf` with the next byte is a back-reference (11 bits of
/// distance, 3 bits of length minus 3), and `0xc0..=0xff` is a space and a letter.
pub open spec fn palm_step(inp: Seq<u8>, i: int, out: Seq<u8>) -> (int, Seq<u8>) {
    let c = inp[i];
    let i1 = i + 1;
    if 1 <= c && c <= 8 {
        let end = min_int(i1 + c, inp.len() as int);
        (end, out + inp.subrange(i1, end))
    } else if c <= 0x7f {
        (i1, out.push(c))
    } else if c <= 0xbf {
        if i1 >= inp.len() {
            (inp.len() as int, out)
        } else {
            let value = (c as nat) * 256 + (inp[i1] as nat);
            let distance = (value % 0x4000) / 8;
            let length = value % 8 + 3;
            if distance == 0 || distance > out.len() {
                (i1 + 1, out)
            } else {
                (i1 + 1, lz_copy(out, distance, length))
            }
        }
    } else {
        (i1, out.push(0x20u8).push((c - 0x80) as u8))
    }
}

pub proof fn lemma_palm_step(inp: Seq<u8>, i: int, out: Seq<u8>)
    requires
        0 <= i < inp.len(),
    ensures
        i < palm_step(inp, i, out).0 <= inp.len(),
{
}

/// PalmDOC decompression of `inp` from `i` on, appended to `out`.
pub open spec fn palmdoc(inp: Seq<u8>, i: int, out: Seq<u8>) -> Seq<u8>
    decreases inp.len() - i,
{
    if 0 <= i < inp.len() {
        let (i2, o2) = palm_step(inp, i, out);
        proof {
            lemma_palm_step(inp, i, out);
        }
        palmdoc(inp, i2, o2)
    } else {
        out
    }
}

/// The text bytes of records `1..=m`, stored (compression 1) or PalmDOC-compressed
/// (any other value); a back-reference may reach into earlier records' output.
pub open spec fn record_bytes(d: Seq<u8>, comp: nat, m: nat) -> Seq<u8>
    decreases m,
{
    if m == 0 {
        Seq::empty()
    } else {
        let prev = record_bytes(d, comp, (m - 1) as nat);
        let rec = record(d, m as int);
        if comp == 1 {
            prev + rec
        } else {
            palmdoc(rec, 0, prev)
        }
    }
}

/// Windows-1252 for the bytes 0x80 to 0x9f.
pub const CP1252_HIGH: [char; 32] = [
    '\u{20ac}', '\u{81}', '\u{201a}', '\u{192}', '\u{201e}', '\u{2026}', '\u{2020}', '\u{2021}',
    '\u{2c6}', '\u{2030}', '\u{160}', '\u{2039}', '\u{152}', '\u{8d}', '\u{17d}', '\u{8f}',
    '\u{90}', '\u{2018}', '\u{2019}', '\u{201c}', '\u{201d}', '\u{2022}', '\u{2013}', '\u{2014}',
    '\u{2dc}', '\u{2122}', '\u{161}', '\u{203a}', '\u{153}', '\u{9d}', '\u{17e}', '\u{178}',
];

/// Windows-1252: 0x80 to 0x9f by its table, every other byte as the Latin-1 character.
pub open spec fn cp1252(b: u8) -> char {
    if 0x80 <= b && b <= 0x9f {
        CP1252_HIGH@[b - 0x80]
    } else {
        b as char
    }
}

pub open spec fn msg_too_small() -> Seq<char> {
    "文件太小，不是有效的 mobi"@
}

pub open spec fn msg_table() -> Seq<char> {
    "mobi 记录表不完整"@
}

pub open spec fn msg_header() -> Seq<char> {
    "mobi 头记录不完整"@
}

pub open spec fn msg_drm() -> Seq<char> {
    "该 mobi 带有 DRM 加密，无法读取"@
}

pub open spec fn msg_compression(comp: nat) -> Seq<char> {
    "不支持的 mobi 压缩格式: "@ + decimal(comp)
}

/// What `load` makes of a MOBI file's bytes: the book's text, or why it cannot be read.
pub open spec fn mobi_text(d: Seq<u8>) -> Result<Seq<char>, Seq<char>> {
    if d.len() < 78 {
        Err(msg_too_small())
    } else if d.len() < 78 + 8 * record_total(d) {
        Err(msg_table())
    } else {
        let r0 = record(d, 0);
        if r0.len() < 16 {
            Err(msg_header())
        } else if be16(r0, 12) != 0 {
            Err(msg_drm())
        } else {
            let comp = be16(r0, 0);
            let m = text_records(d);
            if m >= 1 && comp != 1 && comp != 2 {
                Err(msg_compression(comp))
            } else {
                let raw = record_bytes(d, comp, m);
                let tl = be32(r0, 4);
                let cut = if tl < raw.len() { raw.take(tl as int) } else { raw };
                let encoding = if r0.len() >= 32 { be32(r0, 28) } else { 65001 };
                if encoding == 65001 {
                    Ok(utf8_lossy(cut))
                } else {
                    Ok(cut.map_values(|b: u8| cp1252(b)))
                }
            }
        }
    }
}

fn u16be(data: &[u8], off: usize) -> (r: u16)
    requires
        off + 2 <= data@.len(),
    ensures
        r == be16(data@, off as int),
{
    (data[off] as u16) * 256 + (data[off + 1] as u16)
}

fn u32be(data: &[u8], off: usize) -> (r: u32)
    requires
        off + 4 <= data@.len(),
    ensures
        r == be32(data@, off as int),
{
    let a = data[off] as u32;
    let b = data[off + 1] as u32;
    let c = data[off + 2] as u32;
    let d = data[off + 3] as u32;
    ((a * 256 + b) * 256 + c) * 256 + d
}

/// PalmDOC LZ77 decompression of `input`, appended to `out`.
pub fn palmdoc_decompress(input: &[u8], out: &mut Vec<u8>)
    ensures
        final(out)@ == palmdoc(input@, 0, old(out)@),
{
    let len = input.len();
    let mut i: usize = 0;
    while i < len
        invariant
            i <= len,
            len == input@.len(),
            palmdoc(input@, 0, old(out)@) == palmdoc(input@, i as int, out@),
        decreases len - i,
    {
        let ghost o0 = out@;
        let ghost i0 = i;
        proof {
            lemma_palm_step(input@, i as int, o0);
        }
        let c = input[i];
        i = i + 1;
        if 1 <= c && c <= 8 {
            let end = if (c as usize) < len - i { i + (c as usize) } else { len };
            let mut k = i;
            while k < end
                invariant
                    i <= k <= end <= len,
                    len == input@.len(),
                    out@ == o0 + input@.subrange(i as int, k as int),
                decreases end - k,
            {
                out.push(input[k]);
                k = k + 1;
                assert(out@ =~= o0 + input@.subrange(i as int, k as int));
            }
            i = end;
        } else if c <= 0x7f {
            out.push(c);
        } else if c <= 0xbf {
            if i >= len {
                i = len;
            } else {
                let next = input[i] as usize;
                i = i + 1;
                let value = (c as usize) * 256 + next;
                let distance = (value % 0x4000) / 8;
                let length = value % 8 + 3;
                if distance != 0 && distance <= out.len() {
                    let mut k: usize = 0;
                    while k < length
                        invariant
                            k <= length,
                            length <= 10,
                            1 <= distance <= o0.len(),
                            out@ == lz_copy(o0, distance as nat, k as nat),
                            out@.len() == o0.len() + k,
                        decreases length - k,
                    {
                        let cur = out.len();
                        let byte = out[cur - distance];
                        out.push(byte);
                        k = k + 1;
                    }
                }
            }
        } else {
            out.push(0x20u8);
            out.push(c - 0x80);
        }
        assert(palm_step(input@, i0 as int, o0) == (i as int, out@));
    }
}

/// Windows-1252 decoding (0x80 to 0x9f by its table, every other byte as in Latin-1).
fn decode_cp1252(bytes: &[u8]) -> (r: String)
    ensures
        r@ == bytes@.map_values(|b: u8| cp1252(b)),
{
    let mut v: Vec<char> = Vec::new();
    let mut k: usize = 0;
    while k < bytes.len()
        invariant
            k <= bytes@.len(),
            v@ == bytes@.take(k as int).map_values(|b: u8| cp1252(b)),
        decreases bytes@.len() - k,
    {
        let b = bytes[k];
        let c = if 0x80 <= b && b <= 0x9f {
            CP1252_HIGH[(b - 0x80) as usize]
        } else {
            b as char
        };
        v.push(c);
        k = k + 1;
        assert(v@ =~= bytes@.take(k as int).map_values(|b: u8| cp1252(b)));
    }
    assert(bytes@.take(k as int) =~= bytes@);
    string_of(v.as_slice())
}

fn record_bounds(data: &[u8], n: usize, i: usize) -> (r: (usize, usize))
    requires
        record_readable(data@, i as int),
        n == record_total(data@),
    ensures
        r.0 == record_start(data@, i as int),
        r.1 == record_end(data@, i as int),
        r.0 <= r.1 <= data@.len(),
{
    let len = data.len();
    let s = u32be(data, 78 + 8 * i) as usize;
    let start = if s <= len { s } else { len };
    let end = if i + 1 < n {
        let e = u32be(data, 78 + 8 * (i + 1)) as usize;
        if e <= len { e } else { len }
    } else {
        len
    };
    (start, end)
}

/// Reads the text of a MOBI file: checks the PalmDB record table and the MOBI
/// header (too small, incomplete table or header, DRM, unknown compression are
/// errors), joins the text records (stored or PalmDOC-compressed), cuts them to
/// the header's text length and decodes them as UTF-8 (lossily) or Windows-1252.
pub fn load(data: &[u8]) -> (r: Result<String, String>)
    requires
        mobi_readable(data@),
    ensures
        match r {
            Ok(t) => mobi_text(data@) == Ok::<Seq<char>, Seq<char>>(t@),
            Err(e) => mobi_text(data@) == Err::<Seq<char>, Seq<char>>(e@),
        },
{
    let len = data.len();
    if len < 78 {
        return Err("文件太小，不是有效的 mobi".to_owned());
    }
    let n = u16be(data, 76) as usize;
    if len < 78 + n * 8 {
        return Err("mobi 记录表不完整".to_owned());
    }
    let (s0, e0) = record_bounds(data, n, 0);
    let rec0 = &data[s0..e0];
    assert(rec0@ == record(data@, 0));
    if rec0.len() < 16 {
        return Err("mobi 头记录不完整".to_owned());
    }
    let compression = u16be(rec0, 0);
    let text_length = u32be(rec0, 4) as usize;
    let header_count = u16be(rec0, 8) as usize;
    let encryption = u16be(rec0, 12);
    if encryption != 0 {
        return Err("该 mobi 带有 DRM 加密，无法读取".to_owned());
    }
    let encoding: u32 = if rec0.len() >= 32 { u32be(rec0, 28) } else { 65001 };
    let avail: usize = if n >= 1 { n - 1 } else { 0 };
    let m: usize = if header_count <= avail { header_count } else { avail };
    assert(m == text_records(data@));
    let mut raw: Vec<u8> = Vec::new();
    let mut i: usize = 1;
    while i <= m
        invariant
            1 <= i <= m + 1,
            m == text_records(data@),
            m < 65536,
            n == record_total(data@),
            compression == be16(record(data@, 0), 0),
            mobi_readable(data@),
            table_complete(data@),
            record(data@, 0).len() >= 16,
            be16(record(data@, 0), 12) == 0,
            raw@ == record_bytes(data@, compression as nat, (i - 1) as nat),
            compression != 1 && compression != 2 ==> i == 1,
        decreases m + 1 - i,
    {
        assert(record_readable(data@, i as int));
        let (s, e) = record_bounds(data, n, i);
        let rec = &data[s..e];
        assert(rec@ == record(data@, i as int));
        let ghost prev = raw@;
        if compression == 1 {
            raw.extend_from_slice(rec);
            assert(raw@ =~= prev + rec@);
        } else if compression == 2 {
            palmdoc_decompress(rec, &mut raw);
        } else {
            let mut msg: Vec<char> = Vec::new();
            let head: Vec<char> = crate::strs::chars_of("不支持的 mobi 压缩格式: ");
            append_chars(&mut msg, head.as_slice());
            let digits = decimal_chars(compression as usize);
            append_chars(&mut msg, digits.as_slice());
            return Err(string_of(msg.as_slice()));
        }
        i = i + 1;
    }
    let ghost full = raw@;
    raw.truncate(text_length);
    assert(raw@ =~= (if text_length < full.len() { full.take(text_length as int) } else { full }));
    if encoding == 65001 {
        Ok(from_utf8_lossy(raw.as_slice()))
    } else {
        Ok(decode_cp1252(raw.as_slice()))
    }
}

fn readable(data: &[u8], n: usize, i: usize) -> (b: bool)
    requires
        n == record_total(data@),
        i < 65536,
    ensures
        b == record_readable(data@, i as int),
{
    let len = data.len();
    if 78 + 8 * i + 4 > len {
        return false;
    }
    if i + 1 < n && 78 + 8 * (i + 1) + 4 > len {
        return false;
    }
    let s = u32be(data, 78 + 8 * i) as usize;
    let start = if s <= len { s } else { len };
    let end = if i + 1 < n {
        let e = u32be(data, 78 + 8 * (i + 1)) as usize;
        if e <= len { e } else { len }
    } else {
        len
    };
    start <= end
}

/// Whether `load` can cut out every record it reads from `data` (see `mobi_readable`).
pub fn records_in_order(data: &[u8]) -> (b: bool)
    ensures
        b == mobi_readable(data@),
{
    let len = data.len();
    if len < 78 {
        return true;
    }
    let n = u16be(data, 76) as usize;
    if len < 78 + n * 8 {
        return true;
    }
    if !readable(data, n, 0) {
        return false;
    }
    let (s0, e0) = record_bounds(data, n, 0);
    let rec0 = &data[s0..e0];
    assert(rec0@ == record(data@, 0));
    if rec0.len() < 16 || u16be(rec0, 12) != 0 {
        return true;
    }
    let comp = u16be(rec0, 0);
    let header_count = u16be(rec0, 8) as usize;
    let avail: usize = if n >= 1 { n - 1 } else { 0 };
    let tr: usize = if header_count <= avail { header_count } else { avail };
    let m: usize = if comp == 1 || comp == 2 { tr } else if tr >= 1 { 1 } else { 0 };
    assert(tr == text_records(data@));
    let mut i: usize = 1;
    while i <= m
        invariant
            1 <= i <= m + 1,
            m < 65536,
            table_complete(data@),
            record_readable(data@, 0),
            record(data@, 0).len() >= 16,
            be16(record(data@, 0), 12) == 0,
            m == (if be16(record(data@, 0), 0) == 1 || be16(record(data@, 0), 0) == 2 {
                text_records(data@)
            } else if text_records(data@) >= 1 {
                1
            } else {
                0
            }),
            n == record_total(data@),
            forall|j: int| 1 <= j < i ==> #[trigger] record_readable(data@, j),
        decreases m + 1 - i,
    {
        if !readable(data, n, i) {
            return false;
        }
        i = i + 1;
    }
    true
}

proof fn lemma_lz_copy_extends(s: Seq<u8>, distance: nat, length: nat)
    requires
        1 <= distance <= s.len(),
    ensures
        lz_copy(s, distance, length).len() == s.len() + length,
        lz_copy(s, distance, length).take(s.len() as int) == s,
    decreases length,
{
    if length > 0 {
        lemma_lz_copy_extends(s, distance, (length - 1) as nat);
        let t = lz_copy(s, distance, (length - 1) as nat);
        assert(t.push(t[t.len() - distance]).take(s.len() as int) =~= t.take(s.len() as int));
    } else {
        assert(s.take(s.len() as int) =~= s);
    }
}

proof fn lemma_palmdoc_extends(inp: Seq<u8>, i: int, out: Seq<u8>)
    requires
        0 <= i,
    ensures
        palmdoc(inp, i, out).len() >= out.len(),
        palmdoc(inp, i, out).take(out.len() as int) == out,
    decreases inp.len() - i,
{
    if i < inp.len() {
        lemma_palm_step(inp, i, out);
        let (i2, o2) = palm_step(inp, i, out);
        let c = inp[i];
        assert(o2.len() >= out.len() && o2.take(out.len() as int) == out) by {
            if 1 <= c && c <= 8 {
                assert((out + inp.subrange(i + 1, i2)).take(out.len() as int) =~= out);
            } else if c <= 0x7f {
                assert(out.push(c).take(out.len() as int) =~= out);
            } else if c <= 0xbf {
                if i + 1 < inp.len() {
                    let value = (c as nat) * 256 + (inp[i + 1] as nat);
                    let distance = (value % 0x4000) / 8;
                    let length = value % 8 + 3;
                    if !(distance == 0 || distance > out.len()) {
                        lemma_lz_copy_extends(out, distance, length);
                    } else {
                        assert(out.take(out.len() as int) =~= out);
                    }
                } else {
                    assert(out.take(out.len() as int) =~= out);
                }
            } else {
                assert(out.push(0x20u8).push((c - 0x80) as u8).take(out.len() as int) =~= out);
            }
        }
        lemma_palmdoc_extends(inp, i2, o2);
        assert(palmdoc(inp, i2, o2).take(out.len() as int) =~= palmdoc(inp, i2, o2).take(o2.len() as int).take(out.len() as int));
    } else {
        assert(out.take(out.len() as int) =~= out);
    }
}

/// Decompression only appends: what was already in the output stays there.
pub proof fn law_palmdoc_appends(inp: Seq<u8>, out: Seq<u8>)
    ensures
        palmdoc(inp, 0, out).len() >= out.len(),
        palmdoc(inp, 0, out).take(out.len() as int) == out,
{
    lemma_palmdoc_extends(inp, 0, out);
}

/// A byte that PalmDOC leaves as it is: 0x00 and 0x09 to 0x7f.
pub open spec fn plain_byte(b: u8) -> bool {
    b == 0 || (0x09 <= b && b <= 0x7f)
}

proof fn lemma_palmdoc_plain_from(inp: Seq<u8>, i: int, out: Seq<u8>)
    requires
        0 <= i <= inp.len(),
        forall|k: int| 0 <= k < inp.len() ==> plain_byte(#[trigger] inp[k]),
    ensures
        palmdoc(inp, i, out) == out + inp.skip(i),
    decreases inp.len() - i,
{
    if i < inp.len() {
        assert(plain_byte(inp[i]));
        lemma_palmdoc_plain_from(inp, i + 1, out.push(inp[i]));
        assert(out.push(inp[i]) + inp.skip(i + 1) =~= out + inp.skip(i));
    } else {
        assert(out + inp.skip(i) =~= out);
    }
}

/// Text made only of bytes that stand for themselves decompresses to itself.
pub proof fn law_palmdoc_plain_text(inp: Seq<u8>, out: Seq<u8>)
    requires
        forall|k: int| 0 <= k < inp.len() ==> plain_byte(#[trigger] inp[k]),
    ensures
        palmdoc(inp, 0, out) == out + inp,
{
    lemma_palmdoc_plain_from(inp, 0, out);
    assert(inp.skip(0) =~= inp);
}


proof fn lemma_lz_copy(s: Seq<u8>, distance: nat, length: nat)
    requires
        1 <= distance <= s.len(),
    ensures
        lz_copy(s, distance, length).len() == s.len() + length,
        lz_copy(s, distance, length).take(s.len() as int) == s,
        forall|k: int| s.len() <= k < s.len() + length ==> #[trigger] lz_copy(s, distance, length)[k]
            == lz_copy(s, distance, length)[k - distance],
    decreases length,
{
    if length == 0 {
        assert(s.take(s.len() as int) =~= s);
    } else {
        let t = lz_copy(s, distance, (length - 1) as nat);
        lemma_lz_copy(s, distance, (length - 1) as nat);
        let r = t.push(t[t.len() - distance]);
        assert(r.take(s.len() as int) =~= t.take(s.len() as int));
        assert forall|k: int| s.len() <= k < s.len() + length implies #[trigger] r[k] == r[k - distance] by {
            if k < t.len() {
                assert(r[k] == t[k] && r[k - distance] == t[k - distance]);
            } else {
                assert(r[k - distance] == t[k - distance]);
            }
        }
    }
}

/// A back-reference token `c, n` (`0x80 <= c <= 0xbf`) copies `n % 8 + 3` bytes
/// from `(c - 0x80) * 32 + n / 8` bytes back (an 11-bit distance), one at a time:
/// every copied byte repeats the byte that far before it. A distance of 0, or one
/// reaching before the start of the output, copies nothing.
pub proof fn law_palmdoc_back_reference(c: u8, n: u8, out: Seq<u8>)
    requires
        0x80 <= c <= 0xbf,
    ensures
        ({
            let d = (c - 0x80) * 32 + n / 8;
            let r = palmdoc(seq![c, n], 0, out);
            &&& 1 <= d <= out.len() ==> r.len() == out.len() + n % 8 + 3
            &&& 1 <= d <= out.len() ==> r.take(out.len() as int) == out
            &&& 1 <= d <= out.len() ==> forall|k: int| out.len() <= k < r.len() ==> #[trigger] r[k] == r[k - d]
            &&& (d == 0 || d > out.len()) ==> r == out
        }),
{
    let inp = seq![c, n];
    let value = (c as nat) * 256 + (n as nat);
    assert((value % 0x4000) / 8 == (c - 0x80) * 32 + n / 8 && value % 8 == n % 8) by (nonlinear_arith)
        requires
            value == (c as nat) * 256 + (n as nat),
            0x80 <= c <= 0xbf,
            n < 256,
    ;
    let (i2, o2) = palm_step(inp, 0, out);
    assert(i2 == 2);
    assert(palmdoc(inp, 2, o2) == o2);
    assert(palmdoc(inp, 0, out) == o2);
    let d: nat = ((c - 0x80) * 32 + n / 8) as nat;
    if 1 <= d <= out.len() {
        lemma_lz_copy(out, d, (n % 8 + 3) as nat);
    }
}

} // verus!
