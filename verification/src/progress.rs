//! Reading positions: the legacy whole-book line number and the newer
//! chapter-and-line position, and the table of positions kept per book.
use vstd::prelude::*;
use vstd::seq_lib::seq_to_set_is_finite;

verus! {

/// A reading position: a legacy line number counted over the whole book, or a
/// chapter and a line within it.
#[derive(Clone, Copy, Debug, PartialEq, Eq, Structural)]
pub enum Position {
    Line(usize),
    Chapter { chapter: usize, offset: usize },
}

pub open spec fn sat_dec(n: usize) -> nat {
    if n == 0 { 0 } else { (n - 1) as nat }
}

/// Where a legacy line number `offset`, counted from the start of chapter `c`,
/// lands: the first chapter from `c` on that holds it, or the last chapter, with
/// the offset clamped to that chapter's last line.
pub open spec fn locate_line(lengths: Seq<usize>, c: int, offset: nat) -> (usize, usize)
    decreases lengths.len() - c,
{
    if 0 <= c < lengths.len() {
        if offset < lengths[c] || c + 1 == lengths.len() {
            let last = sat_dec(lengths[c]);
            (c as usize, (if offset <= last { offset } else { last }) as usize)
        } else {
            locate_line(lengths, c + 1, (offset - lengths[c]) as nat)
        }
    } else {
        (0, 0)
    }
}

/// What `resolve` gives for a position in a book whose chapters have `lengths` lines.
pub open spec fn resolved(p: Position, lengths: Seq<usize>) -> (usize, usize) {
    if lengths.len() == 0 {
        (0, 0)
    } else {
        match p {
            Position::Line(offset) => locate_line(lengths, 0, offset as nat),
            Position::Chapter { chapter, offset } => {
                let last = (lengths.len() - 1) as usize;
                (if chapter <= last { chapter } else { last }, offset)
            },
        }
    }
}

/// The number of lines in the chapters before chapter `c`.
pub open spec fn lines_before(lengths: Seq<usize>, c: int) -> nat
    decreases c,
{
    if c <= 0 || lengths.len() == 0 {
        0
    } else {
        lines_before(lengths, c - 1) + lengths[c - 1] as nat
    }
}

impl Position {
    /// Maps a saved position onto a book whose chapters, once wrapped, have
    /// `chapter_lengths` lines: a legacy line number belongs to the whole book and
    /// is walked through the chapters (past the end, it stops on the last line);
    /// a chapter position keeps its offset and is clamped to the last chapter.
    /// A book without chapters gives `(0, 0)`.
    pub fn resolve(self, chapter_lengths: &[usize]) -> (r: (usize, usize))
        ensures
            r == resolved(self, chapter_lengths@),
    {
        let n = chapter_lengths.len();
        if n == 0 {
            return (0, 0);
        }
        match self {
            Position::Line(line) => {
                let mut offset = line;
                let mut chapter: usize = 0;
                while chapter + 1 < n && offset >= chapter_lengths[chapter]
                    invariant
                        chapter < n,
                        n == chapter_lengths@.len(),
                        locate_line(chapter_lengths@, 0, line as nat) == locate_line(
                            chapter_lengths@,
                            chapter as int,
                            offset as nat,
                        ),
                    decreases n - chapter,
                {
                    offset = offset - chapter_lengths[chapter];
                    chapter = chapter + 1;
                }
                let length = chapter_lengths[chapter];
                let last = if length == 0 { 0 } else { length - 1 };
                (chapter, if offset <= last { offset } else { last })
            },
            Position::Chapter { chapter, offset } => {
                let last = n - 1;
                (if chapter <= last { chapter } else { last }, offset)
            },
        }
    }
}

/// The saved position of each book, keyed by the book's key; each key occurs once.
#[derive(Debug)]
pub struct Progress {
    positions: Vec<(String, Position)>,
}

pub open spec fn distinct_keys(v: Seq<(String, Position)>) -> bool {
    forall|i: int, j: int|
        0 <= i < v.len() && 0 <= j < v.len() && i != j ==> #[trigger] v[i].0@ != #[trigger] v[j].0@
}

/// The map from keys to positions that a list of distinct entries describes.
pub open spec fn entry_map(v: Seq<(String, Position)>) -> Map<Seq<char>, Position> {
    Map::new(
        |k: Seq<char>| exists|i: int| 0 <= i < v.len() && v[i].0@ == k,
        |k: Seq<char>| v[choose|i: int| 0 <= i < v.len() && v[i].0@ == k].1,
    )
}

impl View for Progress {
    type V = Map<Seq<char>, Position>;

    closed spec fn view(&self) -> Map<Seq<char>, Position> {
        entry_map(self.positions@)
    }
}

/// The entry at `i` is what the map holds for its key.
pub proof fn lemma_entry_map_at(v: Seq<(String, Position)>, i: int)
    requires
        distinct_keys(v),
        0 <= i < v.len(),
    ensures
        entry_map(v).contains_key(v[i].0@),
        entry_map(v)[v[i].0@] == v[i].1,
{
    let k = v[i].0@;
    assert(exists|j: int| 0 <= j < v.len() && v[j].0@ == k);
    let j = choose|j: int| 0 <= j < v.len() && v[j].0@ == k;
    if j != i {
        assert(v[i].0@ != v[j].0@);
    }
}

/// A list of entries describes finitely many keys, no more than it has entries.
pub proof fn lemma_entry_map_finite(v: Seq<(String, Position)>)
    ensures
        entry_map(v).dom().finite(),
        entry_map(v).dom().len() <= v.len(),
{
    let keys = v.map_values(|e: (String, Position)| e.0@);
    assert(entry_map(v).dom() =~= keys.to_set()) by {
        assert forall|k: Seq<char>| entry_map(v).dom().contains(k) <==> #[trigger] keys.to_set().contains(k) by {
            if entry_map(v).dom().contains(k) {
                let i = choose|i: int| 0 <= i < v.len() && v[i].0@ == k;
                assert(keys[i] == k);
            }
            if keys.to_set().contains(k) {
                let i = choose|i: int| 0 <= i < keys.len() && keys[i] == k;
                assert(v[i].0@ == k);
            }
        }
    }
    seq_to_set_is_finite(keys);
    keys.lemma_cardinality_of_set();
}

/// Replacing the entry at `i` by one with the same key, or adding an entry with a
/// new key, keeps the keys distinct and inserts into the map.
proof fn lemma_entry_map_put(v: Seq<(String, Position)>, w: Seq<(String, Position)>, key: String, pos: Position)
    requires
        distinct_keys(v),
        (exists|i: int| 0 <= i < v.len() && v[i].0@ == key@ && w == v.update(i, (key, pos)))
            || ((forall|i: int| 0 <= i < v.len() ==> #[trigger] v[i].0@ != key@) && w == v.push((key, pos))),
    ensures
        distinct_keys(w),
        entry_map(w) == entry_map(v).insert(key@, pos),
{
    let upd = exists|i: int| 0 <= i < v.len() && v[i].0@ == key@ && w == v.update(i, (key, pos));
    let at: int = if upd {
        choose|i: int| 0 <= i < v.len() && v[i].0@ == key@ && w == v.update(i, (key, pos))
    } else {
        v.len() as int
    };
    assert(w.len() == (if upd { v.len() } else { v.len() + 1 }));
    assert(w[at] == (key, pos));
    assert forall|j: int| 0 <= j < w.len() && j != at implies #[trigger] w[j] == v[j] by {}
    assert forall|a: int, b: int| 0 <= a < w.len() && 0 <= b < w.len() && a != b
        implies #[trigger] w[a].0@ != #[trigger] w[b].0@ by {
        if a == at {
            assert(w[b] == v[b]);
            if upd {
                assert(v[at].0@ != v[b].0@);
            }
        } else if b == at {
            assert(w[a] == v[a]);
            if upd {
                assert(v[at].0@ != v[a].0@);
            }
        } else {
            assert(w[a] == v[a] && w[b] == v[b]);
        }
    }
    let m = entry_map(v).insert(key@, pos);
    assert forall|k: Seq<char>| entry_map(w).contains_key(k) <==> m.contains_key(k) by {
        if entry_map(w).contains_key(k) {
            let j = choose|j: int| 0 <= j < w.len() && w[j].0@ == k;
            if j != at {
                assert(w[j] == v[j]);
            }
        }
        if m.contains_key(k) && k != key@ {
            let j = choose|j: int| 0 <= j < v.len() && v[j].0@ == k;
            assert(j != at);
            assert(w[j] == v[j]);
        }
        if k == key@ {
            assert(w[at].0@ == k);
        }
    }
    assert forall|k: Seq<char>| #[trigger] entry_map(w).contains_key(k) implies entry_map(w)[k] == m[k] by {
        let j = choose|j: int| 0 <= j < w.len() && w[j].0@ == k;
        lemma_entry_map_at(w, j);
        if j != at {
            assert(w[j] == v[j]);
            lemma_entry_map_at(v, j);
        }
    }
    assert(entry_map(w) =~= m);
}

impl Progress {
    #[verifier::type_invariant]
    closed spec fn keys_distinct(self) -> bool {
        distinct_keys(self.positions@)
    }

    /// A table holds the positions of finitely many books.
    pub proof fn lemma_finite(&self)
        ensures
            self@.dom().finite(),
    {
        lemma_entry_map_finite(self.positions@);
    }

    /// A table with no saved positions.
    pub fn new() -> (r: Self)
        ensures
            r@ == Map::<Seq<char>, Position>::empty(),
    {
        Progress { positions: Vec::new() }
    }

    /// Index of the entry for `key`, if there is one.
    fn find(&self, key: &String) -> (r: Option<usize>)
        ensures
            match r {
                Some(i) => i < self.positions@.len() && self.positions@[i as int].0@ == key@,
                None => forall|i: int| 0 <= i < self.positions@.len() ==> #[trigger] self.positions@[i].0@ != key@,
            },
    {
        let mut i: usize = 0;
        while i < self.positions.len()
            invariant
                i <= self.positions@.len(),
                forall|j: int| 0 <= j < i ==> #[trigger] self.positions@[j].0@ != key@,
            decreases self.positions@.len() - i,
        {
            if self.positions[i].0 == *key {
                return Some(i);
            }
            i = i + 1;
        }
        None
    }

    /// The saved position of a book, or line 0 when none was saved.
    pub fn get(&self, key: &str) -> (r: Position)
        ensures
            r == read_position(self@, key@),
    {
        proof {
            use_type_invariant(self);
        }
        let owned: String = key.to_owned();
        match self.find(&owned) {
            Some(i) => {
                proof {
                    lemma_entry_map_at(self.positions@, i as int);
                }
                self.positions[i].1
            },
            None => Position::Line(0),
        }
    }

    /// Saves `pos` for `key`, replacing what was saved for it.
    fn put(&mut self, key: String, pos: Position)
        ensures
            final(self)@ == old(self)@.insert(key@, pos),
    {
        proof {
            use_type_invariant(&*self);
        }
        let found = self.find(&key);
        let mut v: Vec<(String, Position)> = Vec::new();
        std::mem::swap(&mut v, &mut self.positions);
        let ghost v0 = v@;
        let ghost gkey = key;
        match found {
            Some(i) => {
                v.set(i, (key, pos));
            },
            None => {
                v.push((key, pos));
            },
        }
        proof {
            lemma_entry_map_put(v0, v@, gkey, pos);
        }
        std::mem::swap(&mut v, &mut self.positions);
    }

    /// Saves a chapter position for a book, replacing what was saved for it.
    pub fn set(&mut self, key: String, chapter: usize, offset: usize)
        ensures
            final(self)@ == old(self)@.insert(key@, Position::Chapter { chapter, offset }),
    {
        self.put(key, Position::Chapter { chapter, offset });
    }

    /// The saved positions as `(key, position)` pairs, each key once.
    pub fn entries(&self) -> (r: Vec<(String, Position)>)
        ensures
            distinct_keys(r@),
            entry_map(r@) == self@,
    {
        proof {
            use_type_invariant(self);
        }
        let mut r: Vec<(String, Position)> = Vec::new();
        let mut i: usize = 0;
        while i < self.positions.len()
            invariant
                i <= self.positions@.len(),
                r@ == self.positions@.take(i as int),
            decreases self.positions@.len() - i,
        {
            let k = self.positions[i].0.clone();
            let p = self.positions[i].1;
            r.push((k, p));
            i = i + 1;
            assert(r@ =~= self.positions@.take(i as int));
        }
        assert(r@ =~= self.positions@);
        r
    }

    /// A table holding the given pairs; for a key given twice, the later pair wins.
    pub fn from_entries(entries: Vec<(String, Position)>) -> (r: Self)
        ensures
            r@ == inserted(Map::empty(), entries@),
    {
        let mut p = Progress::new();
        let mut i: usize = 0;
        while i < entries.len()
            invariant
                i <= entries@.len(),
                p@ == inserted(Map::empty(), entries@.take(i as int)),
            decreases entries@.len() - i,
        {
            assert(entries@.take(i + 1).drop_last() =~= entries@.take(i as int));
            let k = entries[i].0.clone();
            let pos = entries[i].1;
            p.put(k, pos);
            i = i + 1;
        }
        assert(entries@.take(i as int) =~= entries@);
        p
    }
}

impl Default for Progress {
    fn default() -> (r: Self)
        ensures
            r@ == Map::<Seq<char>, Position>::empty(),
    {
        Progress::new()
    }
}

/// `m` with each pair of `v` inserted in turn.
pub open spec fn inserted(m: Map<Seq<char>, Position>, v: Seq<(String, Position)>) -> Map<Seq<char>, Position>
    decreases v.len(),
{
    if v.len() == 0 {
        m
    } else {
        inserted(m, v.drop_last()).insert(v.last().0@, v.last().1)
    }
}

/// The position read back for `key`: what was saved, or line 0.
pub open spec fn read_position(m: Map<Seq<char>, Position>, key: Seq<char>) -> Position {
    if m.contains_key(key) {
        m[key]
    } else {
        Position::Line(0)
    }
}

/// Saving a book's position and reading it back gives that position, and leaves
/// every other book's position as it was.
pub proof fn law_set_then_get(m: Map<Seq<char>, Position>, key: Seq<char>, other: Seq<char>, chapter: usize, offset: usize)
    ensures
        read_position(m.insert(key, Position::Chapter { chapter, offset }), key)
            == (Position::Chapter { chapter, offset }),
        other != key ==> read_position(m.insert(key, Position::Chapter { chapter, offset }), other)
            == read_position(m, other),
{
}

/// A chapter position inside the book resolves to itself.
pub proof fn law_chapter_position_kept(lengths: Seq<usize>, chapter: usize, offset: usize)
    requires
        chapter < lengths.len(),
        lengths.len() <= usize::MAX,
    ensures
        resolved(Position::Chapter { chapter, offset }, lengths) == (chapter, offset),
{
}

proof fn lemma_locate_from(lengths: Seq<usize>, j: int, c: int, k: nat)
    requires
        0 <= j <= c < lengths.len(),
        k < lengths[c],
    ensures
        locate_line(lengths, j, (lines_before(lengths, c) - lines_before(lengths, j) + k) as nat)
            == (c as usize, k as usize),
    decreases c - j,
{
    lemma_lines_before_mono(lengths, j + 1, c);
    if j < c {
        assert(lines_before(lengths, j + 1) == lines_before(lengths, j) + lengths[j]);
        lemma_locate_from(lengths, j + 1, c, k);
    } else {
        assert(k <= sat_dec(lengths[c]));
    }
}

proof fn lemma_lines_before_mono(lengths: Seq<usize>, a: int, b: int)
    requires
        0 <= a,
        a <= b + 1,
        b <= lengths.len(),
    ensures
        a <= b ==> lines_before(lengths, a) <= lines_before(lengths, b),
    decreases b - a,
{
    if a < b {
        lemma_lines_before_mono(lengths, a, b - 1);
    }
}

/// A legacy line number, counted over the whole book, resolves to the chapter
/// that holds it and the line within that chapter: the line `k` of chapter `c`
/// stands at `lines_before(lengths, c) + k`.
pub proof fn law_legacy_line_found(lengths: Seq<usize>, c: int, k: nat)
    requires
        0 <= c < lengths.len(),
        k < lengths[c],
        lines_before(lengths, c) + k <= usize::MAX,
    ensures
        resolved(Position::Line((lines_before(lengths, c) + k) as usize), lengths) == (c as usize, k as usize),
{
    lemma_locate_from(lengths, 0, c, k);
}

proof fn lemma_locate_past_end(lengths: Seq<usize>, j: int, offset: nat)
    requires
        0 <= j < lengths.len(),
        offset >= lines_before(lengths, lengths.len() as int) - lines_before(lengths, j),
    ensures
        locate_line(lengths, j, offset) == ((lengths.len() - 1) as usize, sat_dec(lengths.last()) as usize),
    decreases lengths.len() - j,
{
    lemma_lines_before_mono(lengths, j + 1, lengths.len() as int);
    if j + 1 < lengths.len() {
        assert(lines_before(lengths, j + 1) == lines_before(lengths, j) + lengths[j]);
        lemma_locate_past_end(lengths, j + 1, (offset - lengths[j]) as nat);
    } else {
        assert(lines_before(lengths, lengths.len() as int) == lines_before(lengths, j) + lengths[j]);
    }
}

/// A legacy line number past the end of a book resolves to its last line.
pub proof fn law_legacy_line_past_end(lengths: Seq<usize>, line: usize)
    requires
        lengths.len() >= 1,
        line >= lines_before(lengths, lengths.len() as int),
    ensures
        resolved(Position::Line(line), lengths) == ((lengths.len() - 1) as usize, sat_dec(lengths.last()) as usize),
{
    lemma_locate_past_end(lengths, 0, line as nat);
}

proof fn lemma_inserted_distinct(v: Seq<(String, Position)>)
    requires
        distinct_keys(v),
    ensures
        inserted(Map::empty(), v) == entry_map(v),
    decreases v.len(),
{
    if v.len() == 0 {
        assert(entry_map(v) =~= Map::<Seq<char>, Position>::empty());
    } else {
        let w = v.drop_last();
        assert(distinct_keys(w)) by {
            assert forall|i: int, j: int| 0 <= i < w.len() && 0 <= j < w.len() && i != j
                implies #[trigger] w[i].0@ != #[trigger] w[j].0@ by {
                assert(w[i] == v[i] && w[j] == v[j]);
            }
        }
        lemma_inserted_distinct(w);
        let last = v.last();
        assert forall|i: int| 0 <= i < w.len() implies #[trigger] w[i].0@ != last.0@ by {
            assert(w[i] == v[i]);
            assert(v[i].0@ != v[v.len() - 1].0@);
        }
        assert(v == w.push(last));
        lemma_entry_map_put(w, v, last.0, last.1);
    }
}

/// Writing the table out and reading it back gives the same positions: a table
/// built from the entries of another holds the same position for every book.
pub proof fn law_entries_round_trip(entries: Seq<(String, Position)>, m: Map<Seq<char>, Position>)
    requires
        distinct_keys(entries),
        entry_map(entries) == m,
    ensures
        inserted(Map::empty(), entries) == m,
{
    lemma_inserted_distinct(entries);
}

} // verus!
