//! The column matrix, its group tables, and the trie built from them.

use std::ops::Range;
use vstd::prelude::*;

pub mod groups;
pub mod heap;
pub mod laws;
pub mod matcher;
pub mod table;
pub mod trie;

pub use matcher::{ExactMatcher, SuffixMatcher};
pub use table::RangeTable;
use matcher::seven_bit;
use trie::{seven_bit_matrix, seven_bit_value};

verus! {

/// What one line of the matrix holds for one string: a byte of the string
/// (counted from its end), the end marker just past its first byte, or
/// nothing for the lines beyond.
#[derive(Clone, Copy, PartialEq, Eq, Structural, Debug)]
pub enum CharData {
    Blank,
    End,
    Char(u8),
}

impl CharData {
    /// The position of a value in the order `Blank < End < Char(0) < ... < Char(255)`.
    pub open spec fn rank(self) -> int {
        match self {
            CharData::Blank => 0,
            CharData::End => 1,
            CharData::Char(c) => 2 + c,
        }
    }

    /// Whether `self` comes strictly before `other`.
    pub fn precedes(&self, other: &CharData) -> (r: bool)
        ensures
            r == (self.rank() < other.rank()),
    {
        match (self, other) {
            (CharData::Char(a), CharData::Char(b)) => *a < *b,
            (CharData::Blank, CharData::Blank) => false,
            (CharData::Blank, _) => true,
            (CharData::End, CharData::Blank) => false,
            (CharData::End, CharData::End) => false,
            (CharData::End, CharData::Char(_)) => true,
            (CharData::Char(_), _) => false,
        }
    }

    /// Whether `self` comes strictly after `other`.
    pub fn follows(&self, other: &CharData) -> (r: bool)
        ensures
            r == (self.rank() > other.rank()),
    {
        other.precedes(self)
    }
}

/// What line `line` of the matrix holds for a string with bytes `text`: the
/// string is laid out from its last byte down, then an end marker, then blanks.
pub open spec fn key_of(text: Seq<u8>, line: int) -> CharData {
    if 0 <= line < text.len() {
        CharData::Char(text[text.len() - 1 - line])
    } else if line == text.len() {
        CharData::End
    } else {
        CharData::Blank
    }
}

/// The UTF-8 bytes of a string.
pub open spec fn text_bytes(s: String) -> Seq<u8> {
    vstd::utf8::encode_utf8(s@)
}

/// `col` (the values of one column, line by line, over `h` lines) lays
/// out a nonempty string shorter than `h`.
pub open spec fn laid_out(col: Seq<CharData>, h: int) -> bool {
    exists|t: Seq<u8>| #[trigger] lays_out(col, t, h)
}

/// `col` (over `h` lines) is the layout of the nonempty string `t`, which is
/// shorter than `h`.
pub open spec fn lays_out(col: Seq<CharData>, t: Seq<u8>, h: int) -> bool {
    &&& 1 <= t.len() < h
    &&& col.len() == h
    &&& forall|k: int| 0 <= k < h ==> #[trigger] col[k] == key_of(t, k)
}

/// One more than the longest of the first `n` strings of `data` (0 for none).
pub open spec fn height_for(data: Seq<(i64, String)>, n: int) -> int
    decreases n,
{
    if n <= 0 {
        0
    } else {
        let rest = height_for(data, n - 1);
        let here: int = text_bytes(data[n - 1].1).len() as int + 1;
        if here > rest {
            here
        } else {
            rest
        }
    }
}

/// One node of the trie: the set of bytes it has children for, where its
/// children start in the node list (they are stored consecutively, by
/// increasing byte) and end, and the id of the string that ends here, if any.
#[derive(Debug)]
pub struct Node {
    table: u128,
    range_start: usize,
    range_end: usize,
    payload: Option<i64>,
}

impl Node {
    /// The bytes this node has children for, as a bit set.
    pub closed spec fn bits(&self) -> u128 {
        self.table
    }

    /// The position of the node's first child.
    pub closed spec fn first_child(&self) -> int {
        self.range_start as int
    }

    /// The position just past the node's last child.
    pub closed spec fn children_end(&self) -> int {
        self.range_end as int
    }

    /// The id of the string that ends at this node, if any.
    pub closed spec fn id(&self) -> Option<i64> {
        self.payload
    }
}

/// The strings of a batch laid out column by column: column `j` holds the
/// id and the bytes (last byte first) of the `j`-th string.
#[derive(Debug)]
pub struct Matrix {
    id_line: Vec<i64>,
    lines: Vec<Vec<CharData>>,
    sorted_ranges: Vec<RangeTable>,
}

impl Matrix {
    /// Every line has one entry per column, there is one group table per
    /// line plus one, and every table is consistent.
    pub closed spec fn wf(&self) -> bool {
        &&& forall|k: int| 0 <= k < self.lines@.len() ==> #[trigger] self.lines@[k]@.len()
            == self.id_line@.len()
        &&& self.id_line@.len() <= usize::MAX / 4
        &&& self.sorted_ranges@.len() == self.lines@.len() + 1
        &&& forall|k: int| 0 <= k < self.sorted_ranges@.len() ==> #[trigger] self.sorted_ranges@[k].wf()
    }

    /// The number of group tables.
    pub closed spec fn table_count(&self) -> nat {
        self.sorted_ranges@.len()
    }

    /// What well-formedness says of the matrix's shape: one id per column,
    /// one entry per column on every line, and one group table per line
    /// plus one.
    pub proof fn lemma_shape(m: Matrix)
        requires
            m.wf(),
        ensures
            m.ids().len() == m.width(),
            forall|k: int| 0 <= k < m.height() ==> (#[trigger] m.line(k)).len() == m.width(),
            m.table_count() == m.height() + 1,
    {
    }

    /// The number of columns (strings).
    pub closed spec fn width(&self) -> nat {
        self.id_line@.len()
    }

    /// The number of lines.
    pub closed spec fn height(&self) -> nat {
        self.lines@.len()
    }

    /// The ids, column by column.
    pub closed spec fn ids(&self) -> Seq<i64> {
        self.id_line@
    }

    /// Line `k`, column by column.
    pub closed spec fn line(&self, k: int) -> Seq<CharData> {
        self.lines@[k]@
    }

    /// Column `c`: its id and what each line holds for it.
    pub closed spec fn column(&self, c: int) -> (i64, Seq<CharData>) {
        (self.id_line@[c], Seq::new(self.lines@.len(), |k: int| self.lines@[k]@[c]))
    }

    /// All columns, in order.
    pub closed spec fn columns(&self) -> Seq<(i64, Seq<CharData>)> {
        Seq::new(self.id_line@.len(), |c: int| self.column(c))
    }

    /// Every column lays out a nonempty string shorter than the matrix is
    /// high, and there is at least one column.
    pub open spec fn well_shaped(&self) -> bool {
        &&& self.width() >= 1
        &&& forall|c: int|
            0 <= c < self.width() ==> laid_out(#[trigger] self.column(c).1, self.height() as int)
    }

    /// No group table holds anything yet.
    pub open spec fn tables_empty(&self) -> bool {
        forall|k: int| 0 <= k <= self.height() ==> #[trigger] self.table(k) == Map::<
            Range<usize>,
            Seq<Range<usize>>,
        >::empty()
    }

    /// The group table of line `k`.
    pub closed spec fn table(&self, k: int) -> Map<Range<usize>, Seq<Range<usize>>> {
        self.sorted_ranges@[k]@
    }

    /// The ids, column by column.
    pub fn id_line(&self) -> (r: &Vec<i64>)
        ensures
            r@ == self.ids(),
    {
        &self.id_line
    }

    /// The lines, each column by column.
    pub fn lines(&self) -> (r: &Vec<Vec<CharData>>)
        ensures
            r@.len() == self.height(),
            forall|k: int| 0 <= k < self.height() ==> (#[trigger] r@[k])@ == self.line(k),
    {
        &self.lines
    }

    /// The group table of line `line`: for each group of columns of the
    /// line before (all columns, for line 0), the groups it splits into.
    pub fn sorted_ranges(&self, line: usize) -> (r: &RangeTable)
        requires
            self.wf(),
            line <= self.height(),
        ensures
            r.wf(),
            r@ == self.table(line as int),
    {
        &self.sorted_ranges[line]
    }

    /// The matrix lays out `data`, column `j` for entry `j`: its id, and on
    /// each line what `key_of` puts there for its string; it has one line
    /// more than the longest string has bytes.
    pub open spec fn stores(&self, data: Seq<(i64, String)>) -> bool {
        &&& self.width() == data.len()
        &&& self.height() == height_for(data, data.len() as int)
        &&& forall|j: int| 0 <= j < data.len() ==> self.ids()[j] == (#[trigger] data[j]).0
        &&& forall|k: int, j: int|
            0 <= k < self.height() && 0 <= j < data.len() ==> #[trigger] self.line(k)[j] == key_of(
                text_bytes(data[j].1),
                k,
            )
    }

    /// Lays out the strings of `data` as columns, in the given order.
    pub fn new(data: &[(i64, String)]) -> (m: Matrix)
        requires
            data@.len() <= usize::MAX / 4,
            forall|j: int| 0 <= j < data@.len() ==> text_bytes(#[trigger] data@[j].1).len() + 1
                < usize::MAX,
        ensures
            m.wf(),
            m.stores(data@),
            m.tables_empty(),
            data@.len() >= 1 && (forall|j: int|
                0 <= j < data@.len() ==> text_bytes(#[trigger] data@[j].1).len() >= 1)
                ==> m.well_shaped(),
            (forall|j: int| 0 <= j < data@.len() ==> seven_bit(text_bytes(#[trigger] data@[j].1)))
                ==> seven_bit_matrix(m),
    {
        let len = data.len();
        let mut id_line: Vec<i64> = Vec::with_capacity(len);
        let mut lines: Vec<Vec<CharData>> = Vec::new();
        let mut idx: usize = 0;
        while idx < len
            invariant
                len == data@.len(),
                idx <= len,
                id_line@.len() == idx,
                forall|j: int| 0 <= j < idx ==> id_line@[j] == (#[trigger] data@[j]).0,
                forall|j: int| 0 <= j < data@.len() ==> text_bytes(#[trigger] data@[j].1).len()
                    + 1 < usize::MAX,
                lines@.len() == height_for(data@, idx as int),
                forall|k: int| 0 <= k < lines@.len() ==> #[trigger] lines@[k]@.len() == len,
                forall|k: int, j: int|
                    0 <= k < lines@.len() && 0 <= j < idx ==> #[trigger] lines@[k]@[j] == key_of(
                        text_bytes(data@[j].1),
                        k,
                    ),
                forall|k: int, j: int|
                    0 <= k < lines@.len() && idx <= j < len ==> #[trigger] lines@[k]@[j]
                        == CharData::Blank,
            decreases len - idx,
        {
            id_line.push(data[idx].0);
            let content: &[u8] = data[idx].1.as_str().as_bytes();
            let ghost text = text_bytes(data@[idx as int].1);
            assert(content@ == text);
            let clen = content.len();
            assert(text_bytes(data@[idx as int].1).len() + 1 < usize::MAX);
            let ghost h0 = height_for(data@, idx as int);
            assert(height_for(data@, idx + 1) == if clen + 1 > h0 {
                clen + 1
            } else {
                h0
            });
            let target = clen + 1;
            let ghost h1 = height_for(data@, idx + 1);
            while lines.len() < target
                invariant
                    target == clen + 1,
                    h1 == if target > h0 {
                        target as int
                    } else {
                        h0
                    },
                    h0 == height_for(data@, idx as int),
                    len == data@.len(),
                    idx < len,
                    forall|k: int| 0 <= k < lines@.len() ==> #[trigger] lines@[k]@.len() == len,
                    forall|k: int, j: int|
                        0 <= k < height_for(data@, idx as int) && 0 <= j < idx ==> #[trigger] lines@[k]@[j]
                            == key_of(text_bytes(data@[j].1), k),
                    forall|k: int, j: int|
                        height_for(data@, idx as int) <= k < lines@.len() && 0 <= j < len ==> #[trigger] lines@[k]@[j]
                            == CharData::Blank,
                    forall|k: int, j: int|
                        0 <= k < lines@.len() && idx <= j < len ==> #[trigger] lines@[k]@[j]
                            == CharData::Blank,
                    height_for(data@, idx as int) <= lines@.len(),
                    lines@.len() <= height_for(data@, idx as int) || lines@.len() <= clen + 1,
                decreases clen + 1 - lines@.len(),
            {
                let mut fresh: Vec<CharData> = Vec::with_capacity(len);
                let mut f: usize = 0;
                while f < len
                    invariant
                        f <= len,
                        fresh@.len() == f,
                        forall|j: int| 0 <= j < f ==> #[trigger] fresh@[j] == CharData::Blank,
                    decreases len - f,
                {
                    fresh.push(CharData::Blank);
                    f = f + 1;
                }
                lines.push(fresh);
            }
            let mut i: usize = 0;
            while i < clen
                invariant
                    len == data@.len(),
                    idx < len,
                    clen == text.len(),
                    content@ == text,
                    clen + 1 <= lines@.len(),
                    height_for(data@, idx as int) <= lines@.len(),
                    lines@.len() == h1,
                    h1 == height_for(data@, idx + 1),
                    i <= clen,
                    forall|k: int| 0 <= k < lines@.len() ==> #[trigger] lines@[k]@.len() == len,
                    forall|k: int, j: int|
                        0 <= k < height_for(data@, idx as int) && 0 <= j < idx ==> #[trigger] lines@[k]@[j]
                            == key_of(text_bytes(data@[j].1), k),
                    forall|k: int, j: int|
                        height_for(data@, idx as int) <= k < lines@.len() && 0 <= j < idx ==> #[trigger] lines@[k]@[j]
                            == CharData::Blank,
                    forall|k: int, j: int|
                        0 <= k < lines@.len() && idx < j < len ==> #[trigger] lines@[k]@[j]
                            == CharData::Blank,
                    forall|k: int|
                        0 <= k < i ==> #[trigger] lines@[k]@[idx as int] == CharData::Char(
                            text[clen - 1 - k],
                        ),
                    forall|k: int|
                        i <= k < lines@.len() ==> #[trigger] lines@[k]@[idx as int]
                            == CharData::Blank,
                decreases clen - i,
            {
                let c = content[clen - 1 - i];
                let ghost before = lines@;
                lines[i][idx] = CharData::Char(c);
                assert(forall|k: int| 0 <= k < lines@.len() && k != i ==> lines@[k] == before[k]);
                assert(lines@[i as int]@ == before[i as int]@.update(idx as int, CharData::Char(c)));
                i = i + 1;
            }
            let ghost before = lines@;
            lines[clen][idx] = CharData::End;
            assert(forall|k: int| 0 <= k < lines@.len() && k != clen ==> lines@[k] == before[k]);
            assert(lines@[clen as int]@ == before[clen as int]@.update(idx as int, CharData::End));
            assert(lines@.len() == height_for(data@, idx + 1));
            idx = idx + 1;
            proof {
                assert forall|k: int, j: int|
                    0 <= k < lines@.len() && 0 <= j < idx implies #[trigger] lines@[k]@[j] == key_of(
                        text_bytes(data@[j].1),
                        k,
                    ) by {
                    if j < idx - 1 {
                        if k >= height_for(data@, j + 1) {
                            lemma_height_for_monotone(data@, j + 1, idx - 1);
                        }
                        lemma_height_for_bound(data@, j, idx - 1);
                    }
                }
            }
        }
        proof {
            lemma_height_for_fits(data@, len as int);
        }
        assert(lines@.len() < usize::MAX);
        let line_count = lines.len();
        let mut sorted_ranges: Vec<RangeTable> = Vec::new();
        let mut t: usize = 0;
        let total = line_count + 1;
        while t < total
            invariant
                line_count == lines@.len(),
                total == line_count + 1,
                t <= line_count + 1,
                sorted_ranges@.len() == t,
                forall|k: int| 0 <= k < t ==> (#[trigger] sorted_ranges@[k]).wf() && sorted_ranges@[k]@
                    == Map::<Range<usize>, Seq<Range<usize>>>::empty(),
            decreases total - t,
        {
            sorted_ranges.push(RangeTable::new());
            t = t + 1;
        }
        let m = Matrix { id_line, lines, sorted_ranges };
        proof {
            Self::lemma_stored_shape(m, data@);
        }
        m
    }

    proof fn lemma_stored_shape(m: Matrix, data: Seq<(i64, String)>)
        requires
            m.stores(data),
        ensures
            data.len() >= 1 && (forall|j: int|
                0 <= j < data.len() ==> text_bytes(#[trigger] data[j].1).len() >= 1)
                ==> m.well_shaped(),
            (forall|j: int| 0 <= j < data.len() ==> seven_bit(text_bytes(#[trigger] data[j].1)))
                ==> seven_bit_matrix(m),
    {
        let h = m.height() as int;
        if data.len() >= 1 && (forall|j: int|
            0 <= j < data.len() ==> text_bytes(#[trigger] data[j].1).len() >= 1) {
            assert forall|c: int| 0 <= c < m.width() implies laid_out(#[trigger] m.column(c).1, h) by {
                let t = text_bytes(data[c].1);
                lemma_height_for_bound(data, c, data.len() as int);
                assert forall|k: int| 0 <= k < h implies #[trigger] m.column(c).1[k] == key_of(t, k) by {
                    assert(m.line(k)[c] == key_of(t, k));
                }
                assert(lays_out(m.column(c).1, t, h));
            }
        }
        if forall|j: int| 0 <= j < data.len() ==> seven_bit(text_bytes(#[trigger] data[j].1)) {
            assert forall|k: int, c: int|
                0 <= k < m.height() && 0 <= c < m.width() implies seven_bit_value(#[trigger] m.line(k)[c]) by {
                let t = text_bytes(data[c].1);
                assert(seven_bit(t));
                assert(m.line(k)[c] == key_of(t, k));
                if 0 <= k < t.len() {
                    assert(t[t.len() - 1 - k] < 128);
                }
            }
        }
    }
}

/// `s` is in order (by rank) between positions `a` (inclusive) and `b` (exclusive).
pub open spec fn sorted_on(s: Seq<CharData>, a: int, b: int) -> bool {
    forall|i: int, j: int| a <= i <= j < b ==> (#[trigger] s[i]).rank() <= (#[trigger] s[j]).rank()
}

/// Column `a` comes no later than column `b` in the order of their lines:
/// on the first line where they differ, `a`'s value ranks lower.
pub open spec fn lex_le(a: Seq<CharData>, b: Seq<CharData>) -> bool {
    forall|k: int|
        #![trigger a[k], b[k]]
        0 <= k < a.len() && k < b.len() && a.take(k) == b.take(k) ==> a[k].rank() <= b[k].rank()
}

/// `s` holds one value between positions `a` (inclusive) and `b` (exclusive).
pub open spec fn uniform_on(s: Seq<CharData>, a: int, b: int) -> bool {
    forall|i: int, j: int| a <= i < b && a <= j < b ==> #[trigger] s[i] == #[trigger] s[j]
}

/// `new` is `old` with the columns in `[a, b)` put in another order: the
/// columns outside stay where they were, the columns inside are the same
/// multiset, a line that is constant on `[a, b)` does not change, and the
/// group tables do not change.
pub open spec fn rearranged(old: Matrix, new: Matrix, a: int, b: int) -> bool {
    &&& new.width() == old.width()
    &&& new.height() == old.height()
    &&& forall|c: int|
        0 <= c < old.width() && !(a <= c < b) ==> #[trigger] new.column(c) == old.column(c)
    &&& new.columns().subrange(a, b).to_multiset() == old.columns().subrange(a, b).to_multiset()
    &&& forall|k: int|
        0 <= k < old.height() && uniform_on(old.line(k), a, b) ==> #[trigger] new.line(k)
            == old.line(k)
    &&& forall|k: int| 0 <= k <= old.height() ==> #[trigger] new.table(k) == old.table(k)
}

proof fn lemma_height_for_monotone(data: Seq<(i64, String)>, a: int, b: int)
    requires
        0 <= a <= b,
    ensures
        height_for(data, a) <= height_for(data, b),
    decreases b - a,
{
    if a < b {
        lemma_height_for_monotone(data, a, b - 1);
    }
}

proof fn lemma_height_for_fits(data: Seq<(i64, String)>, n: int)
    requires
        0 <= n <= data.len(),
        forall|j: int| 0 <= j < data.len() ==> text_bytes(#[trigger] data[j].1).len() + 1
            < usize::MAX,
    ensures
        height_for(data, n) < usize::MAX,
    decreases n,
{
    if n > 0 {
        lemma_height_for_fits(data, n - 1);
        assert(text_bytes(data[n - 1].1).len() + 1 < usize::MAX);
    }
}

pub(crate) proof fn lemma_height_for_bound(data: Seq<(i64, String)>, j: int, n: int)
    requires
        0 <= j < n,
    ensures
        text_bytes(data[j].1).len() + 1 <= height_for(data, n),
    decreases n - j,
{
    if j < n - 1 {
        lemma_height_for_bound(data, j, n - 1);
    }
}

} // verus!
