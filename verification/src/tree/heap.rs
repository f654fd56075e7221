//! Heap sort of a range of columns by the values of one line.

use super::{CharData, Matrix, rearranged, sorted_on, uniform_on};
use std::ops::Range;
use vstd::prelude::*;

verus! {

broadcast use vstd::seq_lib::group_to_multiset_ensures;

/// `s` with the entries at `i` and `j` exchanged.
pub open spec fn swap_seq<T>(s: Seq<T>, i: int, j: int) -> Seq<T> {
    s.update(i, s[j]).update(j, s[i])
}

proof fn lemma_swap_swap<T>(s: Seq<T>, i: int, j: int)
    requires
        0 <= i < s.len(),
        0 <= j < s.len(),
    ensures
        swap_seq(swap_seq(s, i, j), i, j) == s,
{
    assert(swap_seq(swap_seq(s, i, j), i, j) =~= s);
}

proof fn lemma_swap_multiset<T>(s: Seq<T>, i: int, j: int)
    requires
        0 <= i < s.len(),
        0 <= j < s.len(),
    ensures
        swap_seq(s, i, j).to_multiset() == s.to_multiset(),
{
    broadcast use vstd::seq_lib::to_multiset_update;
    broadcast use vstd::multiset::group_multiset_axioms;

    let s1 = s.update(i, s[j]);
    assert(s1.to_multiset() == s.to_multiset().insert(s[j]).remove(s[i]));
    assert(s1[j] == s[j]);
    assert(swap_seq(s, i, j) == s1.update(j, s[i]));
    assert(s1.update(j, s[i]).to_multiset() == s1.to_multiset().insert(s[i]).remove(s[j]));
    assert(s.to_multiset().count(s[i]) > 0);
    assert(s.to_multiset().insert(s[j]).remove(s[i]).insert(s[i]).remove(s[j]) =~= s.to_multiset());
}

/// Heap condition at position `i` of the heap stored at `o..=o + hi` of `s`:
/// each child present is no greater than its parent.
pub open spec fn heap_at(s: Seq<CharData>, o: int, i: int, hi: int) -> bool {
    &&& (2 * i + 1 <= hi ==> s[o + i].rank() >= s[o + 2 * i + 1].rank())
    &&& (2 * i + 2 <= hi ==> s[o + i].rank() >= s[o + 2 * i + 2].rank())
}

/// The heap condition holds at every position in `lo..=hi`.
pub open spec fn is_heap(s: Seq<CharData>, o: int, lo: int, hi: int) -> bool {
    forall|i: int| lo <= i <= hi ==> #[trigger] heap_at(s, o, i, hi)
}

/// Sifting the column at heap position `dad` down the heap stored at
/// `o..=o + e` of `cols`, ordered by the columns' values on line `k`: while
/// it has a child, take the larger one (the right one only when strictly
/// larger); stop if the column is strictly larger than it, else exchange
/// the two and go on from the child's position.
pub open spec fn sift(cols: Seq<(i64, Seq<CharData>)>, k: int, o: int, dad: int, e: int) -> Seq<
    (i64, Seq<CharData>),
>
    decreases e - dad,
{
    if dad < 0 || 2 * dad + 1 > e {
        cols
    } else {
        let l = 2 * dad + 1;
        let son = if l < e && cols[o + l].1[k].rank() < cols[o + l + 1].1[k].rank() {
            l + 1
        } else {
            l
        };
        if cols[o + dad].1[k].rank() > cols[o + son].1[k].rank() {
            cols
        } else {
            sift(swap_seq(cols, o + dad, o + son), k, o, son, e)
        }
    }
}

/// Sifting down, in turn, heap positions `i - 1` down to 0 of the heap on
/// `o..=o + e`: this makes the range a heap.
pub open spec fn heapify_down(cols: Seq<(i64, Seq<CharData>)>, k: int, o: int, i: int, e: int) -> Seq<
    (i64, Seq<CharData>),
>
    decreases i,
{
    if i <= 0 {
        cols
    } else {
        heapify_down(sift(cols, k, o, i - 1, e), k, o, i - 1, e)
    }
}

/// Taking the top of the heap on `o..=o + i` to position `o + i` and
/// sifting the new top down the heap left before it, then the same for
/// `i - 1`, and so on down to 1.
pub open spec fn extract_down(cols: Seq<(i64, Seq<CharData>)>, k: int, o: int, i: int) -> Seq<
    (i64, Seq<CharData>),
>
    decreases i,
{
    if i < 1 {
        cols
    } else {
        extract_down(sift(swap_seq(cols, o, o + i), k, o, 0, i - 1), k, o, i - 1)
    }
}

/// The heap sort of columns `o..o + len` by their values on line `k`: make
/// the range a heap, then take out its top, largest first, from the end.
pub open spec fn heap_sort(cols: Seq<(i64, Seq<CharData>)>, k: int, o: int, len: int) -> Seq<
    (i64, Seq<CharData>),
> {
    if len < 2 {
        cols
    } else {
        extract_down(heapify_down(cols, k, o, len / 2, len - 1), k, o, len - 1)
    }
}

proof fn lemma_heap_root_max(s: Seq<CharData>, o: int, hi: int, x: int)
    requires
        is_heap(s, o, 0, hi),
        0 <= x <= hi,
    ensures
        s[o].rank() >= s[o + x].rank(),
    decreases x,
{
    if x > 0 {
        let p = (x - 1) / 2;
        assert(heap_at(s, o, p, hi));
        lemma_heap_root_max(s, o, hi, p);
    }
}

impl Matrix {
    pub(crate) proof fn lemma_column_ext(a: Matrix, b: Matrix, ca: int, cb: int)
        requires
            a.height() == b.height(),
            a.ids()[ca] == b.ids()[cb],
            forall|k: int| 0 <= k < a.height() ==> #[trigger] a.line(k)[ca] == b.line(k)[cb],
        ensures
            a.column(ca) == b.column(cb),
    {
        assert forall|k: int| 0 <= k < a.height() implies a.column(ca).1[k] == b.column(cb).1[k] by {
            assert(a.line(k)[ca] == b.line(k)[cb]);
        }
        assert(a.column(ca).1 =~= b.column(cb).1);
    }

    /// Columns `x` and `y` exchanged between `old` and `new`, everything else kept.
    pub open spec fn swapped_columns(old: Matrix, new: Matrix, x: int, y: int) -> bool {
        &&& new.wf()
        &&& new.width() == old.width()
        &&& new.height() == old.height()
        &&& new.ids() == swap_seq(old.ids(), x, y)
        &&& forall|k: int| 0 <= k < old.height() ==> #[trigger] new.line(k) == swap_seq(old.line(k), x, y)
        &&& forall|k: int| 0 <= k <= old.height() ==> #[trigger] new.table(k) == old.table(k)
    }

    proof fn lemma_swap_rearranged(old: Matrix, new: Matrix, x: int, y: int, a: int, b: int)
        requires
            old.wf(),
            Self::swapped_columns(old, new, x, y),
            0 <= a <= x < b <= old.width(),
            a <= y < b,
        ensures
            rearranged(old, new, a, b),
            new.columns() == swap_seq(old.columns(), x, y),
    {
        let oc = old.columns();
        let nc = new.columns();
        assert forall|c: int| 0 <= c < old.width() implies #[trigger] nc[c] == swap_seq(oc, x, y)[c] by {
            let src = if c == y { x } else if c == x { y } else { c };
            assert forall|k: int| 0 <= k < old.height() implies #[trigger] new.line(k)[c] == old.line(k)[src] by {
                assert(new.line(k) == swap_seq(old.line(k), x, y));
            }
            Self::lemma_column_ext(new, old, c, src);
        }
        assert(nc =~= swap_seq(oc, x, y));
        assert forall|c: int| 0 <= c < old.width() && c != x && c != y implies #[trigger] new.column(c)
            == old.column(c) by {
            assert(nc[c] == swap_seq(oc, x, y)[c]);
        }
        assert(nc.subrange(a, b) =~= swap_seq(oc.subrange(a, b), x - a, y - a));
        lemma_swap_multiset(oc.subrange(a, b), x - a, y - a);
        assert forall|k: int|
            0 <= k < old.height() && uniform_on(old.line(k), a, b) implies #[trigger] new.line(k)
            == old.line(k) by {
            assert(old.line(k)[x] == old.line(k)[y]);
            assert(new.line(k) =~= old.line(k));
        }
    }

    /// Exchanging the same two columns twice gives back the matrix's
    /// columns and tables; exchanging `x` with `y` is exchanging `y` with `x`.
    pub proof fn law_swap_twice(m0: Matrix, m1: Matrix, m2: Matrix, x: int, y: int)
        requires
            m0.wf(),
            0 <= x < m0.width(),
            0 <= y < m0.width(),
            Self::swapped_columns(m0, m1, x, y),
            Self::swapped_columns(m1, m2, x, y),
        ensures
            m2.ids() == m0.ids(),
            m2.height() == m0.height(),
            Self::swapped_columns(m0, m1, y, x),
            forall|k: int| 0 <= k < m0.height() ==> #[trigger] m2.line(k) == m0.line(k),
            forall|k: int| 0 <= k <= m0.height() ==> #[trigger] m2.table(k) == m0.table(k),
    {
        assert(m2.ids() =~= m0.ids());
        assert(swap_seq(m0.ids(), y, x) =~= swap_seq(m0.ids(), x, y));
        assert forall|k: int| 0 <= k < m0.height() implies #[trigger] m1.line(k) == swap_seq(m0.line(k), y, x) by {
            assert(m0.line(k).len() == m0.width());
            assert(swap_seq(m0.line(k), y, x) =~= swap_seq(m0.line(k), x, y));
        }
        assert forall|k: int| 0 <= k < m0.height() implies #[trigger] m2.line(k) == m0.line(k) by {
            assert(m1.line(k) == swap_seq(m0.line(k), x, y));
            assert(m2.line(k) == swap_seq(m1.line(k), x, y));
            assert(m1.wf());
            assert(m1.line(k).len() == m1.width());
            assert(m0.line(k).len() == m0.width());
            lemma_swap_swap(m0.line(k), x, y);
        }
    }

    pub(crate) proof fn lemma_rearranged_trans(m0: Matrix, m1: Matrix, m2: Matrix, a: int, b: int)
        requires
            rearranged(m0, m1, a, b),
            rearranged(m1, m2, a, b),
        ensures
            rearranged(m0, m2, a, b),
    {
        assert forall|k: int|
            0 <= k < m0.height() && uniform_on(m0.line(k), a, b) implies #[trigger] m2.line(k)
            == m0.line(k) by {
            assert(m1.line(k) == m0.line(k));
        }
    }

    pub(crate) proof fn lemma_rearranged_widen(m0: Matrix, m1: Matrix, a: int, b: int, a2: int, b2: int)
        requires
            rearranged(m0, m1, a, b),
            0 <= a2 <= a <= b <= b2 <= m0.width(),
        ensures
            rearranged(m0, m1, a2, b2),
    {
        let c0 = m0.columns();
        let c1 = m1.columns();
        assert(c0.subrange(a2, b2) =~= c0.subrange(a2, a) + c0.subrange(a, b) + c0.subrange(b, b2));
        assert(c1.subrange(a2, b2) =~= c1.subrange(a2, a) + c1.subrange(a, b) + c1.subrange(b, b2));
        assert(c1.subrange(a2, a) =~= c0.subrange(a2, a));
        assert(c1.subrange(b, b2) =~= c0.subrange(b, b2));
        vstd::seq_lib::lemma_multiset_commutative(c0.subrange(a2, a) + c0.subrange(a, b), c0.subrange(b, b2));
        vstd::seq_lib::lemma_multiset_commutative(c0.subrange(a2, a), c0.subrange(a, b));
        vstd::seq_lib::lemma_multiset_commutative(c1.subrange(a2, a) + c1.subrange(a, b), c1.subrange(b, b2));
        vstd::seq_lib::lemma_multiset_commutative(c1.subrange(a2, a), c1.subrange(a, b));
    }

    proof fn lemma_rearranged_refl(m: Matrix, a: int, b: int)
        ensures
            rearranged(m, m, a, b),
    {
    }

    /// A column outside `[a, b)` keeps its id and its values.
    pub(crate) proof fn lemma_rearranged_outside(old: Matrix, new: Matrix, a: int, b: int, c: int)
        requires
            rearranged(old, new, a, b),
            0 <= c < old.width(),
            !(a <= c < b),
        ensures
            new.ids()[c] == old.ids()[c],
            forall|k: int| 0 <= k < old.height() ==> #[trigger] new.line(k)[c] == old.line(k)[c],
    {
        assert(new.column(c) == old.column(c));
        assert forall|k: int| 0 <= k < old.height() implies #[trigger] new.line(k)[c] == old.line(k)[c] by {
            assert(new.column(c).1[k] == new.line(k)[c]);
            assert(old.column(c).1[k] == old.line(k)[c]);
        }
    }

    /// A column of `new` inside `[a, b)` is one of the columns of `old` there.
    pub(crate) proof fn lemma_rearranged_source(old: Matrix, new: Matrix, a: int, b: int, x: int) -> (y: int)
        requires
            rearranged(old, new, a, b),
            0 <= a <= x < b <= old.width(),
        ensures
            a <= y < b,
            new.column(x) == old.column(y),
            forall|k: int| 0 <= k < old.height() ==> #[trigger] new.line(k)[x] == old.line(k)[y],
    {
        let ns = new.columns().subrange(a, b);
        let os = old.columns().subrange(a, b);
        assert(ns[x - a] == new.column(x));
        assert(ns.contains(new.column(x)));
        assert(os.to_multiset().contains(new.column(x)));
        assert(os.contains(new.column(x)));
        let i = choose|i: int| 0 <= i < os.len() && os[i] == new.column(x);
        let y = i + a;
        assert(old.column(y) == new.column(x));
        assert forall|k: int| 0 <= k < old.height() implies #[trigger] new.line(k)[x] == old.line(k)[y] by {
            assert(new.column(x).1[k] == new.line(k)[x]);
            assert(old.column(y).1[k] == old.line(k)[y]);
        }
        y
    }

    /// Exchanges columns `a` and `b`: their ids and what every line holds for them.
    fn swap_column(&mut self, a: usize, b: usize)
        requires
            old(self).wf(),
            a < old(self).width(),
            b < old(self).width(),
        ensures
            Self::swapped_columns(*old(self), *final(self), a as int, b as int),
    {
        let ghost m0 = *self;
        let t = self.id_line[a];
        let u = self.id_line[b];
        self.id_line[a] = u;
        self.id_line[b] = t;
        assert(self.id_line@ == swap_seq(m0.id_line@, a as int, b as int));
        let max_len = self.lines.len();
        let mut i: usize = 0;
        while i < max_len
            invariant
                max_len == self.lines@.len(),
                max_len == m0.lines@.len(),
                i <= max_len,
                a < m0.id_line@.len(),
                b < m0.id_line@.len(),
                self.id_line@ == swap_seq(m0.id_line@, a as int, b as int),
                self.sorted_ranges == m0.sorted_ranges,
                m0.wf(),
                forall|k: int| 0 <= k < i ==> #[trigger] self.lines@[k]@ == swap_seq(m0.lines@[k]@, a as int, b as int),
                forall|k: int| i <= k < max_len ==> #[trigger] self.lines@[k] == m0.lines@[k],
            decreases max_len - i,
        {
            assert(self.lines@[i as int] == m0.lines@[i as int]);
            let x = self.lines[i][a];
            let y = self.lines[i][b];
            let ghost before = self.lines@;
            self.lines[i][a] = y;
            self.lines[i][b] = x;
            assert(forall|k: int| 0 <= k < max_len && k != i ==> self.lines@[k] == before[k]);
            assert(self.lines@[i as int]@ =~= swap_seq(m0.lines@[i as int]@, a as int, b as int));
            i = i + 1;
        }
        proof {
            assert forall|k: int| 0 <= k < self.lines@.len() implies #[trigger] self.lines@[k]@.len()
                == self.id_line@.len() by {
                assert(m0.lines@[k]@.len() == m0.id_line@.len());
            }
        }
    }

    /// Sifts the column at heap position `pos` down the heap on
    /// `offset..=offset + end` of line `line`; this restores the heap
    /// condition at `pos` when it held after `pos`.
    fn max_heapify(&mut self, line: usize, offset: usize, pos: usize, end: usize)
        requires
            old(self).wf(),
            line < old(self).height(),
            pos <= end,
            offset + end < old(self).width(),
        ensures
            final(self).wf(),
            final(self).columns() == sift(old(self).columns(), line as int, offset as int, pos as int, end as int),
            rearranged(*old(self), *final(self), offset + pos, offset + end + 1),
            is_heap(old(self).line(line as int), offset as int, pos + 1, end as int) ==> is_heap(
                final(self).line(line as int),
                offset as int,
                pos as int,
                end as int,
            ),
    {
        let ghost m0 = *self;
        let ghost o = offset as int;
        let ghost e = end as int;
        let ghost h = is_heap(m0.line(line as int), o, pos + 1, e);
        let mut dad = pos;
        let mut son = dad * 2 + 1;
        proof {
            Self::lemma_rearranged_refl(m0, offset + pos, offset + end + 1);
        }
        while son <= end
            invariant
                self.wf(),
                o == offset as int,
                e == end as int,
                line < self.height(),
                pos <= dad <= end,
                son == dad * 2 + 1,
                offset + end < self.width(),
                self.width() <= usize::MAX / 4,
                rearranged(m0, *self, offset + pos, offset + end + 1),
                m0 == *old(self),
                h == is_heap(m0.line(line as int), o, pos + 1, e),
                sift(m0.columns(), line as int, o, pos as int, e) == sift(self.columns(), line as int, o, dad as int, e),
                h ==> forall|x: int| pos <= x <= e && x != dad ==> #[trigger] heap_at(self.line(line as int), o, x, e),
                h && dad > pos ==> ({
                    let s = self.line(line as int);
                    let p = (dad - 1) / 2;
                    &&& pos <= p
                    &&& (2 * dad + 1 <= e ==> s[o + p].rank() >= s[o + 2 * dad + 1].rank())
                    &&& (2 * dad + 2 <= e ==> s[o + p].rank() >= s[o + 2 * dad + 2].rank())
                }),
            decreases end - dad,
        {
            let ghost s = self.line(line as int);
            let ghost d = dad as int;
            let ghost cols = self.columns();
            proof {
                assert forall|c: int| 0 <= c < self.width() implies #[trigger] cols[c].1[line as int] == s[c] by {
                    assert(cols[c] == self.column(c));
                }
            }
            if son < end {
                let l = self.lines[line][offset + son];
                let r = self.lines[line][offset + son + 1];
                assert(l == s[o + son]);
                assert(r == s[o + son + 1]);
                if l.precedes(&r) {
                    son = son + 1;
                }
            }
            assert(s[o + son].rank() >= s[o + 2 * d + 1].rank());
            assert(2 * d + 2 <= e ==> s[o + son].rank() >= s[o + 2 * d + 2].rank());
            assert(cols[o + son].1[line as int] == s[o + son]);
            assert(cols[o + d].1[line as int] == s[o + d]);
            assert(cols[o + 2 * d + 1].1[line as int] == s[o + 2 * d + 1]);
            assert(2 * d + 1 < e ==> cols[o + 2 * d + 2].1[line as int] == s[o + 2 * d + 2]);
            if self.lines[line][offset + dad].follows(&self.lines[line][offset + son]) {
                proof {
                    if h {
                        assert(heap_at(s, o, d, e));
                        assert(is_heap(self.line(line as int), o, pos as int, e));
                    }
                }
                return;
            } else {
                let ghost before = *self;
                self.swap_column(dad + offset, son + offset);
                proof {
                    Self::lemma_swap_rearranged(before, *self, d + o, son + o, o + pos, o + e + 1);
                    Self::lemma_rearranged_trans(m0, before, *self, o + pos, o + e + 1);
                    let ns = self.line(line as int);
                    let sn = son as int;
                    assert(self.columns() == swap_seq(cols, o + d, o + sn));
                    assert(ns == swap_seq(s, o + d, o + sn));
                    assert(ns[o + d] == s[o + sn]);
                    assert(ns[o + sn] == s[o + d]);
                    if h {
                        assert(heap_at(s, o, sn, e));
                        assert forall|x: int| pos <= x <= e && x != sn implies #[trigger] heap_at(ns, o, x, e) by {
                            if x != d {
                                assert(heap_at(s, o, x, e));
                            }
                        }
                    }
                }
                dad = son;
                son = dad * 2 + 1;
            }
        }
        proof {
            assert(h ==> heap_at(self.line(line as int), o, dad as int, e));
        }
    }

    /// Sorts the columns in `range` by the values of line `line`.
    pub(crate) fn sort_line(&mut self, line: usize, range: Range<usize>)
        requires
            old(self).wf(),
            line < old(self).height(),
            range.start <= range.end <= old(self).width(),
        ensures
            final(self).wf(),
            rearranged(*old(self), *final(self), range.start as int, range.end as int),
            sorted_on(final(self).line(line as int), range.start as int, range.end as int),
            final(self).columns() == heap_sort(
                old(self).columns(),
                line as int,
                range.start as int,
                range.end - range.start,
            ),
    {
        let ghost m0 = *self;
        let start = range.start;
        let len = range.end - range.start;
        let ghost o = start as int;
        let ghost b = range.end as int;
        proof {
            Self::lemma_rearranged_refl(m0, o, b);
        }
        if len < 2 {
            return;
        }
        let mut i = len / 2;
        while i > 0
            invariant
                self.wf(),
                o == start as int,
                line < self.height(),
                2 <= len,
                start + len == b,
                b <= self.width(),
                i <= len / 2,
                is_heap(self.line(line as int), o, i as int, len - 1),
                rearranged(m0, *self, o, b),
                heapify_down(m0.columns(), line as int, o, (len / 2) as int, len - 1) == heapify_down(
                    self.columns(),
                    line as int,
                    o,
                    i as int,
                    len - 1,
                ),
            decreases i,
        {
            i = i - 1;
            let ghost before = *self;
            self.max_heapify(line, start, i, len - 1);
            proof {
                Self::lemma_rearranged_widen(before, *self, o + i, o + len, o, b);
                Self::lemma_rearranged_trans(m0, before, *self, o, b);
            }
        }
        let ghost sorted_cols = heap_sort(m0.columns(), line as int, o, len as int);
        proof {
            assert(heapify_down(self.columns(), line as int, o, 0, len - 1) == self.columns());
        }
        let mut i = len - 1;
        while i >= 1
            invariant
                sorted_cols == heap_sort(m0.columns(), line as int, o, len as int),
                sorted_cols == extract_down(self.columns(), line as int, o, i as int),
                self.wf(),
                o == start as int,
                line < self.height(),
                2 <= len,
                start + len == b,
                b <= self.width(),
                i < len,
                is_heap(self.line(line as int), o, 0, i as int),
                sorted_on(self.line(line as int), o + i + 1, b),
                forall|x: int, y: int|
                    0 <= x <= i < y < len ==> (#[trigger] self.line(line as int)[o + x]).rank()
                        <= (#[trigger] self.line(line as int)[o + y]).rank(),
                rearranged(m0, *self, o, b),
            decreases i,
        {
            let ghost s0 = self.line(line as int);
            let ghost m1 = *self;
            proof {
                assert forall|x: int| 0 <= x <= i implies s0[o].rank() >= #[trigger] s0[o + x].rank() by {
                    lemma_heap_root_max(s0, o, i as int, x);
                }
            }
            self.swap_column(start, i + start);
            let ghost m2 = *self;
            let ghost s1 = self.line(line as int);
            proof {
                Self::lemma_swap_rearranged(m1, m2, o, o + i, o, b);
                Self::lemma_rearranged_trans(m0, m1, m2, o, b);
                assert(s1 == swap_seq(s0, o, o + i));
                assert forall|x: int| 1 <= x <= i - 1 implies #[trigger] heap_at(s1, o, x, i - 1) by {
                    assert(heap_at(s0, o, x, i as int));
                }
            }
            self.max_heapify(line, start, 0, i - 1);
            proof {
                let s2 = self.line(line as int);
                Self::lemma_rearranged_widen(m2, *self, o, o + i, o, b);
                Self::lemma_rearranged_trans(m0, m2, *self, o, b);
                Self::lemma_rearranged_outside(m2, *self, o, o + i, o + i);
                assert(s2[o + i] == s1[o + i]);
                assert(s1[o + i] == s0[o]);
                assert forall|y: int| i < y < len implies #[trigger] s2[o + y] == s0[o + y] by {
                    Self::lemma_rearranged_outside(m2, *self, o, o + i, o + y);
                    assert(s1[o + y] == s0[o + y]);
                }
                assert forall|x: int| 0 <= x < i implies (#[trigger] s2[o + x]).rank() <= s2[o + i].rank() && (forall|y: int| i < y < len ==> s2[o + x].rank() <= #[trigger] s2[o + y].rank()) by {
                    let src = Self::lemma_rearranged_source(m2, *self, o, o + i, o + x);
                    assert(s2[o + x] == s1[src]);
                    let xs = src - o;
                    if xs == 0 {
                        assert(s1[src] == s0[o + i]);
                        assert(s0[o].rank() >= s0[o + i].rank());
                    } else {
                        assert(s1[src] == s0[o + xs]);
                        assert(s0[o].rank() >= s0[o + xs].rank());
                    }
                    assert forall|y: int| i < y < len implies s2[o + x].rank() <= #[trigger] s2[o + y].rank() by {
                        assert(s2[o + y] == s0[o + y]);
                        if xs == 0 {
                            assert(s0[o + i].rank() <= s0[o + y].rank());
                        } else {
                            assert(s0[o + xs].rank() <= s0[o + y].rank());
                        }
                    }
                }
                assert forall|x: int, y: int| o + i <= x <= y < b implies (#[trigger] s2[x]).rank() <= (#[trigger] s2[y]).rank() by {
                    if y > o + i {
                        assert(s2[o + (y - o)] == s0[o + (y - o)]);
                        if x == o + i {
                            assert(s0[o + 0].rank() <= s0[o + (y - o)].rank());
                        } else {
                            assert(s2[o + (x - o)] == s0[o + (x - o)]);
                        }
                    }
                }
            }
            i = i - 1;
        }
        proof {
            let s = self.line(line as int);
            assert forall|x: int, y: int| o <= x <= y < b implies (#[trigger] s[x]).rank() <= (#[trigger] s[y]).rank() by {
                if x == o && y > o {
                    assert(s[o + 0].rank() <= s[o + (y - o)].rank());
                }
            }
        }
    }
}

} // verus!
