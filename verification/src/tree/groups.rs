//! Splitting sorted ranges of columns into groups, line by line.

use super::heap::heap_sort;
use super::laws::{lemma_grouped_in_order, lemma_seven_bit_kept};
use super::trie::{seven_bit_matrix, seven_bit_value};
use super::{
    CharData, Matrix, RangeTable, key_of, laid_out, lays_out, lex_le, rearranged, sorted_on,
    uniform_on,
};
use std::ops::Range;
use vstd::prelude::*;

verus! {

/// The range `a..b`.
pub open spec fn rg(a: int, b: int) -> Range<usize> {
    Range { start: a as usize, end: b as usize }
}

/// How many end markers `s` holds from position `a` on, before the first
/// other value or position `b`.
pub open spec fn lead_ends(s: Seq<CharData>, a: int, b: int) -> int
    decreases b - a,
{
    if a < b && s[a] == CharData::End {
        1 + lead_ends(s, a + 1, b)
    } else {
        0
    }
}

/// The groups for `e` end markers starting at `a`: an empty range at `a`,
/// then one range per end marker.
pub open spec fn ends_part(a: int, e: int) -> Seq<Range<usize>> {
    if e <= 0 {
        seq![]
    } else {
        seq![rg(a, a)] + Seq::new(e as nat, |t: int| rg(a + t, a + t + 1))
    }
}

/// The maximal runs of equal values of `s` in `start..b`, given that the
/// run beginning at `start` is known to reach at least `i`.
pub open spec fn run_split(s: Seq<CharData>, start: int, i: int, b: int) -> Seq<Range<usize>>
    decreases b - i,
{
    if i >= b {
        seq![rg(start, b)]
    } else if s[i] == s[start] {
        run_split(s, start, i + 1, b)
    } else {
        seq![rg(start, i)] + run_split(s, i, i + 1, b)
    }
}

/// The groups that range `r` splits into at a line holding `s`:
/// an empty range stays as it is; a single column stays if it holds a
/// byte and is dropped otherwise; a longer range (sorted, without blanks)
/// gives an empty range and one range per end marker if it starts with end
/// markers, then one range per run of equal bytes.
pub open spec fn split(s: Seq<CharData>, r: Range<usize>) -> Seq<Range<usize>> {
    let a = r.start as int;
    let b = r.end as int;
    if b <= a {
        seq![r]
    } else if b == a + 1 {
        if s[a] is Char {
            seq![r]
        } else {
            seq![]
        }
    } else {
        let e = lead_ends(s, a, b);
        ends_part(a, e) + if a + e < b {
            run_split(s, a + e, a + e + 1, b)
        } else {
            seq![]
        }
    }
}

/// The groups of all ranges of `rs`, in order.
pub open spec fn children_of(s: Seq<CharData>, rs: Seq<Range<usize>>) -> Seq<Range<usize>>
    decreases rs.len(),
{
    if rs.len() == 0 {
        seq![]
    } else {
        children_of(s, rs.drop_last()) + split(s, rs.last())
    }
}

/// The table of a line holding `s` whose ranges come from `rs`: each range of
/// `rs` that splits into at least one group, mapped to its groups.
pub open spec fn table_for(s: Seq<CharData>, rs: Seq<Range<usize>>) -> Map<
    Range<usize>,
    Seq<Range<usize>>,
> {
    Map::new(|r: Range<usize>| rs.contains(r) && split(s, r).len() > 0, |r: Range<usize>| split(s, r))
}

/// A range of columns that can be split at a line holding `s`: within the
/// `n` columns, starting at a column, and, if it has two columns or more,
/// sorted and free of blanks.
pub open spec fn splittable(s: Seq<CharData>, r: Range<usize>, n: int) -> bool {
    &&& r.start <= r.end <= n
    &&& r.start < n
    &&& r.end - r.start >= 2 ==> {
        &&& sorted_on(s, r.start as int, r.end as int)
        &&& forall|c: int| r.start <= c < r.end ==> !(#[trigger] s[c] is Blank)
    }
}

/// The ranges lie within the `n` columns, each starts at a column, and each
/// ends before the next one starts.
pub open spec fn ranges_ok(rs: Seq<Range<usize>>, n: int) -> bool {
    &&& forall|i: int|
        0 <= i < rs.len() ==> (#[trigger] rs[i]).start <= rs[i].end <= n && rs[i].start < n
    &&& forall|i: int, j: int| 0 <= i < j < rs.len() ==> (#[trigger] rs[i]).end <= (#[trigger] rs[j]).start
}

/// Every range of two columns or more holds bytes only in `s`.
pub open spec fn chars_on(s: Seq<CharData>, rs: Seq<Range<usize>>) -> bool {
    forall|i: int, c: int|
        #![trigger s[c], rs[i]]
        0 <= i < rs.len() && rs[i].end - rs[i].start >= 2 && rs[i].start <= c < rs[i].end ==> s[c] is Char
}

/// Every range is constant in `s`.
pub open spec fn uniform_all(s: Seq<CharData>, rs: Seq<Range<usize>>) -> bool {
    forall|i: int| 0 <= i < rs.len() ==> uniform_on(s, (#[trigger] rs[i]).start as int, rs[i].end as int)
}

/// `x` lies within `p`.
pub open spec fn within(x: Range<usize>, p: Range<usize>) -> bool {
    p.start <= x.start <= x.end <= p.end
}

pub(crate) proof fn lemma_run_split_props(s: Seq<CharData>, start: int, i: int, b: int)
    requires
        0 <= start < i <= b <= usize::MAX,
        uniform_on(s, start, i),
    ensures
        run_split(s, start, i, b).len() >= 1,
        run_split(s, start, i, b)[0].start == start,
        run_split(s, start, i, b).last().end == b,
        forall|t: int| 0 <= t < run_split(s, start, i, b).len() ==> {
            let x = #[trigger] run_split(s, start, i, b)[t];
            &&& start <= x.start < x.end <= b
            &&& uniform_on(s, x.start as int, x.end as int)
            &&& t + 1 < run_split(s, start, i, b).len() ==> x.end == run_split(s, start, i, b)[t + 1].start
        },
    decreases b - i,
{
    let out = run_split(s, start, i, b);
    if i >= b {
    } else if s[i] == s[start] {
        assert(uniform_on(s, start, i + 1)) by {
            assert forall|x: int, y: int| start <= x < i + 1 && start <= y < i + 1 implies #[trigger] s[x] == #[trigger] s[y] by {
                if x < i {
                    assert(s[x] == s[start]);
                }
                if y < i {
                    assert(s[y] == s[start]);
                }
            }
        }
        lemma_run_split_props(s, start, i + 1, b);
    } else {
        let rest = run_split(s, i, i + 1, b);
        lemma_run_split_props(s, i, i + 1, b);
        assert(out == seq![rg(start, i)] + rest);
        assert forall|t: int| 0 <= t < out.len() implies {
            let x = #[trigger] out[t];
            &&& start <= x.start < x.end <= b
            &&& uniform_on(s, x.start as int, x.end as int)
            &&& t + 1 < out.len() ==> x.end == out[t + 1].start
        } by {
            if t > 0 {
                assert(out[t] == rest[t - 1]);
                if t + 1 < out.len() {
                    assert(out[t + 1] == rest[t]);
                }
            } else {
                assert(out[0] == rg(start, i));
                if out.len() > 1 {
                    assert(out[1] == rest[0]);
                }
            }
        }
    }
}

proof fn lemma_rank_injective(x: CharData, y: CharData)
    ensures
        x.rank() == y.rank() <==> x == y,
{
}

/// Consecutive runs of a sorted stretch hold strictly increasing values.
pub(crate) proof fn lemma_run_split_order(s: Seq<CharData>, start: int, i: int, b: int)
    requires
        0 <= start < i <= b <= usize::MAX,
        uniform_on(s, start, i),
        sorted_on(s, start, b),
    ensures
        forall|t: int|
            0 <= t < run_split(s, start, i, b).len() - 1 ==> (#[trigger] s[run_split(s, start, i, b)[t].start as int]).rank()
                < s[run_split(s, start, i, b)[t + 1].start as int].rank(),
    decreases b - i,
{
    let out = run_split(s, start, i, b);
    if i >= b {
    } else if s[i] == s[start] {
        assert(uniform_on(s, start, i + 1)) by {
            assert forall|x: int, y: int| start <= x < i + 1 && start <= y < i + 1 implies #[trigger] s[x] == #[trigger] s[y] by {
                if x < i {
                    assert(s[x] == s[start]);
                }
                if y < i {
                    assert(s[y] == s[start]);
                }
            }
        }
        lemma_run_split_order(s, start, i + 1, b);
        assert(out == run_split(s, start, i + 1, b));
    } else {
        let rest = run_split(s, i, i + 1, b);
        lemma_run_split_props(s, i, i + 1, b);
        lemma_run_split_order(s, i, i + 1, b);
        assert(out == seq![rg(start, i)] + rest);
        assert forall|t: int| 0 <= t < out.len() - 1 implies (#[trigger] s[out[t].start as int]).rank() < s[out[t + 1].start as int].rank() by {
            if t == 0 {
                assert(out[0] == rg(start, i));
                assert(out[1] == rest[0]);
                assert(s[i - 1] == s[start]);
                assert(s[i - 1].rank() <= s[i].rank());
                lemma_rank_injective(s[i], s[start]);
            } else {
                assert(out[t] == rest[t - 1]);
                assert(out[t + 1] == rest[t]);
            }
        }
    }
}

/// Ranges that follow one another from `lo` to `hi` cover every column in between.
pub(crate) proof fn lemma_consecutive_cover(rs: Seq<Range<usize>>, lo: int, hi: int, c: int) -> (t: int)
    requires
        rs.len() >= 1,
        rs[0].start == lo,
        rs.last().end == hi,
        forall|u: int| 0 <= u < rs.len() - 1 ==> (#[trigger] rs[u]).end == rs[u + 1].start,
        lo <= c < hi,
    ensures
        0 <= t < rs.len(),
        rs[t].start <= c < rs[t].end,
    decreases rs.len(),
{
    let last = rs.len() - 1;
    if c >= rs[last].start {
        last
    } else {
        assert(rs[last - 1].end == rs[last].start);
        let init = rs.drop_last();
        assert forall|u: int| 0 <= u < init.len() - 1 implies (#[trigger] init[u]).end == init[u + 1].start by {
            assert(rs[u].end == rs[u + 1].start);
        }
        lemma_consecutive_cover(init, lo, rs[last - 1].end as int, c)
    }
}

pub(crate) proof fn lemma_ends_part_index(a: int, e: int, t: int)
    requires
        e > 0,
        0 <= t < e + 1,
    ensures
        ends_part(a, e).len() == e + 1,
        ends_part(a, e)[t] == if t == 0 {
            rg(a, a)
        } else {
            rg(a + t - 1, a + t)
        },
{
}

/// Past the leading end markers, a sorted range without blanks holds bytes only.
pub(crate) proof fn lemma_chars_after_ends(s: Seq<CharData>, a: int, b: int)
    requires
        sorted_on(s, a, b),
        forall|c: int| a <= c < b ==> !(#[trigger] s[c] is Blank),
    ensures
        forall|c: int| a + lead_ends(s, a, b) <= c < b ==> #[trigger] s[c] is Char,
{
    lemma_lead_ends_bound(s, a, b);
    let e = lead_ends(s, a, b);
    assert forall|c: int| a + e <= c < b implies #[trigger] s[c] is Char by {
        assert(s[a + e].rank() <= s[c].rank());
        assert(!(s[a + e] is Blank));
    }
}

/// One group of a splittable range: where it lies, that it is constant,
/// that it holds bytes only if it has two columns or more, and that it ends
/// before the next one starts.
pub open spec fn split_entry_ok(s: Seq<CharData>, p: Range<usize>, n: int, t: int) -> bool {
    let x = split(s, p)[t];
    &&& within(x, p)
    &&& x.start < n
    &&& uniform_on(s, x.start as int, x.end as int)
    &&& (x.end - x.start >= 2 ==> forall|c: int| x.start <= c < x.end ==> #[trigger] s[c] is Char)
    &&& t + 1 < split(s, p).len() ==> x.end <= split(s, p)[t + 1].start
}

#[verifier::spinoff_prover]
proof fn lemma_split_entry(s: Seq<CharData>, p: Range<usize>, n: int, t: int)
    requires
        splittable(s, p, n),
        0 <= t < split(s, p).len(),
    ensures
        split_entry_ok(s, p, n, t),
{
    let a = p.start as int;
    let b = p.end as int;
    let out = split(s, p);
    if b >= a + 2 {
        let e = lead_ends(s, a, b);
        lemma_lead_ends_bound(s, a, b);
        let ends = ends_part(a, e);
        let runs = if a + e < b {
            run_split(s, a + e, a + e + 1, b)
        } else {
            seq![]
        };
        assert(out == ends + runs);
        if a + e < b {
            lemma_run_split_props(s, a + e, a + e + 1, b);
            lemma_chars_after_ends(s, a, b);
        }
        if t < ends.len() {
            lemma_ends_part_index(a, e, t);
            assert(out[t] == ends[t]);
            if t + 1 < out.len() {
                if t + 1 < ends.len() {
                    lemma_ends_part_index(a, e, t + 1);
                    assert(out[t + 1] == ends[t + 1]);
                } else {
                    assert(out[t + 1] == runs[0]);
                }
            }
        } else {
            let u = t - ends.len();
            assert(out[t] == runs[u]);
            if t + 1 < out.len() {
                assert(out[t + 1] == runs[u + 1]);
            }
        }
    }
}

proof fn lemma_consecutive_ordered(rs: Seq<Range<usize>>, i: int, j: int)
    requires
        forall|t: int| 0 <= t < rs.len() ==> (#[trigger] rs[t]).start <= rs[t].end,
        forall|t: int| 0 <= t < rs.len() - 1 ==> (#[trigger] rs[t]).end <= rs[t + 1].start,
        0 <= i < j < rs.len(),
    ensures
        rs[i].end <= rs[j].start,
    decreases j - i,
{
    if j > i + 1 {
        lemma_consecutive_ordered(rs, i, j - 1);
        assert(rs[j - 1].end <= rs[j].start);
    }
}

proof fn lemma_split_ordered(s: Seq<CharData>, p: Range<usize>, n: int)
    requires
        splittable(s, p, n),
    ensures
        ranges_ok(split(s, p), n),
        uniform_all(s, split(s, p)),
        chars_on(s, split(s, p)),
        forall|t: int| 0 <= t < split(s, p).len() ==> within(#[trigger] split(s, p)[t], p),
{
    let sp = split(s, p);
    assert forall|t: int| 0 <= t < sp.len() implies #[trigger] split_entry_ok(s, p, n, t) by {
        lemma_split_entry(s, p, n, t);
    }
    assert forall|t: int| 0 <= t < sp.len() implies (#[trigger] sp[t]).start <= sp[t].end && sp[t].end <= n && sp[t].start < n && within(sp[t], p) && uniform_on(s, sp[t].start as int, sp[t].end as int) by {
        assert(split_entry_ok(s, p, n, t));
    }
    assert forall|t: int| 0 <= t < sp.len() - 1 implies (#[trigger] sp[t]).end <= sp[t + 1].start by {
        assert(split_entry_ok(s, p, n, t));
    }
    assert forall|i: int, j: int| 0 <= i < j < sp.len() implies (#[trigger] sp[i]).end <= (#[trigger] sp[j]).start by {
        lemma_consecutive_ordered(sp, i, j);
    }
    assert forall|i: int, c: int|
        #![trigger s[c], sp[i]]
        0 <= i < sp.len() && sp[i].end - sp[i].start >= 2 && sp[i].start <= c < sp[i].end
        implies s[c] is Char by {
        assert(split_entry_ok(s, p, n, i));
    }
}

/// The groups of a list of ordered, splittable ranges are ordered too, each
/// lies within one of the ranges, each is constant in `s`, and each of two
/// columns or more holds bytes only.
proof fn lemma_children_props(s: Seq<CharData>, rs: Seq<Range<usize>>, n: int)
    requires
        ranges_ok(rs, n),
        forall|j: int| 0 <= j < rs.len() ==> splittable(s, #[trigger] rs[j], n),
    ensures
        ranges_ok(children_of(s, rs), n),
        uniform_all(s, children_of(s, rs)),
        chars_on(s, children_of(s, rs)),
        forall|t: int|
            0 <= t < children_of(s, rs).len() ==> exists|j: int|
                0 <= j < rs.len() && within(#[trigger] children_of(s, rs)[t], rs[j]),
    decreases rs.len(),
{
    if rs.len() > 0 {
        let init = rs.drop_last();
        let last = rs.last();
        assert(ranges_ok(init, n)) by {
            assert forall|i: int, j: int| 0 <= i < j < init.len() implies (#[trigger] init[i]).end <= (#[trigger] init[j]).start by {
                assert(rs[i].end <= rs[j].start);
            }
        }
        assert forall|j: int| 0 <= j < init.len() implies splittable(s, #[trigger] init[j], n) by {
            assert(splittable(s, rs[j], n));
        }
        lemma_children_props(s, init, n);
        assert(splittable(s, rs[rs.len() - 1], n));
        lemma_split_ordered(s, last, n);
        let c0 = children_of(s, init);
        let sp = split(s, last);
        let ch = children_of(s, rs);
        assert(ch == c0 + sp);
        assert forall|t: int| 0 <= t < ch.len() implies exists|j: int|
            0 <= j < rs.len() && within(#[trigger] ch[t], rs[j]) by {
            if t < c0.len() {
                assert(ch[t] == c0[t]);
                let j = choose|j: int| 0 <= j < init.len() && within(#[trigger] c0[t], init[j]);
                assert(init[j] == rs[j]);
            } else {
                assert(ch[t] == sp[t - c0.len()]);
                assert(within(sp[t - c0.len()], last));
                assert(rs[rs.len() - 1] == last);
            }
        }
        assert forall|t: int| 0 <= t < ch.len() implies (#[trigger] ch[t]).start <= ch[t].end <= n && ch[t].start < n by {
            if t < c0.len() {
                assert(ch[t] == c0[t]);
            } else {
                assert(ch[t] == sp[t - c0.len()]);
            }
        }
        assert forall|i: int, j: int| 0 <= i < j < ch.len() implies (#[trigger] ch[i]).end <= (#[trigger] ch[j]).start by {
            if j < c0.len() {
                assert(ch[i] == c0[i] && ch[j] == c0[j]);
            } else if i >= c0.len() {
                assert(ch[i] == sp[i - c0.len()] && ch[j] == sp[j - c0.len()]);
            } else {
                assert(ch[i] == c0[i] && ch[j] == sp[j - c0.len()]);
                let k = choose|k: int| 0 <= k < init.len() && within(#[trigger] c0[i], init[k]);
                assert(rs[k].end <= rs[rs.len() - 1].start);
                assert(within(sp[j - c0.len()], last));
            }
        }
        assert forall|i: int| 0 <= i < ch.len() implies uniform_on(s, (#[trigger] ch[i]).start as int, ch[i].end as int) by {
            if i < c0.len() {
                assert(ch[i] == c0[i]);
            } else {
                assert(ch[i] == sp[i - c0.len()]);
            }
        }
        assert forall|i: int, c: int|
            #![trigger s[c], ch[i]]
            0 <= i < ch.len() && ch[i].end - ch[i].start >= 2 && ch[i].start <= c < ch[i].end
            implies s[c] is Char by {
            if i < c0.len() {
                assert(ch[i] == c0[i]);
            } else {
                assert(ch[i] == sp[i - c0.len()]);
            }
        }
    }
}

pub(crate) proof fn lemma_lead_ends_bound(s: Seq<CharData>, a: int, b: int)
    ensures
        0 <= lead_ends(s, a, b),
        a <= b ==> a + lead_ends(s, a, b) <= b,
        a < b ==> (lead_ends(s, a, b) == 0 <==> s[a] != CharData::End),
        forall|c: int| a <= c < a + lead_ends(s, a, b) ==> #[trigger] s[c] == CharData::End,
        a + lead_ends(s, a, b) < b ==> s[a + lead_ends(s, a, b)] != CharData::End,
    decreases b - a,
{
    if a < b && s[a] == CharData::End {
        lemma_lead_ends_bound(s, a + 1, b);
    }
}

proof fn lemma_run_split_step(s: Seq<CharData>, start: int, i: int, b: int)
    requires
        i < b,
    ensures
        s[i] == s[start] ==> run_split(s, start, i, b) == run_split(s, start, i + 1, b),
        s[i] != s[start] ==> run_split(s, start, i, b) == seq![rg(start, i)] + run_split(s, i, i + 1, b),
{
}

/// The pieces that columns `start..b` of a line holding `s` are cut into,
/// given that the piece beginning at `start` is known to reach `i`. A piece
/// of one byte value runs as long as the value repeats; an end marker is a
/// piece of its own; blanks are dropped, except that the range's last piece
/// is cut where the scan stands when it reaches `b`, blank or not.
pub open spec fn cut(s: Seq<CharData>, start: int, i: int, b: int) -> Seq<Range<usize>>
    decreases b - i,
{
    if i >= b {
        seq![rg(start, b)]
    } else if s[start] is Blank && !(s[i] is End) {
        cut(s, i, i + 1, b)
    } else if s[start] is Char && s[i] == s[start] {
        cut(s, start, i + 1, b)
    } else {
        seq![rg(start, i)] + cut(s, i, i + 1, b)
    }
}

/// The pieces that range `r` is cut into at a line holding `s`, whatever
/// the range holds: a single column stays if it holds a byte and is
/// dropped otherwise; any other range is cut as `cut` says, scanning from
/// its first column.
pub open spec fn split_any(s: Seq<CharData>, r: Range<usize>) -> Seq<Range<usize>> {
    let a = r.start as int;
    let b = r.end as int;
    if b == a + 1 {
        if s[a] is Char {
            seq![r]
        } else {
            seq![]
        }
    } else {
        cut(s, a, a, b)
    }
}

/// The pieces of all ranges of `rs`, in order.
pub open spec fn children_any(s: Seq<CharData>, rs: Seq<Range<usize>>) -> Seq<Range<usize>>
    decreases rs.len(),
{
    if rs.len() == 0 {
        seq![]
    } else {
        children_any(s, rs.drop_last()) + split_any(s, rs.last())
    }
}

/// Each range of `rs` that is cut into at least one piece, mapped to its pieces.
pub open spec fn table_any(s: Seq<CharData>, rs: Seq<Range<usize>>) -> Map<
    Range<usize>,
    Seq<Range<usize>>,
> {
    Map::new(|r: Range<usize>| rs.contains(r) && split_any(s, r).len() > 0, |r: Range<usize>| split_any(s, r))
}

/// Each range runs forward, and each ends before the next one starts.
pub open spec fn in_order(rs: Seq<Range<usize>>) -> bool {
    &&& forall|i: int| 0 <= i < rs.len() ==> (#[trigger] rs[i]).start <= rs[i].end
    &&& forall|i: int, j: int| 0 <= i < j < rs.len() ==> (#[trigger] rs[i]).end <= (#[trigger] rs[j]).start
}

/// `x` lies within one of the ranges `rs`.
pub open spec fn nested_in(x: Range<usize>, rs: Seq<Range<usize>>) -> bool {
    exists|j: int| 0 <= j < rs.len() && within(x, #[trigger] rs[j])
}

proof fn lemma_cut_props(s: Seq<CharData>, start: int, i: int, b: int)
    requires
        0 <= start <= i <= b <= usize::MAX,
    ensures
        cut(s, start, i, b).len() >= 1,
        forall|t: int|
            0 <= t < cut(s, start, i, b).len() ==> start <= (#[trigger] cut(s, start, i, b)[t]).start
                <= cut(s, start, i, b)[t].end <= b,
        forall|t: int, u: int|
            0 <= t < u < cut(s, start, i, b).len() ==> (#[trigger] cut(s, start, i, b)[t]).end
                <= (#[trigger] cut(s, start, i, b)[u]).start,
    decreases b - i,
{
    let out = cut(s, start, i, b);
    if i >= b {
    } else if s[start] is Blank && !(s[i] is End) {
        lemma_cut_props(s, i, i + 1, b);
    } else if s[start] is Char && s[i] == s[start] {
        lemma_cut_props(s, start, i + 1, b);
    } else {
        let rest = cut(s, i, i + 1, b);
        lemma_cut_props(s, i, i + 1, b);
        assert(out == seq![rg(start, i)] + rest);
        assert forall|t: int| 0 <= t < out.len() implies start <= (#[trigger] out[t]).start <= out[t].end <= b by {
            if t > 0 {
                assert(out[t] == rest[t - 1]);
            }
        }
        assert forall|t: int, u: int| 0 <= t < u < out.len() implies (#[trigger] out[t]).end <= (#[trigger] out[u]).start by {
            assert(out[u] == rest[u - 1]);
            if t > 0 {
                assert(out[t] == rest[t - 1]);
            }
        }
    }
}

/// Over bytes only, cutting is splitting into maximal runs.
proof fn lemma_cut_chars(s: Seq<CharData>, start: int, i: int, b: int)
    requires
        start < i,
        forall|c: int| start <= c < b ==> #[trigger] s[c] is Char,
    ensures
        cut(s, start, i, b) == run_split(s, start, i, b),
    decreases b - i,
{
    if i < b {
        assert(s[start] is Char);
        if s[i] == s[start] {
            lemma_cut_chars(s, start, i + 1, b);
        } else {
            lemma_cut_chars(s, i, i + 1, b);
        }
    }
}

/// Over a stretch of end markers from `c` to `a + e`, each marker is a piece
/// of its own, followed by the runs of the bytes after them.
proof fn lemma_cut_ends(s: Seq<CharData>, a: int, e: int, c: int, b: int)
    requires
        a <= c < a + e <= b,
        forall|x: int| a <= x < a + e ==> #[trigger] s[x] == CharData::End,
        forall|x: int| a + e <= x < b ==> #[trigger] s[x] is Char,
    ensures
        cut(s, c, c + 1, b) == Seq::new((a + e - c) as nat, |u: int| rg(c + u, c + u + 1)) + if a + e < b {
            run_split(s, a + e, a + e + 1, b)
        } else {
            seq![]
        },
    decreases a + e - c,
{
    let ones = Seq::new((a + e - c) as nat, |u: int| rg(c + u, c + u + 1));
    if c + 1 >= b {
        assert(cut(s, c, c + 1, b) =~= ones);
    } else {
        let tail = if a + e < b {
            run_split(s, a + e, a + e + 1, b)
        } else {
            seq![]
        };
        assert(cut(s, c, c + 1, b) == seq![rg(c, c + 1)] + cut(s, c + 1, c + 2, b));
        if c + 1 < a + e {
            lemma_cut_ends(s, a, e, c + 1, b);
            assert(seq![rg(c, c + 1)] + (Seq::new((a + e - c - 1) as nat, |u: int| rg(c + 1 + u, c + 1 + u + 1)) + tail)
                =~= ones + tail);
        } else {
            lemma_cut_chars(s, a + e, a + e + 1, b);
            assert(seq![rg(c, c + 1)] + tail =~= ones + tail);
        }
    }
}

/// On a range that can be split (sorted, without blanks when it has two
/// columns or more), cutting gives the same groups as splitting.
pub(crate) proof fn lemma_split_any(s: Seq<CharData>, r: Range<usize>, n: int)
    requires
        splittable(s, r, n),
    ensures
        split_any(s, r) == split(s, r),
{
    let a = r.start as int;
    let b = r.end as int;
    if b <= a {
        assert(rg(a, b) == r);
    } else if b >= a + 2 {
        lemma_lead_ends_bound(s, a, b);
        lemma_chars_after_ends(s, a, b);
        let e = lead_ends(s, a, b);
        if e == 0 {
            lemma_cut_chars(s, a, a + 1, b);
            assert(ends_part(a, 0) =~= Seq::<Range<usize>>::empty());
            assert(split(s, r) =~= run_split(s, a, a + 1, b));
        } else {
            lemma_cut_ends(s, a, e, a, b);
            let tail = if a + e < b {
                run_split(s, a + e, a + e + 1, b)
            } else {
                seq![]
            };
            assert(cut(s, a, a, b) == seq![rg(a, a)] + cut(s, a, a + 1, b));
            assert(seq![rg(a, a)] + (Seq::new(e as nat, |u: int| rg(a + u, a + u + 1)) + tail) =~= ends_part(a, e) + tail);
        }
    }
}

/// Over ranges that can all be split, the general pieces and table are the
/// groups and table of the sort.
pub(crate) proof fn lemma_children_any(s: Seq<CharData>, rs: Seq<Range<usize>>, n: int)
    requires
        forall|j: int| 0 <= j < rs.len() ==> splittable(s, #[trigger] rs[j], n),
    ensures
        children_any(s, rs) == children_of(s, rs),
        table_any(s, rs) == table_for(s, rs),
    decreases rs.len(),
{
    if rs.len() > 0 {
        lemma_children_any(s, rs.drop_last(), n);
        lemma_split_any(s, rs.last(), n);
    }
    assert forall|r: Range<usize>| rs.contains(r) implies split_any(s, r) == split(s, r) by {
        let j = choose|j: int| 0 <= j < rs.len() && rs[j] == r;
        lemma_split_any(s, rs[j], n);
    }
    assert(table_any(s, rs) =~= table_for(s, rs));
}

/// Ranges in order are cut into pieces in order, each within its range.
proof fn lemma_children_any_order(s: Seq<CharData>, rs: Seq<Range<usize>>)
    requires
        in_order(rs),
        forall|j: int| 0 <= j < rs.len() ==> (#[trigger] rs[j]).end <= usize::MAX,
    ensures
        in_order(children_any(s, rs)),
        forall|t: int| 0 <= t < children_any(s, rs).len() ==> nested_in(#[trigger] children_any(s, rs)[t], rs),
    decreases rs.len(),
{
    if rs.len() > 0 {
        let init = rs.drop_last();
        let r = rs.last();
        let last = rs.len() - 1;
        lemma_children_any_order(s, init);
        let c0 = children_any(s, init);
        let sp = split_any(s, r);
        let ch = children_any(s, rs);
        assert(ch == c0 + sp);
        let a = r.start as int;
        let b = r.end as int;
        if b != a + 1 {
            lemma_cut_props(s, a, a, b);
        }
        assert forall|t: int| 0 <= t < sp.len() implies within(#[trigger] sp[t], r) by {}
        assert forall|t: int| 0 <= t < ch.len() implies nested_in(#[trigger] ch[t], rs) by {
            if t < c0.len() {
                assert(ch[t] == c0[t]);
                let j = choose|j: int| 0 <= j < init.len() && within(c0[t], #[trigger] init[j]);
                assert(rs[j] == init[j]);
            } else {
                assert(ch[t] == sp[t - c0.len()]);
                assert(within(ch[t], rs[last]));
            }
        }
        assert forall|t: int| 0 <= t < ch.len() implies (#[trigger] ch[t]).start <= ch[t].end by {
            if t < c0.len() {
                assert(ch[t] == c0[t]);
            } else {
                assert(ch[t] == sp[t - c0.len()]);
            }
        }
        assert forall|t: int, u: int| 0 <= t < u < ch.len() implies (#[trigger] ch[t]).end <= (#[trigger] ch[u]).start by {
            if u < c0.len() {
                assert(ch[t] == c0[t]);
                assert(ch[u] == c0[u]);
            } else if t >= c0.len() {
                assert(ch[t] == sp[t - c0.len()]);
                assert(ch[u] == sp[u - c0.len()]);
            } else {
                assert(ch[t] == c0[t]);
                assert(ch[u] == sp[u - c0.len()]);
                let j = choose|j: int| 0 <= j < init.len() && within(c0[t], #[trigger] init[j]);
                assert(rs[j] == init[j]);
                assert(rs[j].end <= rs[last].start);
            }
        }
    }
}

impl Matrix {
    /// Splits the ranges of `previous_range` (or, with none, all columns) at
    /// line `line` into groups, records them in the line's table, and
    /// returns them in order.
    fn calculate_same_group_range(
        &mut self,
        line: usize,
        previous_range: Option<Vec<Range<usize>>>,
    ) -> (result: Vec<Range<usize>>)
        requires
            old(self).wf(),
            line < old(self).height(),
            match previous_range {
                None => {
                    &&& line == 0
                    &&& old(self).width() >= 1
                    &&& forall|c: int| 0 <= c < old(self).width() ==> #[trigger] old(self).line(0)[c] is Char
                    &&& old(self).table(0).dom().len() < usize::MAX
                },
                Some(prev) => {
                    &&& forall|j: int|
                        0 <= j < prev@.len() ==> (#[trigger] prev@[j]).start < old(self).width()
                            && prev@[j].end <= old(self).width()
                    &&& old(self).table(line as int).dom().len() + prev@.len() <= usize::MAX
                },
            },
        ensures
            final(self).wf(),
            final(self).width() == old(self).width(),
            final(self).height() == old(self).height(),
            final(self).ids() == old(self).ids(),
            forall|k: int| 0 <= k < old(self).height() ==> #[trigger] final(self).line(k) == old(self).line(k),
            forall|k: int|
                0 <= k <= old(self).height() && k != line ==> #[trigger] final(self).table(k) == old(self).table(k),
            match previous_range {
                None => {
                    &&& result@ == run_split(old(self).line(0), 0, 1, old(self).width() as int)
                    &&& final(self).table(0) == old(self).table(0).insert(
                        rg(0, old(self).width() as int),
                        result@,
                    )
                },
                Some(prev) => {
                    &&& result@ == children_any(old(self).line(line as int), prev@)
                    &&& final(self).table(line as int) == old(self).table(line as int).union_prefer_right(
                        table_any(old(self).line(line as int), prev@),
                    )
                    &&& in_order(prev@) ==> in_order(result@) && forall|t: int|
                        0 <= t < result@.len() ==> nested_in(#[trigger] result@[t], prev@)
                },
            },
    {
        let ghost m0 = *self;
        let ghost s = self.line(line as int);
        let ghost n = self.width() as int;
        let mut result: Vec<Range<usize>> = Vec::new();
        match previous_range {
            Some(previous_range) => {
                let ghost prev = previous_range@;
                let ghost t0 = m0.table(line as int);
                let mut j: usize = 0;
                while j < previous_range.len()
                    invariant
                        self.wf(),
                        m0.wf(),
                        line < self.height(),
                        prev == previous_range@,
                        s == m0.line(line as int),
                        n == m0.width(),
                        self.width() == m0.width(),
                        self.height() == m0.height(),
                        self.ids() == m0.ids(),
                        forall|k: int| 0 <= k < m0.height() ==> #[trigger] self.line(k) == m0.line(k),
                        forall|k: int|
                            0 <= k <= m0.height() && k != line ==> #[trigger] self.table(k) == m0.table(k),
                        forall|j2: int|
                            0 <= j2 < prev.len() ==> (#[trigger] prev[j2]).start < n && prev[j2].end <= n,
                        j <= prev.len(),
                        t0 == m0.table(line as int),
                        t0.dom().len() + prev.len() <= usize::MAX,
                        result@ == children_any(s, prev.take(j as int)),
                        self.table(line as int) == t0.union_prefer_right(table_any(s, prev.take(j as int))),
                        self.table(line as int).dom().len() <= t0.dom().len() + j,
                    decreases prev.len() - j,
                {
                    let range = &previous_range[j];
                    let ghost r = *range;
                    let children = self.split_range(line, range);
                    let ghost kids = children@;
                    if children.len() > 0 {
                        let key = range.start..range.end;
                        assert(key == r);
                        let stored = copy_ranges(&children);
                        let ghost before = *self;
                        self.sorted_ranges[line].insert(key, stored);
                        proof {
                            assert(self.lines == before.lines);
                            assert(self.id_line == before.id_line);
                            assert forall|k: int| 0 <= k < self.sorted_ranges@.len() && k != line implies #[trigger] self.sorted_ranges@[k] == before.sorted_ranges@[k] by {}
                            assert forall|k: int| 0 <= k < self.sorted_ranges@.len() implies #[trigger] self.sorted_ranges@[k].wf() by {}
                            assert forall|k: int| 0 <= k < m0.height() implies #[trigger] self.line(k) == m0.line(k) by {
                                assert(self.line(k) == before.line(k));
                            }
                            assert forall|k: int| 0 <= k <= m0.height() && k != line implies #[trigger] self.table(k) == m0.table(k) by {
                                assert(self.table(k) == before.table(k));
                            }
                        }
                    }
                    let mut children = children;
                    result.append(&mut children);
                    proof {
                        assert(prev.take(j + 1).drop_last() =~= prev.take(j as int));
                        assert(prev.take(j + 1).last() == r);
                        assert(table_any(s, prev.take(j + 1)) =~= if kids.len() > 0 {
                            table_any(s, prev.take(j as int)).insert(r, kids)
                        } else {
                            table_any(s, prev.take(j as int))
                        }) by {
                            assert forall|x: Range<usize>| prev.take(j + 1).contains(x) <==> (prev.take(j as int).contains(x) || x == r) by {
                                if prev.take(j + 1).contains(x) {
                                    let t = choose|t: int| 0 <= t < j + 1 && #[trigger] prev.take(j + 1)[t] == x;
                                    if t < j {
                                        assert(prev.take(j as int)[t] == x);
                                    }
                                }
                                if prev.take(j as int).contains(x) {
                                    let t = choose|t: int| 0 <= t < j && #[trigger] prev.take(j as int)[t] == x;
                                    assert(prev.take(j + 1)[t] == x);
                                }
                                if x == r {
                                    assert(prev.take(j + 1)[j as int] == x);
                                }
                            }
                        }
                    }
                    proof {
                        let tj = table_any(s, prev.take(j as int));
                        if kids.len() > 0 {
                            assert(t0.union_prefer_right(tj.insert(r, kids)) =~= t0.union_prefer_right(tj).insert(r, kids));
                        }
                    }
                    j = j + 1;
                }
                assert(prev.take(prev.len() as int) =~= prev);
                proof {
                    if in_order(prev) {
                        lemma_children_any_order(s, prev);
                    }
                }
            },
            None => {
                let len = self.lines[line].len();
                let mut start: usize = 0;
                let mut current_char = self.lines[line][0];
                let mut i: usize = 0;
                while i < len
                    invariant
                        *self == m0,
                        m0.wf(),
                        line == 0,
                        line < m0.height(),
                        s == m0.line(0),
                        n == m0.width(),
                        len == n,
                        n >= 1,
                        forall|c: int| 0 <= c < n ==> #[trigger] s[c] is Char,
                        start < n,
                        start <= i <= n,
                        i == 0 ==> start == 0,
                        current_char == s[start as int],
                        run_split(s, 0, 1, n) == result@ + run_split(s, start as int, if i == 0 { 1 } else { i as int }, n),
                    decreases len - i,
                {
                    let iter_char = self.lines[line][i];
                    match (current_char, iter_char) {
                        (CharData::Char(_), CharData::Blank) => {
                            result.push(start..i);
                            start = i;
                            current_char = self.lines[line][i];
                        },
                        (CharData::Char(current), CharData::Char(iter_char)) => {
                            if iter_char == current {
                                proof {
                                    if i > 0 {
                                        lemma_run_split_step(s, start as int, i as int, n);
                                    }
                                }
                            } else {
                                proof {
                                    lemma_run_split_step(s, start as int, i as int, n);
                                }
                                result.push(start..i);
                                start = i;
                                current_char = self.lines[line][i];
                            }
                        },
                        _ => {
                            assert(false);
                        },
                    }
                    i = i + 1;
                }
                result.push(start..len);
                let special_key = 0..len;
                let stored = copy_ranges(&result);
                self.sorted_ranges[0].insert(special_key, stored);
            },
        }
        result
    }

    /// The pieces that one range is cut into at line `line`.
    fn split_range(&self, line: usize, range: &Range<usize>) -> (out: Vec<Range<usize>>)
        requires
            self.wf(),
            line < self.height(),
            range.start < self.width(),
            range.end <= self.width(),
        ensures
            out@ == split_any(self.line(line as int), *range),
    {
        let ghost s = self.line(line as int);
        let ghost a = range.start as int;
        let ghost b = range.end as int;
        let end = range.end;
        let mut out: Vec<Range<usize>> = Vec::new();
        if range.end > range.start && range.end - range.start == 1 {
            if let CharData::Char(_) = self.lines[line][range.start] {
                out.push(range.start..range.end);
            }
            return out;
        }
        let mut start = range.start;
        let mut current_char = self.lines[line][range.start];
        let mut i = range.start;
        while i < end
            invariant
                self.wf(),
                line < self.height(),
                s == self.line(line as int),
                a == range.start,
                b == end,
                end == range.end,
                b <= self.width(),
                a <= start <= i,
                i <= b || (i == a && start == a && out@.len() == 0),
                current_char == s[start as int],
                cut(s, a, a, b) == out@ + cut(s, start as int, i as int, b),
            decreases end - i,
        {
            let iter_char = self.lines[line][i];
            let ghost ii = i as int;
            let ghost st = start as int;
            let ghost before = out@;
            match (current_char, iter_char) {
                (CharData::Blank, CharData::Blank) => {
                    start = i;
                },
                (CharData::Blank, CharData::End) => {
                    out.push(start..i);
                    start = i;
                    current_char = self.lines[line][i];
                },
                (CharData::End, CharData::Blank) => {
                    out.push(start..i);
                    start = i;
                    current_char = self.lines[line][i];
                },
                (CharData::End, CharData::End) => {
                    out.push(start..i);
                    start = i;
                    current_char = self.lines[line][i];
                },
                (CharData::End, CharData::Char(_)) => {
                    out.push(start..i);
                    start = i;
                    current_char = self.lines[line][i];
                },
                (CharData::Blank, CharData::Char(_)) => {
                    start = i;
                    current_char = self.lines[line][i];
                },
                (CharData::Char(_), CharData::Blank) => {
                    out.push(start..i);
                    start = i;
                    current_char = self.lines[line][i];
                },
                (CharData::Char(_), CharData::End) => {
                    out.push(start..i);
                    start = i;
                    current_char = self.lines[line][i];
                },
                (CharData::Char(current), CharData::Char(iter_char)) => {
                    if iter_char != current {
                        out.push(start..i);
                        start = i;
                        current_char = self.lines[line][i];
                    }
                },
            }
            proof {
                if out@.len() > before.len() {
                    assert(out@ == before.push(rg(st, ii)));
                    assert(before + (seq![rg(st, ii)] + cut(s, ii, ii + 1, b)) =~= out@ + cut(s, ii, ii + 1, b));
                }
            }
            i = i + 1;
        }
        proof {
            if a > b {
                assert(rg(a, b) == *range);
            }
        }
        out.push(start..end);
        proof {
            assert(out@ =~= cut(s, a, a, b));
        }
        out
    }
}

/// Line `k` of a list of columns.
pub open spec fn line_of(cols: Seq<(i64, Seq<CharData>)>, k: int) -> Seq<CharData> {
    Seq::new(cols.len(), |c: int| cols[c].1[k])
}

/// Heap-sorting the columns by line `k` within each of the ranges `rs`, in turn.
pub open spec fn sort_ranges(cols: Seq<(i64, Seq<CharData>)>, k: int, rs: Seq<Range<usize>>) -> Seq<
    (i64, Seq<CharData>),
>
    decreases rs.len(),
{
    if rs.len() == 0 {
        cols
    } else {
        heap_sort(
            sort_ranges(cols, k, rs.drop_last()),
            k,
            rs.last().start as int,
            rs.last().end - rs.last().start,
        )
    }
}

/// The columns, and the groups of line `i`, once lines `0..=i` are sorted:
/// line 0 is heap-sorted over all `n` columns and split into runs; each
/// later line is heap-sorted within each group of the line before, and its
/// groups are what those groups split into.
pub open spec fn sorted_upto(cols: Seq<(i64, Seq<CharData>)>, n: int, i: nat) -> (
    Seq<(i64, Seq<CharData>)>,
    Seq<Range<usize>>,
)
    decreases i,
{
    if i == 0 {
        let c0 = heap_sort(cols, 0, 0, n);
        (c0, run_split(line_of(c0, 0), 0, 1, n))
    } else {
        let prev = sorted_upto(cols, n, (i - 1) as nat);
        let c = sort_ranges(prev.0, i as int, prev.1);
        (c, children_any(line_of(c, i as int), prev.1))
    }
}

/// A matrix's column list has the matrix's lines.
pub(crate) proof fn lemma_line_of(m: Matrix, k: int)
    requires
        m.wf(),
        0 <= k < m.height(),
    ensures
        line_of(m.columns(), k) == m.line(k),
{
    assert forall|c: int| 0 <= c < m.width() implies #[trigger] line_of(m.columns(), k)[c] == m.line(k)[c] by {
        assert(m.columns()[c] == m.column(c));
    }
    assert(line_of(m.columns(), k) =~= m.line(k));
}

/// Every range of `rs` is sorted in `s`.
pub open spec fn sorted_in(s: Seq<CharData>, rs: Seq<Range<usize>>) -> bool {
    forall|j: int| 0 <= j < rs.len() ==> sorted_on(s, (#[trigger] rs[j]).start as int, rs[j].end as int)
}

proof fn lemma_within_uniform(s: Seq<CharData>, x: Range<usize>, p: Range<usize>)
    requires
        within(x, p),
        uniform_on(s, p.start as int, p.end as int),
    ensures
        uniform_on(s, x.start as int, x.end as int),
{
}

impl Matrix {
    /// The groups of columns at line `k`: the runs of equal bytes of line 0,
    /// then, line after line, the groups each group of the line before
    /// splits into.
    pub open spec fn level(&self, k: nat) -> Seq<Range<usize>>
        decreases k,
    {
        if k == 0 {
            run_split(self.line(0), 0, 1, self.width() as int)
        } else {
            children_of(self.line(k as int), self.level((k - 1) as nat))
        }
    }

    /// The arrangement `sort_in_place` produces: line 0 is sorted, every
    /// later line is sorted within each group of the line before, and each
    /// line's table maps the groups of the line before to the groups they
    /// split into (line 0's maps all columns to its groups; the last table
    /// stays empty).
    pub open spec fn grouped(&self) -> bool {
        let n = self.width() as int;
        &&& n >= 1
        &&& self.height() >= 1
        &&& sorted_on(self.line(0), 0, n)
        &&& forall|k: int|
            1 <= k < self.height() ==> sorted_in(#[trigger] self.line(k), self.level((k - 1) as nat))
        &&& self.table(0) == map![rg(0, n) => self.level(0)]
        &&& forall|k: int|
            1 <= k < self.height() ==> #[trigger] self.table(k) == table_for(
                self.line(k),
                self.level((k - 1) as nat),
            )
        &&& self.table(self.height() as int) == Map::<Range<usize>, Seq<Range<usize>>>::empty()
    }

    pub(crate) proof fn lemma_level_same(m1: Matrix, m2: Matrix, k: nat)
        requires
            m1.width() == m2.width(),
            forall|j: int| 0 <= j <= k ==> #[trigger] m1.line(j) == m2.line(j),
        ensures
            m1.level(k) == m2.level(k),
        decreases k,
    {
        if k > 0 {
            Self::lemma_level_same(m1, m2, (k - 1) as nat);
            assert(m1.line(k as int) == m2.line(k as int));
        } else {
            assert(m1.line(0) == m2.line(0));
        }
    }

    pub(crate) proof fn lemma_shape_facts(m: Matrix, c: int)
        requires
            m.wf(),
            m.well_shaped(),
            0 <= c < m.width(),
        ensures
            m.height() >= 2,
            m.line(0)[c] is Char,
            forall|k: int|
                1 <= k < m.height() && (#[trigger] m.line(k))[c] is Blank ==> !(m.line(k - 1)[c] is Char),
    {
        let col = m.column(c).1;
        assert(laid_out(col, m.height() as int));
        let t = choose|t: Seq<u8>| #[trigger] lays_out(col, t, m.height() as int);
        assert(col[0] == key_of(t, 0));
        assert(col[0] == m.line(0)[c]);
        assert forall|k: int|
            1 <= k < m.height() && (#[trigger] m.line(k))[c] is Blank implies !(m.line(k - 1)[c] is Char) by {
            assert(col[k] == key_of(t, k));
            assert(col[k - 1] == key_of(t, k - 1));
            assert(col[k] == m.line(k)[c]);
            assert(col[k - 1] == m.line(k - 1)[c]);
        }
    }

    proof fn lemma_shape_preserved(old: Matrix, new: Matrix, a: int, b: int)
        requires
            old.well_shaped(),
            rearranged(old, new, a, b),
            0 <= a <= b <= old.width(),
        ensures
            new.well_shaped(),
    {
        assert forall|c: int| 0 <= c < new.width() implies laid_out(#[trigger] new.column(c).1, new.height() as int) by {
            if a <= c < b {
                let y = Self::lemma_rearranged_source(old, new, a, b, c);
                assert(old.column(y) == new.column(c));
                assert(laid_out(old.column(y).1, old.height() as int));
            } else {
                assert(new.column(c) == old.column(c));
                assert(laid_out(old.column(c).1, old.height() as int));
            }
        }
    }

    proof fn lemma_same_columns(m1: Matrix, m2: Matrix)
        requires
            m1.width() == m2.width(),
            m1.height() == m2.height(),
            m1.ids() == m2.ids(),
            forall|k: int| 0 <= k < m1.height() ==> #[trigger] m1.line(k) == m2.line(k),
        ensures
            m1.columns() == m2.columns(),
            m1.well_shaped() == m2.well_shaped(),
    {
        assert forall|c: int| #![trigger m1.column(c)] #![trigger m2.column(c)] 0 <= c < m1.width() implies m1.column(c) == m2.column(c) by {
            assert forall|k: int| 0 <= k < m1.height() implies #[trigger] m1.line(k)[c] == m2.line(k)[c] by {
                assert(m1.line(k) == m2.line(k));
            }
            Self::lemma_column_ext(m1, m2, c, c);
        }
        assert(m1.columns() =~= m2.columns());
    }

    proof fn lemma_multiset_whole(old: Matrix, new: Matrix, a: int, b: int)
        requires
            rearranged(old, new, a, b),
            0 <= a <= b <= old.width(),
        ensures
            new.columns().to_multiset() == old.columns().to_multiset(),
    {
        Self::lemma_rearranged_widen(old, new, a, b, 0, old.width() as int);
        assert(new.columns().subrange(0, old.width() as int) =~= new.columns());
        assert(old.columns().subrange(0, old.width() as int) =~= old.columns());
    }

    /// Empties every group table, keeping the columns.
    fn clear_tables(&mut self)
        requires
            old(self).wf(),
        ensures
            final(self).wf(),
            final(self).tables_empty(),
            final(self).width() == old(self).width(),
            final(self).height() == old(self).height(),
            final(self).ids() == old(self).ids(),
            forall|k: int| 0 <= k < old(self).height() ==> #[trigger] final(self).line(k) == old(self).line(k),
    {
        let ghost m0 = *self;
        let total = self.sorted_ranges.len();
        let mut t: usize = 0;
        while t < total
            invariant
                self.wf(),
                self.id_line == m0.id_line,
                self.lines == m0.lines,
                total == self.sorted_ranges@.len(),
                t <= total,
                forall|k: int| 0 <= k < t ==> #[trigger] self.table(k) == Map::<
                    Range<usize>,
                    Seq<Range<usize>>,
                >::empty(),
            decreases total - t,
        {
            let ghost before = self.sorted_ranges@;
            let ghost prev = *self;
            let fresh = RangeTable::new();
            self.sorted_ranges.set(t, fresh);
            assert(self.sorted_ranges@ == before.update(t as int, fresh));
            assert(self.table(t as int) == fresh@);
            assert forall|k: int| 0 <= k < t implies #[trigger] self.table(k) == Map::<
                Range<usize>,
                Seq<Range<usize>>,
            >::empty() by {
                assert(self.sorted_ranges@[k] == before[k]);
                assert(prev.table(k) == Map::<Range<usize>, Seq<Range<usize>>>::empty());
            }
            t = t + 1;
        }
    }

    fn sort_first_line(&mut self)
        requires
            old(self).wf(),
            old(self).height() >= 1,
        ensures
            final(self).wf(),
            rearranged(*old(self), *final(self), 0, old(self).width() as int),
            sorted_on(final(self).line(0), 0, old(self).width() as int),
            final(self).columns() == heap_sort(old(self).columns(), 0, 0, old(self).width() as int),
    {
        let len = self.lines[0].len();
        self.sort_line(0, 0..len)
    }

    /// Sorts the columns line by line: first by line 0, then, for each
    /// following line, within each group of columns that agree on all lines
    /// before it; records the groups of each line in its table (replacing
    /// whatever an earlier sort recorded). Each sort is a heap sort, so the
    /// order of columns holding equal strings is fixed too (`sorted_upto`).
    pub fn sort_in_place(&mut self)
        requires
            old(self).wf(),
            old(self).well_shaped(),
        ensures
            final(self).wf(),
            final(self).well_shaped(),
            final(self).width() == old(self).width(),
            final(self).height() == old(self).height(),
            final(self).columns().to_multiset() == old(self).columns().to_multiset(),
            final(self).grouped(),
            forall|c1: int, c2: int|
                0 <= c1 <= c2 < final(self).width() ==> lex_le(
                    #[trigger] final(self).column(c1).1,
                    #[trigger] final(self).column(c2).1,
                ),
            seven_bit_matrix(*old(self)) ==> seven_bit_matrix(*final(self)),
            final(self).columns() == sorted_upto(
                old(self).columns(),
                old(self).width() as int,
                (old(self).height() - 1) as nat,
            ).0,
    {
        let ghost m_start = *self;
        self.clear_tables();
        let ghost m_orig = *self;
        proof {
            Self::lemma_same_columns(m_start, m_orig);
        }
        let ghost n = self.width() as int;
        proof {
            Self::lemma_shape_facts(m_orig, 0);
        }
        self.sort_first_line();
        proof {
            Self::lemma_shape_preserved(m_orig, *self, 0, n);
            Self::lemma_multiset_whole(m_orig, *self, 0, n);
            assert forall|c: int| 0 <= c < n implies #[trigger] self.line(0)[c] is Char by {
                Self::lemma_shape_facts(*self, c);
            }
            assert(self.table(0) == m_orig.table(0));
        }
        let ghost m1 = *self;
        proof {
            assert(m1.table(0) == Map::<Range<usize>, Seq<Range<usize>>>::empty());
        }
        let ranges = self.calculate_same_group_range(0, None);
        let ghost s0 = self.line(0);
        proof {
            Self::lemma_same_columns(*self, m1);
            lemma_line_of(*self, 0);
            assert(sorted_upto(m_orig.columns(), n, 0) == (self.columns(), ranges@));
            assert(self.table(0) =~= map![rg(0, n) => ranges@]);
            Self::lemma_same_columns(*self, m1);
            lemma_run_split_props(s0, 0, 1, n);
            let rs = ranges@;
            assert(rs == self.level(0));
            assert forall|i: int, j: int| 0 <= i < j < rs.len() implies (#[trigger] rs[i]).end <= (#[trigger] rs[j]).start by {
                lemma_consecutive_ordered(rs, i, j);
            }
            assert(ranges_ok(rs, n));
            assert forall|i: int| 0 <= i < rs.len() implies uniform_on(s0, (#[trigger] rs[i]).start as int, rs[i].end as int) by {
                assert(uniform_on(s0, rs[i].start as int, rs[i].end as int));
            }
            assert(chars_on(s0, rs));
        }
        let mut ranges = ranges;
        let total = self.lines.len();
        let mut i: usize = 1;
        while i < total
            invariant
                self.wf(),
                self.well_shaped(),
                self.width() == n,
                self.height() == total,
                total == m_orig.height(),
                n == m_orig.width(),
                n >= 1,
                total >= 2,
                self.columns().to_multiset() == m_orig.columns().to_multiset(),
                1 <= i <= total,
                sorted_upto(m_orig.columns(), n, (i - 1) as nat) == (self.columns(), ranges@),
                ranges@ == self.level((i - 1) as nat),
                ranges_ok(ranges@, n),
                chars_on(self.line(i - 1), ranges@),
                forall|k: int| 0 <= k < i ==> uniform_all(#[trigger] self.line(k), ranges@),
                sorted_on(self.line(0), 0, n),
                forall|k: int| 1 <= k < i ==> sorted_in(#[trigger] self.line(k), self.level((k - 1) as nat)),
                self.table(0) == map![rg(0, n) => self.level(0)],
                forall|k: int|
                    1 <= k < i ==> #[trigger] self.table(k) == table_for(self.line(k), self.level((k - 1) as nat)),
                forall|k: int| i <= k <= total ==> #[trigger] self.table(k) == Map::<Range<usize>, Seq<Range<usize>>>::empty(),
            decreases total - i,
        {
            let ghost mp = *self;
            let mut j: usize = 0;
            while j < ranges.len()
                invariant
                    self.wf(),
                    self.well_shaped(),
                    mp.wf(),
                    self.width() == n,
                    self.height() == total,
                    mp.width() == n,
                    mp.height() == total,
                    1 <= i < total,
                    self.columns().to_multiset() == m_orig.columns().to_multiset(),
                    forall|k: int| 0 <= k < i ==> #[trigger] self.line(k) == mp.line(k),
                    forall|k: int| 0 <= k <= total ==> #[trigger] self.table(k) == mp.table(k),
                    ranges_ok(ranges@, n),
                    forall|k: int| 0 <= k < i ==> uniform_all(#[trigger] mp.line(k), ranges@),
                    j <= ranges@.len(),
                    self.columns() == sort_ranges(mp.columns(), i as int, ranges@.take(j as int)),
                    forall|j2: int| 0 <= j2 < j ==> sorted_on(self.line(i as int), (#[trigger] ranges@[j2]).start as int, ranges@[j2].end as int),
                decreases ranges@.len() - j,
            {
                let r = ranges[j].start..ranges[j].end;
                let ghost before = *self;
                let ghost rj = ranges@[j as int];
                self.sort_line(i, r);
                proof {
                    assert(ranges@.take(j + 1).drop_last() =~= ranges@.take(j as int));
                    assert(ranges@.take(j + 1).last() == rj);
                    let a = rj.start as int;
                    let b = rj.end as int;
                    Self::lemma_shape_preserved(before, *self, a, b);
                    Self::lemma_multiset_whole(before, *self, a, b);
                    assert forall|k: int| 0 <= k < i implies #[trigger] self.line(k) == mp.line(k) by {
                        assert(uniform_all(mp.line(k), ranges@));
                        assert(uniform_on(mp.line(k), a, b));
                        assert(before.line(k) == mp.line(k));
                    }
                    assert forall|k: int| 0 <= k <= total implies #[trigger] self.table(k) == mp.table(k) by {
                        assert(before.table(k) == mp.table(k));
                    }
                    assert forall|j2: int| 0 <= j2 < j + 1 implies sorted_on(self.line(i as int), (#[trigger] ranges@[j2]).start as int, ranges@[j2].end as int) by {
                        if j2 < j {
                            let r2 = ranges@[j2];
                            assert(r2.end <= rj.start);
                            assert(sorted_on(before.line(i as int), r2.start as int, r2.end as int));
                            assert forall|x: int, y: int| r2.start <= x <= y < r2.end implies (#[trigger] self.line(i as int)[x]).rank() <= (#[trigger] self.line(i as int)[y]).rank() by {
                                Self::lemma_rearranged_outside(before, *self, a, b, x);
                                Self::lemma_rearranged_outside(before, *self, a, b, y);
                            }
                        }
                    }
                }
                j = j + 1;
            }
            proof {
                assert forall|jj: int| 0 <= jj < ranges@.len() implies splittable(self.line(i as int), #[trigger] ranges@[jj], n) by {
                    let r = ranges@[jj];
                    if r.end - r.start >= 2 {
                        assert forall|c: int| r.start <= c < r.end implies !(#[trigger] self.line(i as int)[c] is Blank) by {
                            assert(self.line(i - 1) == mp.line(i - 1));
                            assert(mp.line(i - 1)[c] is Char);
                            Self::lemma_shape_facts(*self, c);
                        }
                    }
                }
                assert(self.table(i as int) == mp.table(i as int));
                assert(self.table(i as int).dom().len() == 0);
            }
            let ghost ms = *self;
            let ghost parents = ranges@;
            ranges = self.calculate_same_group_range(i, Some(ranges));
            proof {
                Self::lemma_same_columns(*self, ms);
                let si = self.line(i as int);
                assert(parents.take(parents.len() as int) =~= parents);
                lemma_line_of(*self, i as int);
                assert(sorted_upto(m_orig.columns(), n, i as nat) == (self.columns(), ranges@));
                lemma_children_any(si, parents, n);
                assert(ms.table(i as int).union_prefer_right(table_any(si, parents)) =~= table_for(si, parents));
                assert(self.line(i as int) == ms.line(i as int));
                Self::lemma_level_same(*self, mp, (i - 1) as nat);
                assert(parents == self.level((i - 1) as nat));
                assert(ranges@ == self.level(i as nat));
                lemma_children_props(si, parents, n);
                assert forall|k: int| 0 <= k < i + 1 implies uniform_all(#[trigger] self.line(k), ranges@) by {
                    if k < i {
                        assert(self.line(k) == mp.line(k));
                        assert forall|t: int| 0 <= t < ranges@.len() implies uniform_on(self.line(k), (#[trigger] ranges@[t]).start as int, ranges@[t].end as int) by {
                            let q = choose|q: int| 0 <= q < parents.len() && within(#[trigger] ranges@[t], parents[q]);
                            lemma_within_uniform(self.line(k), ranges@[t], parents[q]);
                        }
                    }
                }
                assert forall|k: int| 1 <= k < i + 1 implies sorted_in(#[trigger] self.line(k), self.level((k - 1) as nat)) by {
                    Self::lemma_level_same(*self, mp, (k - 1) as nat);
                    if k < i {
                        assert(self.line(k) == mp.line(k));
                    } else {
                        assert(self.line(k) == ms.line(k));
                    }
                }
                assert forall|k: int| 1 <= k < i + 1 implies #[trigger] self.table(k) == table_for(self.line(k), self.level((k - 1) as nat)) by {
                    Self::lemma_level_same(*self, mp, (k - 1) as nat);
                    if k < i {
                        assert(self.line(k) == mp.line(k));
                        assert(self.table(k) == ms.table(k));
                    }
                }
                Self::lemma_level_same(*self, mp, 0);
                assert(self.line(0) == mp.line(0));
                assert(self.table(0) == ms.table(0));
                assert forall|k: int| i + 1 <= k <= total implies #[trigger] self.table(k) == Map::<Range<usize>, Seq<Range<usize>>>::empty() by {
                    assert(self.table(k) == ms.table(k));
                }
            }
            i = i + 1;
        }
        proof {
            assert forall|c1: int, c2: int| 0 <= c1 <= c2 < self.width() implies lex_le(
                #[trigger] self.column(c1).1,
                #[trigger] self.column(c2).1,
            ) by {
                lemma_grouped_in_order(*self, c1, c2);
            }
            if seven_bit_matrix(m_start) {
                assert forall|k: int, c: int| 0 <= k < m_orig.height() && 0 <= c < m_orig.width() implies seven_bit_value(
                    #[trigger] m_orig.line(k)[c],
                ) by {
                    assert(m_orig.line(k) == m_start.line(k));
                }
                lemma_seven_bit_kept(m_orig, *self);
            }
        }
    }
}

/// A fresh vector holding the same ranges.
fn copy_ranges(v: &Vec<Range<usize>>) -> (out: Vec<Range<usize>>)
    ensures
        out@ == v@,
{
    let mut out: Vec<Range<usize>> = Vec::new();
    let mut i: usize = 0;
    while i < v.len()
        invariant
            i <= v@.len(),
            out@ == v@.take(i as int),
        decreases v@.len() - i,
    {
        out.push(v[i].start..v[i].end);
        assert(v@.take(i + 1) =~= v@.take(i as int).push(v@[i as int]));
        i = i + 1;
    }
    assert(v@.take(v@.len() as int) =~= v@);
    out
}

} // verus!
