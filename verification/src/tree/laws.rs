//! What the whole pipeline promises: a matrix laid out from a batch of
//! strings, sorted, and turned into a trie answers a lookup with the id of
//! a string of the batch, the longest one that ends the query (or the one
//! equal to it).

use super::groups::{lemma_line_of, rg, sorted_in, sorted_upto, split};
use super::matcher::{child_of, deepest_id, exact_lookup, suffix_lookup, walk};
use super::trie::{
    breadth_first, byte_of, held_twice, last_holder, child_with_byte, children_before, continues, expands_to, frontier_ok, holds, lemma_expand, represents,
    seven_bit_matrix, seven_bit_value, spells,
};
use super::{
    CharData, Matrix, Node, height_for, key_of, laid_out, lays_out, lemma_height_for_bound, lex_le,
    sorted_on, text_bytes,
};
use std::ops::Range;
use crate::bitset::{
    bit, lemma_bits_ext, lemma_ones_below_bounds, lemma_ones_below_monotone, lemma_rank_fits, ones_below, popcount,
};
use vstd::relations::total_ordering;
use vstd::prelude::*;

verus! {

broadcast use vstd::seq_lib::to_multiset_contains;

/// `t` is a suffix of `q`.
pub open spec fn is_suffix(t: Seq<u8>, q: Seq<u8>) -> bool {
    t.len() <= q.len() && q.subrange(q.len() - t.len(), q.len() as int) == t
}

/// Entry `j` of `data` exists and its string is a suffix of `q`.
pub open spec fn ends_query(data: Seq<(i64, String)>, j: int, q: Seq<u8>) -> bool {
    0 <= j < data.len() && is_suffix(text_bytes(data[j].1), q)
}

/// Entry `j` of `data` exists and its string is `q`.
pub open spec fn equals_query(data: Seq<(i64, String)>, j: int, q: Seq<u8>) -> bool {
    0 <= j < data.len() && text_bytes(data[j].1) == q
}

/// Some column of `m` holds exactly `x`.
pub open spec fn held(m: Matrix, x: Seq<u8>) -> bool {
    exists|c: int| #[trigger] holds(m, c, x)
}

/// Some column of `m` with id `v` holds exactly `x`.
pub open spec fn held_by(m: Matrix, x: Seq<u8>, v: i64) -> bool {
    exists|c: int| #[trigger] holds(m, c, x) && m.ids()[c] == v
}

/// What a column (its values line by line, over `h` lines) must be to
/// hold exactly `x`.
pub open spec fn col_holds(col: Seq<CharData>, h: int, x: Seq<u8>) -> bool {
    &&& x.len() < h
    &&& forall|k: int| 0 <= k < x.len() ==> #[trigger] col[k] == CharData::Char(x[k])
    &&& col[x.len() as int] == CharData::End
}

/// Facts shared by the laws: `m0` lays out `data` (all strings nonempty),
/// and `m` has the same columns as `m0`, in some order.
pub open spec fn same_batch(data: Seq<(i64, String)>, m0: Matrix, m: Matrix) -> bool {
    &&& m0.stores(data)
    &&& forall|j: int| 0 <= j < data.len() ==> text_bytes(#[trigger] data[j].1).len() >= 1
    &&& m.width() == m0.width()
    &&& m.height() == m0.height()
    &&& m.columns().to_multiset() == m0.columns().to_multiset()
}

proof fn lemma_holds_col(m: Matrix, c: int, x: Seq<u8>)
    requires
        0 <= c < m.width(),
    ensures
        holds(m, c, x) == col_holds(m.column(c).1, m.height() as int, x),
{
    let col = m.column(c).1;
    assert forall|k: int| 0 <= k < m.height() implies #[trigger] col[k] == m.line(k)[c] by {}
    if holds(m, c, x) {
        assert forall|k: int| 0 <= k < x.len() implies #[trigger] col[k] == CharData::Char(x[k]) by {
            assert(m.line(k)[c] == CharData::Char(x[k]));
        }
    }
    if col_holds(col, m.height() as int, x) {
        assert forall|k: int| 0 <= k < x.len() implies #[trigger] m.line(k)[c] == CharData::Char(x[k]) by {
            assert(col[k] == CharData::Char(x[k]));
        }
    }
}

/// In a matrix laid out from `data`, column `j` holds exactly `x` when its
/// string is `x` read backwards.
proof fn lemma_stored_holds(data: Seq<(i64, String)>, m0: Matrix, j: int, x: Seq<u8>)
    requires
        m0.stores(data),
        0 <= j < data.len(),
    ensures
        holds(m0, j, x) <==> text_bytes(data[j].1) == x.reverse(),
{
    let t = text_bytes(data[j].1);
    let h = m0.height() as int;
    lemma_height_for_bound(data, j, data.len() as int);
    lemma_holds_col(m0, j, x);
    let col = m0.column(j).1;
    assert forall|k: int| 0 <= k < h implies #[trigger] col[k] == key_of(t, k) by {
        assert(m0.line(k)[j] == key_of(t, k));
    }
    if holds(m0, j, x) {
        assert(col[x.len() as int] == CharData::End);
        assert(key_of(t, x.len() as int) == CharData::End);
        assert(t.len() == x.len());
        assert forall|i: int| 0 <= i < t.len() implies #[trigger] t[i] == x.reverse()[i] by {
            let k = t.len() - 1 - i;
            assert(col[k] == CharData::Char(x[k]));
            assert(key_of(t, k) == CharData::Char(t[i]));
        }
        assert(t =~= x.reverse());
    }
    if t == x.reverse() {
        assert forall|k: int| 0 <= k < x.len() implies #[trigger] col[k] == CharData::Char(x[k]) by {
            assert(key_of(t, k) == CharData::Char(t[t.len() - 1 - k]));
        }
        assert(col_holds(col, h, x));
    }
}

/// Moving between two matrices with the same columns: a column of `m`
/// equals some column of `m0`, and the other way round.
pub(crate) proof fn lemma_column_in(m: Matrix, m0: Matrix, c: int) -> (j: int)
    requires
        m.columns().to_multiset() == m0.columns().to_multiset(),
        0 <= c < m.width(),
    ensures
        0 <= j < m0.width(),
        m0.column(j) == m.column(c),
{
    assert(m.columns()[c] == m.column(c));
    assert(m.columns().contains(m.column(c)));
    assert(m.columns().to_multiset().count(m.column(c)) > 0);
    assert(m0.columns().contains(m.column(c)));
    let j = choose|j: int| 0 <= j < m0.columns().len() && m0.columns()[j] == m.column(c);
    assert(m0.columns()[j] == m0.column(j));
    j
}

/// Some column of `m` holds `x` exactly when some string of the batch is
/// `x` read backwards; a column of `m` that holds `x` carries the id of
/// such a string.
proof fn lemma_held_iff(data: Seq<(i64, String)>, m0: Matrix, m: Matrix, x: Seq<u8>)
    requires
        same_batch(data, m0, m),
    ensures
        held(m, x) <==> exists|j: int| equals_query(data, j, x.reverse()),
        forall|v: i64|
            held_by(m, x, v) ==> exists|j: int| #[trigger] equals_query(data, j, x.reverse()) && data[j].0 == v,
{
    if held(m, x) {
        let c = choose|c: int| #[trigger] holds(m, c, x);
        let j = lemma_column_in(m, m0, c);
        lemma_holds_col(m, c, x);
        lemma_holds_col(m0, j, x);
        lemma_stored_holds(data, m0, j, x);
        assert(equals_query(data, j, x.reverse()));
    }
    if exists|j: int| equals_query(data, j, x.reverse()) {
        let j = choose|j: int| equals_query(data, j, x.reverse());
        lemma_stored_holds(data, m0, j, x);
        let c = lemma_column_in(m0, m, j);
        lemma_holds_col(m, c, x);
        lemma_holds_col(m0, j, x);
        assert(holds(m, c, x));
    }
    assert forall|v: i64| held_by(m, x, v) implies exists|j: int| #[trigger] equals_query(data, j, x.reverse())
        && data[j].0 == v by {
        let c = choose|c: int| #[trigger] holds(m, c, x) && m.ids()[c] == v;
        let j = lemma_column_in(m, m0, c);
        lemma_holds_col(m, c, x);
        lemma_holds_col(m0, j, x);
        lemma_stored_holds(data, m0, j, x);
        assert(m.ids()[c] == m.column(c).0);
        assert(m0.ids()[j] == m0.column(j).0);
        assert(equals_query(data, j, x.reverse()) && data[j].0 == v);
    }
}

/// Exact lookup: after laying out a batch of nonempty strings, sorting the
/// matrix and building its trie, an exact lookup of `q` finds an id exactly
/// when some string of the batch equals `q`, and the id it finds is that
/// of such a string.
pub proof fn law_exact_lookup(
    data: Seq<(i64, String)>,
    m0: Matrix,
    m: Matrix,
    nodes: Seq<Node>,
    q: Seq<u8>,
)
    requires
        same_batch(data, m0, m),
        represents(nodes, m),
    ensures
        exact_lookup(nodes, q) is Some <==> exists|j: int| equals_query(data, j, q),
        exact_lookup(nodes, q) matches Some(v) ==> exists|j: int| #[trigger] equals_query(data, j, q) && data[j].0 == v,
{
    let p = q.reverse();
    assert(p.reverse() =~= q);
    lemma_held_iff(data, m0, m, p);
    match walk(nodes, p) {
        Some(x) => {
            if let Some(v) = nodes[x].id() {
                assert(held(m, p));
                assert(held_by(m, p, v));
            }
        },
        None => {
            if held(m, p) {
                let c = choose|c: int| #[trigger] holds(m, c, p);
                assert(spells(m, c, p));
            }
        },
    }
}

/// Walking `p` down a trie of `m`: among the first `1..=k` bytes of `p`,
/// the deepest id found is that of a column holding the longest prefix
/// that some column holds.
proof fn lemma_deepest(nodes: Seq<Node>, m: Matrix, p: Seq<u8>, k: int)
    requires
        represents(nodes, m),
        0 <= k <= p.len(),
    ensures
        deepest_id(nodes, p, k) is Some <==> exists|i: int| 1 <= i <= k && #[trigger] held(m, p.take(i)),
        deepest_id(nodes, p, k) matches Some(v) ==> exists|i: int|
            1 <= i <= k && #[trigger] held_by(m, p.take(i), v) && forall|i2: int|
                i < i2 <= k ==> !#[trigger] held(m, p.take(i2)),
    decreases k,
{
    if k > 0 {
        lemma_deepest(nodes, m, p, k - 1);
        let x = p.take(k);
        match walk(nodes, x) {
            Some(y) => {
                if let Some(v) = nodes[y].id() {
                    assert(held(m, x));
                    assert(held_by(m, x, v));
                    assert(forall|i2: int| k < i2 <= k ==> !#[trigger] held(m, p.take(i2)));
                } else {
                    assert(!held(m, x));
                }
            },
            None => {
                if held(m, x) {
                    let c = choose|c: int| #[trigger] holds(m, c, x);
                    assert(spells(m, c, x));
                }
            },
        }
    }
}

/// Longest suffix: after laying out a batch of nonempty strings, sorting
/// the matrix and building its trie, a suffix lookup of `q` finds an id
/// exactly when some string of the batch is a suffix of `q`, and the id it
/// finds is that of such a string, one no shorter than any other string of
/// the batch that is a suffix of `q`.
pub proof fn law_longest_suffix(
    data: Seq<(i64, String)>,
    m0: Matrix,
    m: Matrix,
    nodes: Seq<Node>,
    q: Seq<u8>,
)
    requires
        same_batch(data, m0, m),
        represents(nodes, m),
    ensures
        suffix_lookup(nodes, q) is Some <==> exists|j: int| ends_query(data, j, q),
        suffix_lookup(nodes, q) matches Some(v) ==> exists|j: int|
            #[trigger] ends_query(data, j, q) && data[j].0 == v && forall|i: int|
                #[trigger] ends_query(data, i, q) ==> text_bytes(data[i].1).len() <= text_bytes(
                    data[j].1,
                ).len(),
{
    let p = q.reverse();
    let n = q.len() as int;
    lemma_deepest(nodes, m, p, n);
    // The prefix of `p` of length `i` is the suffix of `q` of length `i`, read backwards.
    assert forall|i: int| 0 <= i <= n implies #[trigger] p.take(i).reverse() == q.subrange(n - i, n) by {
        assert(p.take(i).reverse() =~= q.subrange(n - i, n));
    }
    assert forall|i: int| 1 <= i <= n implies (#[trigger] held(m, p.take(i)) <==> exists|j: int|
        ends_query(data, j, q) && text_bytes(data[j].1).len() == i) by {
        lemma_held_iff(data, m0, m, p.take(i));
        assert(p.take(i).reverse() == q.subrange(n - i, n));
        if held(m, p.take(i)) {
            let j = choose|j: int| equals_query(data, j, p.take(i).reverse());
            assert(ends_query(data, j, q));
        }
        if exists|j: int| ends_query(data, j, q) && text_bytes(data[j].1).len() == i {
            let j = choose|j: int| ends_query(data, j, q) && text_bytes(data[j].1).len() == i;
            assert(equals_query(data, j, p.take(i).reverse()));
        }
    }
    if exists|j: int| ends_query(data, j, q) {
        let j = choose|j: int| ends_query(data, j, q);
        let i = text_bytes(data[j].1).len() as int;
        assert(1 <= i <= n);
        assert(held(m, p.take(i)));
    }
    if let Some(v) = suffix_lookup(nodes, q) {
        let i = choose|i: int|
            1 <= i <= n && #[trigger] held_by(m, p.take(i), v) && forall|i2: int|
                i < i2 <= n ==> !#[trigger] held(m, p.take(i2));
        lemma_held_iff(data, m0, m, p.take(i));
        let j = choose|j: int| #[trigger] equals_query(data, j, p.take(i).reverse()) && data[j].0 == v;
        assert(ends_query(data, j, q));
        assert forall|i1: int| #[trigger] ends_query(data, i1, q) implies text_bytes(data[i1].1).len()
            <= text_bytes(data[j].1).len() by {
            let l = text_bytes(data[i1].1).len() as int;
            if l > i {
                assert(held(m, p.take(l)));
            }
        }
    }
}

/// The bytes column `c` holds on its first `d` lines.
pub open spec fn prefix_bytes(m: Matrix, c: int, d: int) -> Seq<u8> {
    Seq::new(d as nat, |i: int| byte_of(m.line(i)[c]))
}

/// In a grouped matrix, the columns that agree with column `c` on its first
/// `d` lines, all bytes, form one group.
proof fn lemma_frontier_of(m: Matrix, c: int, d: int) -> (g: Range<usize>)
    requires
        m.wf(),
        m.well_shaped(),
        m.grouped(),
        0 <= c < m.width(),
        0 <= d < m.height(),
        forall|i: int| 0 <= i < d ==> #[trigger] m.line(i)[c] is Char,
    ensures
        frontier_ok(m, g, prefix_bytes(m, c, d), d),
    decreases d,
{
    reveal(frontier_ok);
    let n = m.width() as int;
    if d == 0 {
        let g = rg(0, n);
        assert(prefix_bytes(m, c, 0) =~= Seq::<u8>::empty());
        assert forall|c2: int| 0 <= c2 < n implies (g.start <= c2 < g.end <==> #[trigger] spells(
            m,
            c2,
            prefix_bytes(m, c, 0),
        )) by {}
        g
    } else {
        let g0 = lemma_frontier_of(m, c, d - 1);
        let p0 = prefix_bytes(m, c, d - 1);
        let b = byte_of(m.line(d - 1)[c]);
        let p = prefix_bytes(m, c, d);
        assert(p =~= p0.push(b));
        lemma_expand(m, g0, p0, d - 1);
        reveal(expands_to);
        let s = m.line(d - 1);
        let ch = split(s, g0);
        assert forall|k: int| 0 <= k < p.len() implies #[trigger] m.line(k)[c] == CharData::Char(p[k]) by {
            assert(m.line(k)[c] is Char);
        }
        assert(spells(m, c, p0.push(b)));
        assert(continues(m, p0, b));
        assert(child_with_byte(s, ch, b));
        let t = choose|t: int| 0 <= t < ch.len() && s[(#[trigger] ch[t]).start as int] == CharData::Char(b);
        assert(byte_of(s[ch[t].start as int]) == b);
        ch[t]
    }
}

/// In a grouped matrix, the columns are in order: each comes no later
/// than any column to its right.
pub(crate) proof fn lemma_grouped_in_order(m: Matrix, c1: int, c2: int)
    requires
        m.wf(),
        m.well_shaped(),
        m.grouped(),
        0 <= c1 <= c2 < m.width(),
    ensures
        lex_le(m.column(c1).1, m.column(c2).1),
{
    let a = m.column(c1).1;
    let b = m.column(c2).1;
    let h = m.height() as int;
    assert(forall|k: int| 0 <= k < h ==> #[trigger] a[k] == m.line(k)[c1]);
    assert(forall|k: int| 0 <= k < h ==> #[trigger] b[k] == m.line(k)[c2]);
    assert(laid_out(a, h));
    let t1 = choose|t: Seq<u8>| #[trigger] lays_out(a, t, h);
    assert(laid_out(b, h));
    let t2 = choose|t: Seq<u8>| #[trigger] lays_out(b, t, h);
    assert forall|k: int|
        #![trigger a[k], b[k]]
        0 <= k < a.len() && k < b.len() && a.take(k) == b.take(k) implies a[k].rank() <= b[k].rank() by {
        assert(forall|i: int| 0 <= i < k ==> a[i] == #[trigger] a.take(k)[i]);
        assert(forall|i: int| 0 <= i < k ==> b[i] == #[trigger] b.take(k)[i]);
        if t1.len() < k {
            let e = t1.len() as int;
            assert(a[e] == key_of(t1, e));
            assert(a.take(k)[e] == b.take(k)[e]);
            assert(b[e] == key_of(t2, e));
            assert(t2.len() == e);
            assert(a[k] == key_of(t1, k));
            assert(b[k] == key_of(t2, k));
        } else {
            assert forall|i: int| 0 <= i < k implies #[trigger] m.line(i)[c1] is Char by {
                assert(a[i] == key_of(t1, i));
            }
            let g = lemma_frontier_of(m, c1, k);
            let p = prefix_bytes(m, c1, k);
            reveal(frontier_ok);
            assert forall|i: int| 0 <= i < p.len() implies #[trigger] m.line(i)[c2] == CharData::Char(p[i]) by {
                assert(a.take(k)[i] == b.take(k)[i]);
                assert(m.line(i)[c1] is Char);
            }
            assert(spells(m, c2, p));
            assert(spells(m, c1, p)) by {
                assert forall|i: int| 0 <= i < p.len() implies #[trigger] m.line(i)[c1] == CharData::Char(p[i]) by {
                    assert(m.line(i)[c1] is Char);
                }
            }
            if k == 0 {
                assert(sorted_on(m.line(0), 0, m.width() as int));
            } else {
                let lv = m.level((k - 1) as nat);
                assert(sorted_in(m.line(k), lv));
                let u = choose|u: int| 0 <= u < lv.len() && lv[u] == g;
                assert(sorted_on(m.line(k), lv[u].start as int, lv[u].end as int));
            }
        }
    }
}

/// Two matrices with the same columns, in any order: if every byte of the
/// first is below 128, so is every byte of the second.
pub(crate) proof fn lemma_seven_bit_kept(m0: Matrix, m: Matrix)
    requires
        m.columns().to_multiset() == m0.columns().to_multiset(),
        m.height() == m0.height(),
        seven_bit_matrix(m0),
    ensures
        seven_bit_matrix(m),
{
    assert forall|k: int, c: int| 0 <= k < m.height() && 0 <= c < m.width() implies seven_bit_value(
        #[trigger] m.line(k)[c],
    ) by {
        let j = lemma_column_in(m, m0, c);
        assert(m.column(c).1[k] == m.line(k)[c]);
        assert(m0.column(j).1[k] == m0.line(k)[j]);
    }
}

/// An exact match is also the longest-suffix match: where an exact lookup
/// of a nonempty `q` finds an id, a suffix lookup of `q` finds the same id.
pub proof fn law_exact_match_is_suffix_match(nodes: Seq<Node>, q: Seq<u8>)
    requires
        q.len() >= 1,
    ensures
        exact_lookup(nodes, q) is Some ==> suffix_lookup(nodes, q) == exact_lookup(nodes, q),
{
    let p = q.reverse();
    assert(p.take(q.len() as int) =~= p);
}

/// Orders line sequences: shorter first, and by `lex_le` between equally
/// long ones.
pub open spec fn key_le(a: Seq<CharData>, b: Seq<CharData>) -> bool {
    a.len() < b.len() || (a.len() == b.len() && lex_le(a, b))
}

/// The first position, from `i` on, where two equally long, different
/// sequences differ.
proof fn lemma_first_diff(a: Seq<CharData>, b: Seq<CharData>, i: int) -> (k: int)
    requires
        a.len() == b.len(),
        0 <= i <= a.len(),
        a.take(i) == b.take(i),
        a != b,
    ensures
        i <= k < a.len(),
        a.take(k) == b.take(k),
        a[k] != b[k],
    decreases a.len() - i,
{
    if i == a.len() {
        assert(a =~= a.take(i));
        assert(b =~= b.take(i));
        i
    } else if a[i] != b[i] {
        i
    } else {
        assert(a.take(i + 1) =~= a.take(i).push(a[i]));
        assert(b.take(i + 1) =~= b.take(i).push(b[i]));
        lemma_first_diff(a, b, i + 1)
    }
}

proof fn lemma_prefix_of_prefix(a: Seq<CharData>, b: Seq<CharData>, j: int, k: int)
    requires
        0 <= j <= k <= a.len(),
        k <= b.len(),
        a.take(k) == b.take(k),
    ensures
        a.take(j) == b.take(j),
        forall|i: int| 0 <= i < k ==> a[i] == b[i],
{
    assert forall|i: int| 0 <= i < k implies a[i] == b[i] by {
        assert(a.take(k)[i] == a[i]);
        assert(b.take(k)[i] == b[i]);
        assert(a.take(k)[i] == b.take(k)[i]);
    }
    assert(a.take(j) =~= b.take(j));
}

proof fn lemma_lex_antisymmetric(a: Seq<CharData>, b: Seq<CharData>)
    requires
        a.len() == b.len(),
        lex_le(a, b),
        lex_le(b, a),
    ensures
        a == b,
{
    if a != b {
        assert(a.take(0) =~= b.take(0));
        let k = lemma_first_diff(a, b, 0);
        assert(a[k].rank() <= b[k].rank());
        assert(b[k].rank() <= a[k].rank());
    }
}

proof fn lemma_lex_total(a: Seq<CharData>, b: Seq<CharData>)
    requires
        a.len() == b.len(),
    ensures
        lex_le(a, b) || lex_le(b, a),
{
    if a != b {
        assert(a.take(0) =~= b.take(0));
        let k = lemma_first_diff(a, b, 0);
        if a[k].rank() < b[k].rank() {
            assert forall|j: int|
                #![trigger a[j], b[j]]
                0 <= j < a.len() && j < b.len() && a.take(j) == b.take(j) implies a[j].rank() <= b[j].rank() by {
                if j > k {
                    assert(a.take(j)[k] == b.take(j)[k]);
                } else if j < k {
                    lemma_prefix_of_prefix(a, b, j, k);
                }
            }
        } else {
            assert forall|j: int|
                #![trigger b[j], a[j]]
                0 <= j < b.len() && j < a.len() && b.take(j) == a.take(j) implies b[j].rank() <= a[j].rank() by {
                if j > k {
                    assert(a.take(j)[k] == b.take(j)[k]);
                } else if j < k {
                    lemma_prefix_of_prefix(a, b, j, k);
                }
            }
        }
    }
}

proof fn lemma_lex_transitive(a: Seq<CharData>, b: Seq<CharData>, c: Seq<CharData>)
    requires
        a.len() == b.len(),
        b.len() == c.len(),
        lex_le(a, b),
        lex_le(b, c),
    ensures
        lex_le(a, c),
{
    assert forall|k: int|
        #![trigger a[k], c[k]]
        0 <= k < a.len() && k < c.len() && a.take(k) == c.take(k) implies a[k].rank() <= c[k].rank() by {
        if a.take(k) == b.take(k) {
            assert(a[k].rank() <= b[k].rank());
            assert(b.take(k) == c.take(k));
            assert(b[k].rank() <= c[k].rank());
        } else {
            assert(a.take(0) =~= b.take(0));
            let j = lemma_first_diff(a, b, 0);
            if j >= k {
                lemma_prefix_of_prefix(a, b, k, j);
            }
            assert(a[j].rank() <= b[j].rank());
            lemma_prefix_of_prefix(a, c, j, k);
            assert(b.take(j) == c.take(j));
            assert(b[j].rank() <= c[j].rank());
            assert(c[j] == a[j]);
        }
    }
}

proof fn lemma_key_order()
    ensures
        total_ordering(|a: Seq<CharData>, b: Seq<CharData>| key_le(a, b)),
{
    let r = |a: Seq<CharData>, b: Seq<CharData>| key_le(a, b);
    assert forall|a: Seq<CharData>| #[trigger] r(a, a) by {
        assert forall|k: int|
            #![trigger a[k], a[k]]
            0 <= k < a.len() && k < a.len() && a.take(k) == a.take(k) implies a[k].rank() <= a[k].rank() by {}
    }
    assert forall|a: Seq<CharData>, b: Seq<CharData>| #[trigger] r(a, b) && #[trigger] r(b, a) implies a == b by {
        lemma_lex_antisymmetric(a, b);
    }
    assert forall|a: Seq<CharData>, b: Seq<CharData>, c: Seq<CharData>|
        #[trigger] r(a, b) && #[trigger] r(b, c) implies r(a, c) by {
        if a.len() == b.len() && b.len() == c.len() {
            lemma_lex_transitive(a, b, c);
        }
    }
    assert forall|a: Seq<CharData>, b: Seq<CharData>| #[trigger] r(a, b) || #[trigger] r(b, a) by {
        if a.len() == b.len() {
            lemma_lex_total(a, b);
        }
    }
}

/// What each column of a list holds, without its id.
pub open spec fn keys_of(cols: Seq<(i64, Seq<CharData>)>) -> Seq<Seq<CharData>> {
    cols.map_values(|col: (i64, Seq<CharData>)| col.1)
}

proof fn lemma_keys_multiset(x: Seq<(i64, Seq<CharData>)>, y: Seq<(i64, Seq<CharData>)>)
    requires
        x.to_multiset() == y.to_multiset(),
    ensures
        keys_of(x).to_multiset() == keys_of(y).to_multiset(),
{
    lemma_map_multiset(x, y, |col: (i64, Seq<CharData>)| col.1);
}

/// Mapping two sequences with the same elements gives sequences with the
/// same elements.
proof fn lemma_map_multiset<A, B>(x: Seq<A>, y: Seq<A>, f: spec_fn(A) -> B)
    requires
        x.to_multiset() == y.to_multiset(),
    ensures
        x.map_values(f).to_multiset() == y.map_values(f).to_multiset(),
    decreases x.len(),
{
    broadcast use vstd::seq_lib::group_to_multiset_ensures;
    broadcast use vstd::multiset::group_multiset_axioms;

    if x.len() == 0 {
        assert(y.to_multiset().len() == 0);
        assert(x.map_values(f) =~= Seq::<B>::empty());
        assert(y.map_values(f) =~= Seq::<B>::empty());
    } else {
        let x0 = x[0];
        assert(x.contains(x0)) by {
            assert(x[0] == x0);
        }
        assert(x.to_multiset().count(x0) > 0);
        assert(y.contains(x0));
        let j = choose|j: int| 0 <= j < y.len() && y[j] == x0;
        let xr = x.drop_first();
        let yr = y.remove(j);
        assert(x.to_multiset() =~= xr.to_multiset().insert(x0)) by {
            assert(x =~= xr.insert(0, x0));
            assert(x.remove(0) =~= xr);
        }
        assert(yr.to_multiset() =~= y.to_multiset().remove(x0));
        assert(xr.to_multiset() =~= yr.to_multiset());
        lemma_map_multiset(xr, yr, f);
        let fx = x.map_values(f);
        let fy = y.map_values(f);
        let v = f(x0);
        assert(fx.remove(0) =~= xr.map_values(f));
        assert(fy.remove(j) =~= yr.map_values(f));
        assert(fx[0] == v);
        assert(fy[j] == v);
        assert(fx.remove(0).to_multiset() =~= fx.to_multiset().remove(v));
        assert(fy.remove(j).to_multiset() =~= fy.to_multiset().remove(v));
        assert(fx.contains(v));
        assert(fy.contains(v));
        assert(fx.to_multiset() =~= fx.to_multiset().remove(v).insert(v));
        assert(fy.to_multiset() =~= fy.to_multiset().remove(v).insert(v));
    }
}

/// No two columns of `m` hold the same string.
pub open spec fn distinct_strings(m: Matrix) -> bool {
    forall|c1: int, c2: int|
        0 <= c1 < c2 < m.width() ==> (#[trigger] m.column(c1)).1 != (#[trigger] m.column(c2)).1
}

/// Sorting is canonical: two sorted matrices with the same columns, in any
/// order, have the same lines and the same group tables; only columns with
/// equal strings may carry their ids in another order.
pub proof fn law_sort_canonical(m1: Matrix, m2: Matrix)
    requires
        m1.wf(),
        m1.well_shaped(),
        m1.grouped(),
        m2.wf(),
        m2.well_shaped(),
        m2.grouped(),
        m1.height() == m2.height(),
        m1.columns().to_multiset() == m2.columns().to_multiset(),
    ensures
        m1.width() == m2.width(),
        forall|k: int| 0 <= k < m1.height() ==> #[trigger] m1.line(k) == m2.line(k),
        forall|k: int| 0 <= k <= m1.height() ==> #[trigger] m1.table(k) == m2.table(k),
        distinct_strings(m1) ==> m1.ids() == m2.ids(),
{
    broadcast use vstd::seq_lib::group_to_multiset_ensures;

    let h = m1.height() as int;
    let x = keys_of(m1.columns());
    let y = keys_of(m2.columns());
    vstd::seq_lib::to_multiset_len(m1.columns());
    vstd::seq_lib::to_multiset_len(m2.columns());
    assert(m1.columns().len() == m2.columns().len());
    let n = m1.width() as int;
    lemma_keys_multiset(m1.columns(), m2.columns());
    lemma_key_order();
    let r = |a: Seq<CharData>, b: Seq<CharData>| key_le(a, b);
    assert forall|i: int, j: int| 0 <= i < j < x.len() implies #[trigger] r(x[i], x[j]) by {
        lemma_grouped_in_order(m1, i, j);
        assert(x[i] == m1.column(i).1);
        assert(x[j] == m1.column(j).1);
    }
    assert forall|i: int, j: int| 0 <= i < j < y.len() implies #[trigger] r(y[i], y[j]) by {
        lemma_grouped_in_order(m2, i, j);
        assert(y[i] == m2.column(i).1);
        assert(y[j] == m2.column(j).1);
    }
    vstd::seq_lib::lemma_sorted_unique(x, y, r);
    assert forall|k: int| 0 <= k < h implies #[trigger] m1.line(k) == m2.line(k) by {
        assert forall|c: int| 0 <= c < n implies m1.line(k)[c] == m2.line(k)[c] by {
            assert(x[c] == y[c]);
            assert(m1.column(c).1[k] == m1.line(k)[c]);
            assert(m2.column(c).1[k] == m2.line(k)[c]);
        }
        assert(m1.wf());
        assert(m1.line(k) =~= m2.line(k));
    }
    if distinct_strings(m1) {
        assert forall|c: int| 0 <= c < n implies m1.ids()[c] == m2.ids()[c] by {
            let j = lemma_column_in(m1, m2, c);
            assert(x[c] == m1.column(c).1);
            assert(y[j] == m2.column(j).1);
            assert(x[j] == m1.column(j).1);
            if j < c {
                assert(m1.column(j).1 != m1.column(c).1);
            } else if c < j {
                assert(m1.column(c).1 != m1.column(j).1);
            }
            assert(m1.ids()[c] == m1.column(c).0);
            assert(m2.ids()[c] == m2.column(c).0);
        }
        assert(m1.ids() =~= m2.ids());
    }
    assert forall|k: int| 0 <= k <= h implies #[trigger] m1.table(k) == m2.table(k) by {
        if 1 <= k < h {
            Matrix::lemma_level_same(m1, m2, (k - 1) as nat);
        } else if k == 0 {
            Matrix::lemma_level_same(m1, m2, 0);
        }
    }
}

proof fn lemma_children_before_monotone(nodes: Seq<Node>, x1: int, x2: int)
    requires
        x1 <= x2,
    ensures
        children_before(nodes, x1) <= children_before(nodes, x2),
    decreases x2 - x1,
{
    if x1 < x2 {
        lemma_children_before_monotone(nodes, x1, x2 - 1);
        lemma_ones_below_bounds(nodes[x2 - 1].bits(), 128);
    }
}

proof fn lemma_find_parent(nodes: Seq<Node>, y: int, x: int) -> (p: int)
    requires
        breadth_first(nodes),
        0 <= x < nodes.len(),
        1 + children_before(nodes, x) <= y < nodes.len(),
    ensures
        x <= p < nodes.len(),
        1 + children_before(nodes, p) <= y < 1 + children_before(nodes, p + 1),
    decreases nodes.len() - x,
{
    if y < 1 + children_before(nodes, x + 1) {
        x
    } else {
        if x + 1 == nodes.len() {
            assert(nodes.len() == 1 + children_before(nodes, nodes.len() as int));
        }
        lemma_find_parent(nodes, y, x + 1)
    }
}

/// In a breadth-first node list (as `build_tree` returns), every node but
/// the root lies in the child range of exactly one node, which comes before
/// it: the child ranges are disjoint and cover positions `1..len`.
pub proof fn law_one_parent(nodes: Seq<Node>, y: int)
    requires
        breadth_first(nodes),
        1 <= y < nodes.len(),
    ensures
        exists|x: int|
            0 <= x < y && #[trigger] nodes[x].first_child() <= y < nodes[x].first_child() + popcount(
                nodes[x].bits(),
            ),
        forall|x1: int, x2: int|
            0 <= x1 < nodes.len() && 0 <= x2 < nodes.len() && popcount(nodes[x1].bits()) > 0 && popcount(
                nodes[x2].bits(),
            ) > 0 && #[trigger] nodes[x1].first_child() <= y < nodes[x1].first_child() + popcount(
                nodes[x1].bits(),
            ) && #[trigger] nodes[x2].first_child() <= y < nodes[x2].first_child() + popcount(
                nodes[x2].bits(),
            ) ==> x1 == x2,
{
    assert(children_before(nodes, 0) == 0);
    let p = lemma_find_parent(nodes, y, 0);
    assert(children_before(nodes, p + 1) == children_before(nodes, p) + popcount(nodes[p].bits()));
    assert(p < 1 + children_before(nodes, p));
    assert(nodes[p].first_child() <= y);
    assert forall|x1: int, x2: int|
        0 <= x1 < nodes.len() && 0 <= x2 < nodes.len() && popcount(nodes[x1].bits()) > 0 && popcount(
            nodes[x2].bits(),
        ) > 0 && #[trigger] nodes[x1].first_child() <= y < nodes[x1].first_child() + popcount(
            nodes[x1].bits(),
        ) && #[trigger] nodes[x2].first_child() <= y < nodes[x2].first_child() + popcount(
            nodes[x2].bits(),
        ) implies x1 == x2 by {
        assert(nodes[x1].first_child() == 1 + children_before(nodes, x1));
        assert(nodes[x2].first_child() == 1 + children_before(nodes, x2));
        assert(children_before(nodes, x1 + 1) == children_before(nodes, x1) + popcount(nodes[x1].bits()));
        assert(children_before(nodes, x2 + 1) == children_before(nodes, x2) + popcount(nodes[x2].bits()));
        if x1 < x2 {
            lemma_children_before_monotone(nodes, x1 + 1, x2);
        } else if x2 < x1 {
            lemma_children_before_monotone(nodes, x2 + 1, x1);
        }
    }
}

/// The `j`-th member of a bit set (counting from 0 in increasing order)
/// exists when the set has more than `j` members below `k`.
proof fn lemma_member_of_rank(t: u128, j: int, k: int) -> (b: int)
    requires
        0 <= k <= 128,
        0 <= j < ones_below(t, k),
    ensures
        0 <= b < k,
        bit(t, b),
        ones_below(t, b) == j,
    decreases k,
{
    if j < ones_below(t, k - 1) {
        lemma_member_of_rank(t, j, k - 1)
    } else {
        lemma_ones_below_bounds(t, k - 1);
        k - 1
    }
}

/// Members of a bit set have strictly increasing ranks.
proof fn lemma_rank_increasing(t: u128, b1: int, b2: int)
    requires
        bit(t, b1),
        b1 < b2,
    ensures
        ones_below(t, b1) < ones_below(t, b2),
{
    lemma_ones_below_monotone(t, b1 + 1, b2);
}

/// In a breadth-first trie of a matrix (as `build_tree` returns), every node
/// is reached by a path that some string of the matrix starts with, and by
/// no other path: the nodes are exactly the distinct paths, the root for the
/// empty one.
pub proof fn law_nodes_are_paths(nodes: Seq<Node>, m: Matrix, y: int)
    requires
        represents(nodes, m),
        breadth_first(nodes),
        0 <= y < nodes.len(),
    ensures
        exists|p: Seq<u8>| #[trigger] walk(nodes, p) == Some(y) && exists|c: int| spells(m, c, p),
        forall|p1: Seq<u8>, p2: Seq<u8>|
            #[trigger] walk(nodes, p1) == Some(y) && #[trigger] walk(nodes, p2) == Some(y) ==> p1 == p2,
    decreases y,
{
    let p = lemma_reached(nodes, m, y);
    assert(walk(nodes, p) is Some);
    assert forall|p1: Seq<u8>, p2: Seq<u8>|
        #[trigger] walk(nodes, p1) == Some(y) && #[trigger] walk(nodes, p2) == Some(y) implies p1 == p2 by {
        lemma_walk_injective(nodes, m, p1, p2);
    }
}

proof fn lemma_reached(nodes: Seq<Node>, m: Matrix, y: int) -> (p: Seq<u8>)
    requires
        represents(nodes, m),
        breadth_first(nodes),
        0 <= y < nodes.len(),
    ensures
        walk(nodes, p) == Some(y),
    decreases y,
{
    if y == 0 {
        Seq::<u8>::empty()
    } else {
        law_one_parent(nodes, y);
        let x = choose|x: int|
            0 <= x < y && #[trigger] nodes[x].first_child() <= y < nodes[x].first_child() + popcount(
                nodes[x].bits(),
            );
        let px = lemma_reached(nodes, m, x);
        let t = nodes[x].bits();
        let b = lemma_member_of_rank(t, y - nodes[x].first_child(), 128);
        let q = px.push(b as u8);
        assert(q.drop_last() =~= px);
        assert(q.last() == b as u8);
        assert(child_of(nodes[x], b) == Some(y));
        q
    }
}

proof fn lemma_walk_injective(nodes: Seq<Node>, m: Matrix, p1: Seq<u8>, p2: Seq<u8>)
    requires
        represents(nodes, m),
        breadth_first(nodes),
        walk(nodes, p1) is Some,
        walk(nodes, p1) == walk(nodes, p2),
    ensures
        p1 == p2,
    decreases p1.len() + p2.len(),
{
    let y = walk(nodes, p1).unwrap();
    if p1.len() == 0 && p2.len() == 0 {
        assert(p1 =~= p2);
    } else if p1.len() == 0 || p2.len() == 0 {
        // A child sits after its parent's position and so is never the root.
        let q = if p1.len() == 0 { p2 } else { p1 };
        assert(walk(nodes, q) is Some);
        assert(walk(nodes, q.drop_last()) is Some);
        let x = walk(nodes, q.drop_last()).unwrap();
        assert(0 <= x < nodes.len());
        assert(child_of(nodes[x], q.last() as int) == walk(nodes, q));
        assert(bit(nodes[x].bits(), q.last() as int));
        lemma_ones_below_bounds(nodes[x].bits(), q.last() as int);
        assert(popcount(nodes[x].bits()) > 0) by {
            lemma_rank_fits(nodes[x].bits(), q.last() as int);
        }
        assert(children_before(nodes, x) >= 0) by {
            lemma_children_before_monotone(nodes, 0, x);
        }
        assert(nodes[x].first_child() == 1 + children_before(nodes, x));
        assert(walk(nodes, q).unwrap() >= 1);
        assert(walk(nodes, Seq::<u8>::empty()) == Some(0int));
        if p1.len() == 0 {
            assert(p1 =~= Seq::<u8>::empty());
        } else {
            assert(p2 =~= Seq::<u8>::empty());
        }
    } else {
        assert(walk(nodes, p2) is Some);
        assert(walk(nodes, p1.drop_last()) is Some);
        assert(walk(nodes, p2.drop_last()) is Some);
        let x1 = walk(nodes, p1.drop_last()).unwrap();
        let x2 = walk(nodes, p2.drop_last()).unwrap();
        assert(0 <= x1 < nodes.len());
        assert(0 <= x2 < nodes.len());
        assert(child_of(nodes[x1], p1.last() as int) == walk(nodes, p1));
        assert(child_of(nodes[x2], p2.last() as int) == walk(nodes, p2));
        let b1 = p1.last() as int;
        let b2 = p2.last() as int;
        lemma_rank_fits(nodes[x1].bits(), b1);
        lemma_rank_fits(nodes[x2].bits(), b2);
        lemma_ones_below_bounds(nodes[x1].bits(), b1);
        lemma_ones_below_bounds(nodes[x2].bits(), b2);
        assert(y >= 1) by {
            lemma_children_before_monotone(nodes, 0, x1);
        }
        law_one_parent(nodes, y);
        assert(x1 == x2);
        if b1 < b2 {
            lemma_rank_increasing(nodes[x1].bits(), b1, b2);
        } else if b2 < b1 {
            lemma_rank_increasing(nodes[x1].bits(), b2, b1);
        }
        lemma_walk_injective(nodes, m, p1.drop_last(), p2.drop_last());
        assert(p1 =~= p1.drop_last().push(p1.last()));
        assert(p2 =~= p2.drop_last().push(p2.last()));
    }
}

/// Walking a path down two node lists that agree before position `y` leads
/// to the same node, when in the first list it leads to `y` or before.
proof fn lemma_walk_agree(m: Matrix, n1: Seq<Node>, n2: Seq<Node>, p: Seq<u8>, y: int)
    requires
        represents(n1, m),
        breadth_first(n1),
        y <= n2.len(),
        forall|x: int| 0 <= x < y ==> #[trigger] n1[x] == n2[x],
        walk(n1, p) is Some,
        walk(n1, p).unwrap() <= y,
    ensures
        walk(n2, p) == walk(n1, p),
    decreases p.len(),
{
    if p.len() > 0 {
        let q = p.drop_last();
        let b = p.last() as int;
        assert(walk(n1, q) is Some);
        let x = walk(n1, q).unwrap();
        assert(0 <= x < n1.len());
        assert(child_of(n1[x], b) == walk(n1, p));
        lemma_ones_below_bounds(n1[x].bits(), b);
        lemma_rank_fits(n1[x].bits(), b);
        assert(n1[x].first_child() == 1 + children_before(n1, x));
        lemma_walk_agree(m, n1, n2, q, y);
        assert(n1[x] == n2[x]);
    }
}

/// Two node lists that are both breadth-first tries of the same matrix
/// agree on their first `y` nodes (and the second has that many).
proof fn lemma_agree_upto(m: Matrix, n1: Seq<Node>, n2: Seq<Node>, y: int)
    requires
        represents(n1, m),
        breadth_first(n1),
        represents(n2, m),
        breadth_first(n2),
        0 <= y <= n1.len(),
    ensures
        y <= n2.len(),
        forall|x: int| 0 <= x < y ==> #[trigger] n1[x] == n2[x],
    decreases y,
{
    if y > 0 {
        let z = y - 1;
        lemma_agree_upto(m, n1, n2, z);
        if z > 0 {
            law_one_parent(n1, z);
            let x = choose|x: int|
                0 <= x < z && #[trigger] n1[x].first_child() <= z < n1[x].first_child() + popcount(
                    n1[x].bits(),
                );
            assert(children_before(n1, x + 1) == children_before(n1, x) + popcount(n1[x].bits()));
            assert(n1[x].first_child() == 1 + children_before(n1, x));
            lemma_children_before_same_prefix(n1, n2, z, x + 1);
            lemma_children_before_monotone(n2, x + 1, n2.len() as int);
        }
        let p = lemma_reached(n1, m, z);
        lemma_walk_agree(m, n1, n2, p, z);
        let t1 = n1[z];
        let t2 = n2[z];
        // Same children bytes: a byte has a child exactly when some string continues the path with it.
        assert forall|i: int| 0 <= i < 128 implies bit(t1.bits(), i) == bit(t2.bits(), i) by {
            let q = p.push(i as u8);
            assert(q.drop_last() =~= p);
            assert(q.last() as int == i);
            assert(walk(n1, q) == child_of(t1, i));
            assert(walk(n2, q) == child_of(t2, i));
        }
        lemma_bits_ext(t1.bits(), t2.bits());
        // Same id: that of the last column holding the path.
        if t1.id() is Some {
            let c1 = choose|c: int| last_holder(m, c, p) && m.ids()[c] == t1.id().unwrap();
            let c2 = choose|c: int| last_holder(m, c, p) && m.ids()[c] == t2.id().unwrap();
            if c1 < c2 {
                assert(holds(m, c2, p));
            } else if c2 < c1 {
                assert(holds(m, c1, p));
            }
        }
        lemma_children_before_same_prefix(n1, n2, z, z);
        assert(t1.first_child() == t2.first_child());
        assert(t1.table == t2.table);
        assert(t1.range_start == t2.range_start);
        assert(n1[z].children_end() == n1[z].first_child() + popcount(n1[z].bits()));
        assert(n2[z].children_end() == n2[z].first_child() + popcount(n2[z].bits()));
        assert(t1.range_end == t2.range_end);
        assert(t1.payload == t2.payload);
    }
}

proof fn lemma_children_before_same_prefix(n1: Seq<Node>, n2: Seq<Node>, k: int, x: int)
    requires
        0 <= x <= k,
        k <= n1.len(),
        k <= n2.len(),
        forall|y: int| 0 <= y < k ==> #[trigger] n1[y] == n2[y],
    ensures
        children_before(n1, x) == children_before(n2, x),
    decreases x,
{
    if x > 0 {
        lemma_children_before_same_prefix(n1, n2, k, x - 1);
        assert(n1[x - 1] == n2[x - 1]);
    }
}

/// The trie of a matrix is determined: two node lists that are both
/// breadth-first tries of the same matrix (as `build_tree` returns) are
/// equal, node for node.
pub proof fn law_tree_determined(m: Matrix, n1: Seq<Node>, n2: Seq<Node>)
    requires
        represents(n1, m),
        breadth_first(n1),
        represents(n2, m),
        breadth_first(n2),
    ensures
        n1 == n2,
{
    lemma_agree_upto(m, n1, n2, n1.len() as int);
    lemma_agree_upto(m, n2, n1, n2.len() as int);
    assert(n1 =~= n2);
}

/// Tries of matrices that hold the same strings with the same ids, column
/// for column, are the same node list. With `law_sort_canonical`, sorting a
/// batch of distinct strings and building its trie gives one node list,
/// whatever order the batch came in.
pub proof fn law_tree_same_strings(m1: Matrix, m2: Matrix, n1: Seq<Node>, n2: Seq<Node>)
    requires
        m1.width() == m2.width(),
        m1.height() == m2.height(),
        forall|k: int| 0 <= k < m1.height() ==> #[trigger] m1.line(k) == m2.line(k),
        m1.ids() == m2.ids(),
        represents(n1, m1),
        breadth_first(n1),
        represents(n2, m2),
        breadth_first(n2),
    ensures
        n1 == n2,
{
    assert forall|c: int, p: Seq<u8>| #[trigger] spells(m1, c, p) == spells(m2, c, p) by {
        if spells(m1, c, p) {
            assert forall|k: int| 0 <= k < p.len() implies #[trigger] m2.line(k)[c] == CharData::Char(p[k]) by {
                assert(m1.line(k) == m2.line(k));
            }
        }
        if spells(m2, c, p) {
            assert forall|k: int| 0 <= k < p.len() implies #[trigger] m1.line(k)[c] == CharData::Char(p[k]) by {
                assert(m1.line(k) == m2.line(k));
            }
        }
    }
    assert forall|c: int, p: Seq<u8>| #[trigger] holds(m1, c, p) == holds(m2, c, p) by {
        assert(spells(m1, c, p) == spells(m2, c, p));
        if spells(m1, c, p) {
            assert(m1.line(p.len() as int) == m2.line(p.len() as int));
        }
    }
    assert forall|c: int, p: Seq<u8>| #[trigger] last_holder(m1, c, p) == last_holder(m2, c, p) by {
        assert(holds(m1, c, p) == holds(m2, c, p));
        if last_holder(m1, c, p) {
            assert forall|c2: int| c < c2 implies !#[trigger] holds(m2, c2, p) by {
                assert(holds(m1, c2, p) == holds(m2, c2, p));
            }
        }
        if last_holder(m2, c, p) {
            assert forall|c2: int| c < c2 implies !#[trigger] holds(m1, c2, p) by {
                assert(holds(m1, c2, p) == holds(m2, c2, p));
            }
        }
    }
    assert forall|p: Seq<u8>| #[trigger] held_twice(m1, p) == held_twice(m2, p) by {
        if held_twice(m1, p) {
            let (c1, c2) = choose|c1: int, c2: int| c1 < c2 && #[trigger] holds(m1, c1, p) && #[trigger] holds(m1, c2, p);
            assert(holds(m2, c1, p) && holds(m2, c2, p));
        }
        if held_twice(m2, p) {
            let (c1, c2) = choose|c1: int, c2: int| c1 < c2 && #[trigger] holds(m2, c1, p) && #[trigger] holds(m2, c2, p);
            assert(holds(m1, c1, p) && holds(m1, c2, p));
        }
    }
    assert forall|p: Seq<u8>| #[trigger] walk(n2, p) is Some implies {
        let x = walk(n2, p).unwrap();
        &&& 0 <= x < n2.len()
        &&& (n2[x].id() is Some <==> exists|c: int| holds(m1, c, p))
        &&& (n2[x].id() matches Some(v) ==> exists|c: int| last_holder(m1, c, p) && m1.ids()[c] == v)
        &&& (n2[x].first_child() == 0 <==> (n2[x].bits() == 0 && !held_twice(m1, p)))
    } by {
        let x = walk(n2, p).unwrap();
        if n2[x].id() is Some {
            let c = choose|c: int| last_holder(m2, c, p) && m2.ids()[c] == n2[x].id().unwrap();
            assert(last_holder(m1, c, p));
        }
        if exists|c: int| holds(m2, c, p) {
            let c = choose|c: int| holds(m2, c, p);
            assert(holds(m1, c, p));
        }
        if exists|c: int| holds(m1, c, p) {
            let c = choose|c: int| holds(m1, c, p);
            assert(holds(m2, c, p));
        }
    }
    assert forall|p: Seq<u8>| #[trigger] walk(n2, p) is Some <==> exists|c: int| spells(m1, c, p) by {
        if exists|c: int| spells(m1, c, p) {
            let c = choose|c: int| spells(m1, c, p);
            assert(spells(m2, c, p));
        }
        if exists|c: int| spells(m2, c, p) {
            let c = choose|c: int| spells(m2, c, p);
            assert(spells(m1, c, p));
        }
    }
    assert(represents(n2, m1));
    law_tree_determined(m1, n1, n2);
}

/// Prepending bytes to a query never loses a match: whatever string of the
/// batch the suffix lookup of `q` finds, the lookup of `pre + q` finds one
/// at least as long.
pub proof fn law_longer_query(
    data: Seq<(i64, String)>,
    m0: Matrix,
    m: Matrix,
    nodes: Seq<Node>,
    pre: Seq<u8>,
    q: Seq<u8>,
)
    requires
        same_batch(data, m0, m),
        represents(nodes, m),
    ensures
        suffix_lookup(nodes, q) is Some ==> suffix_lookup(nodes, pre + q) is Some,
        suffix_lookup(nodes, pre + q) matches Some(v) ==> exists|i: int|
            #[trigger] ends_query(data, i, pre + q) && data[i].0 == v && forall|j: int|
                #[trigger] ends_query(data, j, q) ==> text_bytes(data[j].1).len() <= text_bytes(
                    data[i].1,
                ).len(),
{
    let pq = pre + q;
    law_longest_suffix(data, m0, m, nodes, q);
    law_longest_suffix(data, m0, m, nodes, pq);
    assert forall|j: int| #[trigger] ends_query(data, j, q) implies ends_query(data, j, pq) by {
        let t = text_bytes(data[j].1);
        assert(pq.subrange(pq.len() - t.len(), pq.len() as int) =~= q.subrange(q.len() - t.len(), q.len() as int));
    }
    if suffix_lookup(nodes, q) is Some {
        let j = choose|j: int| ends_query(data, j, q);
        assert(ends_query(data, j, pq));
    }
    if let Some(v) = suffix_lookup(nodes, pq) {
        let i = choose|i: int|
            #[trigger] ends_query(data, i, pq) && data[i].0 == v && forall|i1: int|
                #[trigger] ends_query(data, i1, pq) ==> text_bytes(data[i1].1).len() <= text_bytes(data[i].1).len();
        assert forall|j: int| #[trigger] ends_query(data, j, q) implies text_bytes(data[j].1).len()
            <= text_bytes(data[i].1).len() by {
            assert(ends_query(data, j, pq));
        }
    }
}

/// No two entries of `data` have the same string.
pub open spec fn distinct_batch(data: Seq<(i64, String)>) -> bool {
    forall|j1: int, j2: int|
        0 <= j1 < j2 < data.len() ==> text_bytes(#[trigger] data[j1].1) != text_bytes(#[trigger] data[j2].1)
}

/// A matrix laid out from a batch of distinct strings, and any matrix with
/// the same columns in another order (such as the sorted one), has no two
/// columns holding the same string.
pub proof fn lemma_distinct_columns(data: Seq<(i64, String)>, m0: Matrix, m: Matrix)
    requires
        m0.stores(data),
        distinct_batch(data),
        m.columns().to_multiset() == m0.columns().to_multiset(),
    ensures
        distinct_strings(m0),
        distinct_strings(m),
{
    broadcast use vstd::seq_lib::group_to_multiset_ensures;

    assert forall|j1: int, j2: int|
        0 <= j1 < j2 < m0.width() implies (#[trigger] m0.column(j1)).1 != (#[trigger] m0.column(j2)).1 by {
        if m0.column(j1).1 == m0.column(j2).1 {
            let t = text_bytes(data[j1].1);
            let x = t.reverse();
            assert(x.reverse() =~= t);
            lemma_stored_holds(data, m0, j1, x);
            lemma_stored_holds(data, m0, j2, x);
            lemma_holds_col(m0, j1, x);
            lemma_holds_col(m0, j2, x);
            assert(text_bytes(data[j1].1) != text_bytes(data[j2].1));
        }
    }
    let k0 = keys_of(m0.columns());
    let k = keys_of(m.columns());
    assert forall|i: int, j: int| 0 <= i < k0.len() && 0 <= j < k0.len() && i != j implies k0[i] != k0[j] by {
        assert(k0[i] == m0.column(i).1);
        assert(k0[j] == m0.column(j).1);
    }
    k0.lemma_multiset_has_no_duplicates();
    lemma_keys_multiset(m.columns(), m0.columns());
    k.lemma_multiset_has_no_duplicates_conv();
    assert forall|c1: int, c2: int|
        0 <= c1 < c2 < m.width() implies (#[trigger] m.column(c1)).1 != (#[trigger] m.column(c2)).1 by {
        assert(k[c1] == m.column(c1).1);
        assert(k[c2] == m.column(c2).1);
    }
}

proof fn lemma_height_for_attained(data: Seq<(i64, String)>, n: int)
    requires
        0 <= n <= data.len(),
    ensures
        n == 0 ==> height_for(data, n) == 0,
        n > 0 ==> exists|j: int|
            0 <= j < n && height_for(data, n) == text_bytes(#[trigger] data[j].1).len() + 1,
    decreases n,
{
    if n > 0 {
        lemma_height_for_attained(data, n - 1);
        if n - 1 > 0 && height_for(data, n) == height_for(data, n - 1) {
            let j = choose|j: int|
                0 <= j < n - 1 && height_for(data, n - 1) == text_bytes(#[trigger] data[j].1).len() + 1;
            assert(height_for(data, n) == text_bytes(data[j].1).len() + 1);
        } else {
            assert(height_for(data, n) == text_bytes(data[n - 1].1).len() + 1);
        }
    }
}

/// The height of a matrix laid out from a batch does not depend on the
/// batch's order.
proof fn lemma_height_for_order(d1: Seq<(i64, String)>, d2: Seq<(i64, String)>)
    requires
        d1.to_multiset() == d2.to_multiset(),
    ensures
        height_for(d1, d1.len() as int) == height_for(d2, d2.len() as int),
{
    vstd::seq_lib::to_multiset_len(d1);
    vstd::seq_lib::to_multiset_len(d2);
    assert(d1.len() == d2.len());
    lemma_height_for_at_most(d1, d2);
    lemma_height_for_at_most(d2, d1);
}

proof fn lemma_height_for_at_most(d1: Seq<(i64, String)>, d2: Seq<(i64, String)>)
    requires
        d1.to_multiset() == d2.to_multiset(),
    ensures
        height_for(d1, d1.len() as int) <= height_for(d2, d2.len() as int),
{
    lemma_height_for_attained(d1, d1.len() as int);
    if d1.len() > 0 {
        let j = choose|j: int|
            0 <= j < d1.len() && height_for(d1, d1.len() as int) == text_bytes(#[trigger] d1[j].1).len() + 1;
        let e = d1[j];
        assert(d1.contains(e)) by {
            assert(d1[j] == e);
        }
        assert(d1.to_multiset().count(e) > 0);
        assert(d2.contains(e));
        let j2 = choose|j2: int| 0 <= j2 < d2.len() && d2[j2] == e;
        lemma_height_for_bound(d2, j2, d2.len() as int);
    }
}

/// The column an entry of a batch gets in a matrix of height `h`.
pub open spec fn stored_column(e: (i64, String), h: int) -> (i64, Seq<CharData>) {
    (e.0, Seq::new(h as nat, |k: int| key_of(text_bytes(e.1), k)))
}

proof fn lemma_stored_columns(data: Seq<(i64, String)>, m0: Matrix)
    requires
        m0.stores(data),
    ensures
        m0.columns() == data.map_values(|e: (i64, String)| stored_column(e, m0.height() as int)),
{
    let h = m0.height() as int;
    let f = |e: (i64, String)| stored_column(e, h);
    assert forall|c: int| 0 <= c < data.len() implies #[trigger] m0.columns()[c] == data.map_values(f)[c] by {
        assert(m0.columns()[c] == m0.column(c));
        assert(m0.column(c).1 =~= stored_column(data[c], h).1) by {
            assert forall|k: int| 0 <= k < h implies #[trigger] m0.column(c).1[k] == key_of(text_bytes(data[c].1), k) by {
                assert(m0.line(k)[c] == key_of(text_bytes(data[c].1), k));
            }
        }
    }
    assert(m0.columns() =~= data.map_values(f));
}

/// Sorting does not depend on the batch's order: the sorted matrices of two
/// orderings of a batch of distinct strings have the same ids, lines and
/// group tables.
pub proof fn law_batch_order(
    data1: Seq<(i64, String)>,
    data2: Seq<(i64, String)>,
    m01: Matrix,
    m1: Matrix,
    m02: Matrix,
    m2: Matrix,
)
    requires
        data1.to_multiset() == data2.to_multiset(),
        distinct_batch(data1),
        same_batch(data1, m01, m1),
        same_batch(data2, m02, m2),
        m1.wf(),
        m1.well_shaped(),
        m1.grouped(),
        m2.wf(),
        m2.well_shaped(),
        m2.grouped(),
    ensures
        m1.width() == m2.width(),
        m1.height() == m2.height(),
        m1.ids() == m2.ids(),
        forall|k: int| 0 <= k < m1.height() ==> #[trigger] m1.line(k) == m2.line(k),
        forall|k: int| 0 <= k <= m1.height() ==> #[trigger] m1.table(k) == m2.table(k),
{
    lemma_height_for_order(data1, data2);
    lemma_stored_columns(data1, m01);
    lemma_stored_columns(data2, m02);
    let h = m01.height() as int;
    lemma_map_multiset(data1, data2, |e: (i64, String)| stored_column(e, h));
    lemma_distinct_columns(data1, m01, m1);
    law_sort_canonical(m1, m2);
}

/// Building the trie does not depend on the batch's order either: for two
/// orderings of a batch of distinct strings, the tries of the sorted
/// matrices are the same node list.
pub proof fn law_batch_order_trie(
    data1: Seq<(i64, String)>,
    data2: Seq<(i64, String)>,
    m01: Matrix,
    m1: Matrix,
    n1: Seq<Node>,
    m02: Matrix,
    m2: Matrix,
    n2: Seq<Node>,
)
    requires
        data1.to_multiset() == data2.to_multiset(),
        distinct_batch(data1),
        same_batch(data1, m01, m1),
        same_batch(data2, m02, m2),
        m1.wf(),
        m1.well_shaped(),
        m1.grouped(),
        m2.wf(),
        m2.well_shaped(),
        m2.grouped(),
        represents(n1, m1),
        breadth_first(n1),
        represents(n2, m2),
        breadth_first(n2),
    ensures
        n1 == n2,
{
    law_batch_order(data1, data2, m01, m1, m02, m2);
    law_tree_same_strings(m1, m2, n1, n2);
}

/// Building twice from one batch gives one trie, duplicates or not (sorting
/// is fixed down to its heap-sort order), so an exact hit in one build is
/// the suffix hit in the other.
pub proof fn law_rebuild(
    data: Seq<(i64, String)>,
    m0a: Matrix,
    ma: Matrix,
    na: Seq<Node>,
    m0b: Matrix,
    mb: Matrix,
    nb: Seq<Node>,
    q: Seq<u8>,
)
    requires
        m0a.stores(data),
        m0b.stores(data),
        ma.wf(),
        mb.wf(),
        ma.height() == m0a.height(),
        mb.height() == m0b.height(),
        ma.columns() == sorted_upto(m0a.columns(), m0a.width() as int, (m0a.height() - 1) as nat).0,
        mb.columns() == sorted_upto(m0b.columns(), m0b.width() as int, (m0b.height() - 1) as nat).0,
        represents(na, ma),
        breadth_first(na),
        represents(nb, mb),
        breadth_first(nb),
        q.len() >= 1,
    ensures
        na == nb,
        exact_lookup(na, q) is Some ==> suffix_lookup(nb, q) == exact_lookup(na, q),
{
    broadcast use vstd::seq_lib::group_to_multiset_ensures;

    lemma_stored_columns(data, m0a);
    lemma_stored_columns(data, m0b);
    assert(m0a.columns() == m0b.columns());
    assert(ma.columns() == mb.columns());
    assert(ma.width() == ma.columns().len());
    assert(mb.width() == mb.columns().len());
    assert forall|k: int| 0 <= k < ma.height() implies #[trigger] ma.line(k) == mb.line(k) by {
        lemma_line_of(ma, k);
        lemma_line_of(mb, k);
    }
    assert forall|c: int| 0 <= c < ma.width() implies ma.ids()[c] == mb.ids()[c] by {
        assert(ma.columns()[c] == ma.column(c));
        assert(mb.columns()[c] == mb.column(c));
    }
    assert(ma.ids() =~= mb.ids());
    law_tree_same_strings(ma, mb, na, nb);
    law_exact_match_is_suffix_match(na, q);
}

} // verus!
