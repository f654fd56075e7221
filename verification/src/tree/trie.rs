//! Building the trie from a grouped matrix, and what the trie then says
//! about the matrix's strings.

use super::groups::{
    children_of, ends_part, lead_ends, lemma_chars_after_ends, lemma_consecutive_cover,
    lemma_ends_part_index, lemma_lead_ends_bound, lemma_run_split_order, lemma_run_split_props,
    rg, run_split, sorted_in, split, table_for,
};
use super::matcher::{nodes_ok, walk};
use crate::bitset::{
    bit, lemma_count_below_all, lemma_ones_below_bounds, lemma_or_bit, lemma_or_counts,
    lemma_shl_one, lemma_zero_bits, ones_below, popcount,
};
use super::{CharData, Matrix, Node, key_of, laid_out, lays_out, sorted_on, uniform_on};
use std::ops::Range;
use vstd::prelude::*;

verus! {

/// Column `c` spells `p`: its first `p.len()` lines hold the bytes of `p`
/// (so `p` is a prefix of its string read from the last byte).
pub open spec fn spells(m: Matrix, c: int, p: Seq<u8>) -> bool {
    &&& 0 <= c < m.width()
    &&& p.len() < m.height()
    &&& forall|k: int| 0 <= k < p.len() ==> #[trigger] m.line(k)[c] == CharData::Char(p[k])
}

/// Column `c` holds exactly `p`: its string, read from the last byte, is `p`.
pub open spec fn holds(m: Matrix, c: int, p: Seq<u8>) -> bool {
    &&& spells(m, c, p)
    &&& m.line(p.len() as int)[c] == CharData::End
}

/// Every byte the matrix holds is below 128.
pub open spec fn seven_bit_matrix(m: Matrix) -> bool {
    forall|k: int, c: int|
        0 <= k < m.height() && 0 <= c < m.width() ==> seven_bit_value(#[trigger] m.line(k)[c])
}

/// Some column spells `p` followed by `b`.
pub open spec fn continues(m: Matrix, p: Seq<u8>, b: u8) -> bool {
    exists|c: int| #[trigger] spells(m, c, p.push(b))
}

/// One of the groups `ch` starts with byte `b` in `s`.
pub open spec fn child_with_byte(s: Seq<CharData>, ch: Seq<Range<usize>>, b: u8) -> bool {
    exists|t: int| 0 <= t < ch.len() && s[(#[trigger] ch[t]).start as int] == CharData::Char(b)
}

/// The byte a value holds (0 for the others).
pub open spec fn byte_of(x: CharData) -> u8 {
    match x {
        CharData::Char(b) => b,
        _ => 0,
    }
}

/// A value that is no byte, or a byte below 128.
pub open spec fn seven_bit_value(x: CharData) -> bool {
    match x {
        CharData::Char(b) => b < 128,
        _ => true,
    }
}

/// Column `c` holds exactly `p`, and no column after it does.
pub open spec fn last_holder(m: Matrix, c: int, p: Seq<u8>) -> bool {
    &&& holds(m, c, p)
    &&& forall|c2: int| c < c2 ==> !#[trigger] holds(m, c2, p)
}

/// Two different columns hold exactly `p`.
pub open spec fn held_twice(m: Matrix, p: Seq<u8>) -> bool {
    exists|c1: int, c2: int| c1 < c2 && #[trigger] holds(m, c1, p) && #[trigger] holds(m, c2, p)
}

/// `nodes` is the trie of the matrix's strings (each read from its last
/// byte): a path leads to a node exactly when some string starts with it,
/// and that node has an id exactly when some string is the path, the id of
/// the last column that holds it; each node's child range is as long as its
/// byte set is large, and it is left at position 0 exactly when the node
/// has no children and at most one column holds its path.
pub open spec fn represents(nodes: Seq<Node>, m: Matrix) -> bool {
    &&& nodes_ok(nodes)
    &&& forall|x: int|
        0 <= x < nodes.len() ==> #[trigger] nodes[x].children_end() == nodes[x].first_child() + popcount(
            nodes[x].bits(),
        )
    &&& forall|p: Seq<u8>| #[trigger] walk(nodes, p) is Some <==> exists|c: int| spells(m, c, p)
    &&& forall|p: Seq<u8>|
        #[trigger] walk(nodes, p) is Some ==> {
            let x = walk(nodes, p).unwrap();
            &&& 0 <= x < nodes.len()
            &&& (nodes[x].id() is Some <==> exists|c: int| holds(m, c, p))
            &&& (nodes[x].id() matches Some(v) ==> exists|c: int| last_holder(m, c, p) && m.ids()[c] == v)
            &&& (nodes[x].first_child() == 0 <==> (nodes[x].bits() == 0 && !held_twice(m, p)))
        }
}

/// Range `g` is the group of the columns that spell `p`, a path of length
/// `d`, and it is one of the groups of line `d - 1` (all columns, for `d == 0`).
#[verifier::opaque]
pub open spec fn frontier_ok(m: Matrix, g: Range<usize>, p: Seq<u8>, d: int) -> bool {
    &&& g.start < g.end <= m.width()
    &&& p.len() == d
    &&& forall|c: int| 0 <= c < m.width() ==> (g.start <= c < g.end <==> #[trigger] spells(m, c, p))
    &&& d == 0 ==> g == rg(0, m.width() as int)
    &&& d >= 1 ==> m.level((d - 1) as nat).contains(g)
}

proof fn lemma_char_below_height(m: Matrix, c: int, k: int)
    requires
        m.well_shaped(),
        0 <= c < m.width(),
        0 <= k < m.height(),
        m.line(k)[c] is Char,
    ensures
        k + 1 < m.height(),
{
    let col = m.column(c).1;
    assert(laid_out(col, m.height() as int));
    let t = choose|t: Seq<u8>| #[trigger] lays_out(col, t, m.height() as int);
    assert(col[k] == key_of(t, k));
    assert(col[k] == m.line(k)[c]);
}

proof fn lemma_children_contains(s: Seq<CharData>, rs: Seq<Range<usize>>, g: Range<usize>, t: int)
    requires
        rs.contains(g),
        0 <= t < split(s, g).len(),
    ensures
        children_of(s, rs).contains(split(s, g)[t]),
    decreases rs.len(),
{
    let init = rs.drop_last();
    let c0 = children_of(s, init);
    assert(children_of(s, rs) == c0 + split(s, rs.last()));
    if rs.last() == g {
        assert(children_of(s, rs)[c0.len() + t] == split(s, g)[t]);
    } else {
        let i = choose|i: int| 0 <= i < rs.len() && rs[i] == g;
        assert(i < rs.len() - 1);
        assert(init[i] == g);
        lemma_children_contains(s, init, g, t);
        let j = choose|j: int| 0 <= j < c0.len() && c0[j] == split(s, g)[t];
        assert(children_of(s, rs)[j] == c0[j]);
    }
}

proof fn lemma_ranks_increasing(s: Seq<CharData>, rs: Seq<Range<usize>>, i: int, j: int)
    requires
        forall|t: int|
            0 <= t < rs.len() - 1 ==> (#[trigger] s[rs[t].start as int]).rank() < s[rs[t + 1].start as int].rank(),
        0 <= i < j < rs.len(),
    ensures
        s[rs[i].start as int].rank() < s[rs[j].start as int].rank(),
    decreases j - i,
{
    if j > i + 1 {
        lemma_ranks_increasing(s, rs, i, j - 1);
        assert(s[rs[j - 1].start as int].rank() < s[rs[j - 1 + 1].start as int].rank());
    } else {
        assert(s[rs[i].start as int].rank() < s[rs[i + 1].start as int].rank());
    }
}

/// What one group of the frontier expands to: its groups at line `d` are
/// the table's entry for it (if any); each that starts with a byte is the
/// group of the longer path; the bytes come in increasing order; a byte
/// continues the path exactly when one of the groups starts with it; and
/// some string is the path exactly when a group starts with an end marker
/// (or the group has no entry).
#[verifier::opaque]
pub open spec fn expands_to(m: Matrix, g: Range<usize>, p: Seq<u8>, d: int, ch: Seq<Range<usize>>) -> bool {
    let s = m.line(d);
    &&& ch == split(s, g)
    &&& ch.len() > 0 ==> m.table(d).contains_key(g) && m.table(d)[g] == ch
    &&& ch.len() == 0 ==> !m.table(d).contains_key(g)
    &&& forall|t: int|
        0 <= t < ch.len() ==> (#[trigger] ch[t]).start < m.width() && (s[ch[t].start as int] is End
            || s[ch[t].start as int] is Char)
    &&& forall|t: int|
        0 <= t < ch.len() && s[(#[trigger] ch[t]).start as int] is Char ==> frontier_ok(
            m,
            ch[t],
            p.push(byte_of(s[ch[t].start as int])),
            d + 1,
        )
    &&& forall|t1: int, t2: int|
        0 <= t1 < t2 < ch.len() && s[(#[trigger] ch[t1]).start as int] is Char && s[(#[trigger] ch[t2]).start as int] is Char
            ==> s[ch[t1].start as int].rank() < s[ch[t2].start as int].rank()
    &&& forall|b: u8|
        #![trigger continues(m, p, b)]
        #![trigger child_with_byte(s, ch, b)]
        continues(m, p, b) <==> child_with_byte(s, ch, b)
    &&& (exists|c: int| #[trigger] holds(m, c, p)) <==> (ch.len() == 0 || exists|t: int|
        0 <= t < ch.len() && s[(#[trigger] ch[t]).start as int] == CharData::End)
    &&& forall|t: int|
        0 <= t < ch.len() && s[(#[trigger] ch[t]).start as int] == CharData::End ==> holds(m, ch[t].start as int, p)
    &&& ch.len() == 0 ==> holds(m, g.start as int, p)
}

proof fn lemma_spells_push(m: Matrix, c: int, p: Seq<u8>, b: u8)
    ensures
        spells(m, c, p.push(b)) == (spells(m, c, p) && m.line(p.len() as int)[c] == CharData::Char(b)
            && p.len() + 1 < m.height()),
{
    let q = p.push(b);
    if spells(m, c, p) && m.line(p.len() as int)[c] == CharData::Char(b) && p.len() + 1 < m.height() {
        assert forall|k: int| 0 <= k < q.len() implies #[trigger] m.line(k)[c] == CharData::Char(q[k]) by {
            if k < p.len() {
                assert(q[k] == p[k]);
            }
        }
    }
    if spells(m, c, q) {
        assert forall|k: int| 0 <= k < p.len() implies #[trigger] m.line(k)[c] == CharData::Char(p[k]) by {
            assert(q[k] == p[k]);
            assert(m.line(k)[c] == CharData::Char(q[k]));
        }
        assert(m.line(p.len() as int)[c] == CharData::Char(q[p.len() as int]));
    }
}

/// Facts about a frontier group: its line is within the matrix, it is
/// sorted and free of blanks there, the table holds its groups, and those
/// groups are groups of the next line.
proof fn lemma_frontier_basics(m: Matrix, g: Range<usize>, p: Seq<u8>, d: int)
    requires
        m.wf(),
        m.well_shaped(),
        m.grouped(),
        frontier_ok(m, g, p, d),
    ensures
        0 <= d < m.height(),
        sorted_on(m.line(d), g.start as int, g.end as int),
        forall|c: int| g.start <= c < g.end ==> !(#[trigger] m.line(d)[c] is Blank),
        split(m.line(d), g).len() > 0 ==> m.table(d).contains_key(g) && m.table(d)[g] == split(m.line(d), g),
        split(m.line(d), g).len() == 0 ==> !m.table(d).contains_key(g),
        forall|t: int| 0 <= t < split(m.line(d), g).len() ==> m.level(d as nat).contains(#[trigger] split(m.line(d), g)[t]),
{
    reveal(frontier_ok);
    let n = m.width() as int;
    let s = m.line(d);
    let ch = split(s, g);
    assert(spells(m, g.start as int, p));
    assert forall|c: int| g.start <= c < g.end implies !(#[trigger] m.line(d)[c] is Blank) by {
        assert(spells(m, c, p));
        Matrix::lemma_shape_facts(m, c);
        if d >= 1 {
            assert(m.line(d - 1)[c] == CharData::Char(p[d - 1]));
        }
    }
    if d == 0 {
        assert(g.start == 0 && g.end == n);
        assert(m.line(0)[0] is Char) by {
            Matrix::lemma_shape_facts(m, 0);
        }
        if n >= 2 {
            lemma_lead_ends_bound(s, 0, n);
            assert(lead_ends(s, 0, n) == 0);
            assert(ends_part(0, 0) =~= Seq::<Range<usize>>::empty());
            assert(ch =~= run_split(s, 0, 1, n));
            lemma_run_split_props(s, 0, 1, n);
        } else {
            assert(ch == seq![g]);
            assert(run_split(s, 0, 1, n) == seq![rg(0, n)]);
        }
        assert(ch == m.level(0));
        assert forall|t: int| 0 <= t < ch.len() implies m.level(d as nat).contains(#[trigger] ch[t]) by {
            assert(m.level(0)[t] == ch[t]);
        }
    } else {
        let lv = m.level((d - 1) as nat);
        assert(sorted_in(m.line(d), lv));
        let j = choose|j: int| 0 <= j < lv.len() && lv[j] == g;
        assert(sorted_on(s, lv[j].start as int, lv[j].end as int));
        assert(m.table(d) == table_for(s, lv));
        assert forall|t: int| 0 <= t < ch.len() implies m.level(d as nat).contains(#[trigger] ch[t]) by {
            lemma_children_contains(s, lv, g, t);
        }
    }
}

proof fn lemma_expand_single(m: Matrix, g: Range<usize>, p: Seq<u8>, d: int)
    requires
        m.wf(),
        m.well_shaped(),
        m.grouped(),
        frontier_ok(m, g, p, d),
        g.end == g.start + 1,
    ensures
        expands_to(m, g, p, d, split(m.line(d), g)),
{
    reveal(expands_to);
    reveal(frontier_ok);
    lemma_frontier_basics(m, g, p, d);
    let s = m.line(d);
    let ch = split(s, g);
    let a = g.start as int;
    assert(spells(m, a, p));
    assert forall|c: int| #[trigger] spells(m, c, p) implies c == a by {}
    if s[a] is Char {
        let b0 = byte_of(s[a]);
        assert(ch == seq![g]);
        lemma_char_below_height(m, a, d);
        assert forall|c: int| 0 <= c < m.width() implies (g.start <= c < g.end <==> #[trigger] spells(m, c, p.push(b0))) by {
            lemma_spells_push(m, c, p, b0);
        }
        assert(frontier_ok(m, ch[0], p.push(b0), d + 1));
        assert forall|b: u8| #[trigger] continues(m, p, b) <==> child_with_byte(s, ch, b) by {
            if continues(m, p, b) {
                let c = choose|c: int| #[trigger] spells(m, c, p.push(b));
                lemma_spells_push(m, c, p, b);
                assert(s[ch[0].start as int] == CharData::Char(b));
            }
            if child_with_byte(s, ch, b) {
                let t = choose|t: int| 0 <= t < ch.len() && s[(#[trigger] ch[t]).start as int] == CharData::Char(b);
                lemma_spells_push(m, a, p, b);
                assert(spells(m, a, p.push(b)));
            }
        }
        assert(!(exists|c: int| #[trigger] holds(m, c, p))) by {
            if exists|c: int| #[trigger] holds(m, c, p) {
                let c = choose|c: int| #[trigger] holds(m, c, p);
                assert(spells(m, c, p));
            }
        }
    } else {
        assert(s[a] is End);
        assert(ch.len() == 0);
        assert(holds(m, a, p));
        assert forall|b: u8| #[trigger] continues(m, p, b) <==> child_with_byte(s, ch, b) by {
            if continues(m, p, b) {
                let c = choose|c: int| #[trigger] spells(m, c, p.push(b));
                lemma_spells_push(m, c, p, b);
            }
        }
    }
}

/// The setting of the lemmas below: a frontier group of two columns or more.
pub open spec fn multi_setting(m: Matrix, g: Range<usize>, p: Seq<u8>, d: int) -> bool {
    &&& m.wf()
    &&& m.well_shaped()
    &&& m.grouped()
    &&& frontier_ok(m, g, p, d)
    &&& g.end >= g.start + 2
}

proof fn lemma_multi_entry(m: Matrix, g: Range<usize>, p: Seq<u8>, d: int, t: int)
    requires
        multi_setting(m, g, p, d),
        0 <= t < split(m.line(d), g).len(),
    ensures
        ({
            let s = m.line(d);
            let x = split(s, g)[t];
            &&& g.start <= x.start < g.end
            &&& s[x.start as int] == CharData::End || ({
                &&& s[x.start as int] is Char
                &&& x.start < x.end <= g.end
                &&& uniform_on(s, x.start as int, x.end as int)
            })
        }),
{
    reveal(frontier_ok);
    lemma_frontier_basics(m, g, p, d);
    let s = m.line(d);
    let ch = split(s, g);
    let a = g.start as int;
    let bb = g.end as int;
    let e = lead_ends(s, a, bb);
    lemma_lead_ends_bound(s, a, bb);
    lemma_chars_after_ends(s, a, bb);
    let ends = ends_part(a, e);
    let runs = if a + e < bb {
        run_split(s, a + e, a + e + 1, bb)
    } else {
        seq![]
    };
    assert(ch == ends + runs);
    if t < ends.len() {
        lemma_ends_part_index(a, e, t);
        assert(ch[t] == ends[t]);
    } else {
        lemma_run_split_props(s, a + e, a + e + 1, bb);
        assert(ch[t] == runs[t - ends.len()]);
    }
}

proof fn lemma_multi_find(m: Matrix, g: Range<usize>, p: Seq<u8>, d: int, c: int) -> (t: int)
    requires
        multi_setting(m, g, p, d),
        g.start <= c < g.end,
        m.line(d)[c] is Char,
    ensures
        0 <= t < split(m.line(d), g).len(),
        split(m.line(d), g)[t].start <= c < split(m.line(d), g)[t].end,
        m.line(d)[split(m.line(d), g)[t].start as int] == m.line(d)[c],
{
    reveal(frontier_ok);
    lemma_frontier_basics(m, g, p, d);
    let s = m.line(d);
    let ch = split(s, g);
    let a = g.start as int;
    let bb = g.end as int;
    let e = lead_ends(s, a, bb);
    lemma_lead_ends_bound(s, a, bb);
    let ends = ends_part(a, e);
    assert(c >= a + e) by {
        if c < a + e {
            assert(s[c] == CharData::End);
        }
    }
    let runs = run_split(s, a + e, a + e + 1, bb);
    assert(ch == ends + runs);
    lemma_run_split_props(s, a + e, a + e + 1, bb);
    let u = lemma_consecutive_cover(runs, a + e, bb, c);
    assert(ch[ends.len() + u] == runs[u]);
    assert(uniform_on(s, runs[u].start as int, runs[u].end as int));
    ends.len() + u
}

proof fn lemma_multi_order(m: Matrix, g: Range<usize>, p: Seq<u8>, d: int, t1: int, t2: int)
    requires
        multi_setting(m, g, p, d),
        0 <= t1 < t2 < split(m.line(d), g).len(),
        m.line(d)[split(m.line(d), g)[t1].start as int] is Char,
    ensures
        m.line(d)[split(m.line(d), g)[t1].start as int].rank() < m.line(d)[split(m.line(d), g)[t2].start as int].rank(),
{
    reveal(frontier_ok);
    lemma_frontier_basics(m, g, p, d);
    let s = m.line(d);
    let ch = split(s, g);
    let a = g.start as int;
    let bb = g.end as int;
    let e = lead_ends(s, a, bb);
    lemma_lead_ends_bound(s, a, bb);
    let ends = ends_part(a, e);
    let runs = if a + e < bb {
        run_split(s, a + e, a + e + 1, bb)
    } else {
        seq![]
    };
    assert(ch == ends + runs);
    if t1 < ends.len() {
        lemma_ends_part_index(a, e, t1);
        assert(ch[t1] == ends[t1]);
    } else {
        lemma_run_split_order(s, a + e, a + e + 1, bb);
        assert(ch[t1] == runs[t1 - ends.len()]);
        assert(ch[t2] == runs[t2 - ends.len()]);
        lemma_ranks_increasing(s, runs, t1 - ends.len(), t2 - ends.len());
    }
}

proof fn lemma_multi_first(m: Matrix, g: Range<usize>, p: Seq<u8>, d: int)
    requires
        multi_setting(m, g, p, d),
    ensures
        split(m.line(d), g).len() > 0,
        m.line(d)[g.start as int] == CharData::End ==> split(m.line(d), g)[0].start == g.start,
{
    reveal(frontier_ok);
    lemma_frontier_basics(m, g, p, d);
    let s = m.line(d);
    let ch = split(s, g);
    let a = g.start as int;
    let bb = g.end as int;
    let e = lead_ends(s, a, bb);
    lemma_lead_ends_bound(s, a, bb);
    let ends = ends_part(a, e);
    let runs = if a + e < bb {
        run_split(s, a + e, a + e + 1, bb)
    } else {
        seq![]
    };
    assert(ch == ends + runs);
    if a + e < bb {
        lemma_run_split_props(s, a + e, a + e + 1, bb);
    }
    if e > 0 {
        lemma_ends_part_index(a, e, 0);
        assert(ch[0] == ends[0]);
    }
}

proof fn lemma_multi_child(m: Matrix, g: Range<usize>, p: Seq<u8>, d: int, t: int)
    requires
        multi_setting(m, g, p, d),
        0 <= t < split(m.line(d), g).len(),
        m.line(d)[split(m.line(d), g)[t].start as int] is Char,
    ensures
        ({
            let s = m.line(d);
            let x = split(s, g)[t];
            frontier_ok(m, x, p.push(byte_of(s[x.start as int])), d + 1)
        }),
{
    reveal(frontier_ok);
    lemma_frontier_basics(m, g, p, d);
    let s = m.line(d);
    let ch = split(s, g);
    let x = ch[t];
    lemma_multi_entry(m, g, p, d, t);
    let b = byte_of(s[x.start as int]);
    assert forall|c: int| 0 <= c < m.width() implies (x.start <= c < x.end <==> #[trigger] spells(m, c, p.push(b))) by {
        lemma_spells_push(m, c, p, b);
        if x.start <= c < x.end {
            assert(s[c] == s[x.start as int]);
            assert(spells(m, c, p));
            lemma_char_below_height(m, c, d);
        }
        if spells(m, c, p.push(b)) {
            assert(spells(m, c, p));
            let t2 = lemma_multi_find(m, g, p, d, c);
            if t2 < t {
                lemma_multi_order(m, g, p, d, t2, t);
            } else if t2 > t {
                lemma_multi_order(m, g, p, d, t, t2);
            }
        }
    }
}

proof fn lemma_expand_multi(m: Matrix, g: Range<usize>, p: Seq<u8>, d: int)
    requires
        multi_setting(m, g, p, d),
    ensures
        expands_to(m, g, p, d, split(m.line(d), g)),
{
    reveal(expands_to);
    reveal(frontier_ok);
    lemma_frontier_basics(m, g, p, d);
    lemma_multi_first(m, g, p, d);
    let s = m.line(d);
    let ch = split(s, g);
    let a = g.start as int;
    assert forall|t: int| 0 <= t < ch.len() implies (#[trigger] ch[t]).start < m.width() && (s[ch[t].start as int] is End || s[ch[t].start as int] is Char) by {
        lemma_multi_entry(m, g, p, d, t);
    }
    assert forall|t: int|
        0 <= t < ch.len() && s[(#[trigger] ch[t]).start as int] is Char implies frontier_ok(
            m,
            ch[t],
            p.push(byte_of(s[ch[t].start as int])),
            d + 1,
        ) by {
        lemma_multi_child(m, g, p, d, t);
    }
    assert forall|t1: int, t2: int|
        0 <= t1 < t2 < ch.len() && s[(#[trigger] ch[t1]).start as int] is Char && s[(#[trigger] ch[t2]).start as int] is Char
        implies s[ch[t1].start as int].rank() < s[ch[t2].start as int].rank() by {
        lemma_multi_order(m, g, p, d, t1, t2);
    }
    assert forall|b: u8| #[trigger] continues(m, p, b) <==> child_with_byte(s, ch, b) by {
        if continues(m, p, b) {
            let c = choose|c: int| #[trigger] spells(m, c, p.push(b));
            lemma_spells_push(m, c, p, b);
            let t = lemma_multi_find(m, g, p, d, c);
            assert(s[ch[t].start as int] == CharData::Char(b));
        }
        if child_with_byte(s, ch, b) {
            let t = choose|t: int| 0 <= t < ch.len() && s[(#[trigger] ch[t]).start as int] == CharData::Char(b);
            lemma_multi_entry(m, g, p, d, t);
            let c = ch[t].start as int;
            assert(spells(m, c, p));
            lemma_char_below_height(m, c, d);
            lemma_spells_push(m, c, p, b);
            assert(spells(m, c, p.push(b)));
        }
    }
    assert forall|t: int|
        0 <= t < ch.len() && s[(#[trigger] ch[t]).start as int] == CharData::End implies holds(m, ch[t].start as int, p) by {
        lemma_multi_entry(m, g, p, d, t);
        assert(spells(m, ch[t].start as int, p));
    }
    if exists|c: int| #[trigger] holds(m, c, p) {
        let c = choose|c: int| #[trigger] holds(m, c, p);
        assert(spells(m, c, p));
        assert(s[a] == CharData::End) by {
            assert(sorted_on(s, a, g.end as int));
            assert(s[a].rank() <= s[c].rank());
        }
        assert(s[ch[0].start as int] == CharData::End);
    }
    if exists|t: int| 0 <= t < ch.len() && s[(#[trigger] ch[t]).start as int] == CharData::End {
        let t = choose|t: int| 0 <= t < ch.len() && s[(#[trigger] ch[t]).start as int] == CharData::End;
        assert(holds(m, ch[t].start as int, p));
    }
}

/// Every frontier group expands as `expands_to` says.
pub(crate) proof fn lemma_expand(m: Matrix, g: Range<usize>, p: Seq<u8>, d: int)
    requires
        m.wf(),
        m.well_shaped(),
        m.grouped(),
        frontier_ok(m, g, p, d),
    ensures
        expands_to(m, g, p, d, split(m.line(d), g)),
{
    reveal(frontier_ok);
    if g.end == g.start + 1 {
        lemma_expand_single(m, g, p, d);
    } else {
        lemma_expand_multi(m, g, p, d);
    }
}

/// A node as it is created, before it is filled in.
pub open spec fn fresh(t: Node) -> bool {
    &&& t.bits() == 0
    &&& t.first_child() == 0
    &&& t.children_end() == 0
    &&& t.id() is None
}

/// Node `y` of `nodes` is finished for the path `paths[y]`: its children lie
/// within the list, it has a child for a byte exactly when some string
/// continues the path with that byte, that child has the longer path, and it
/// has an id exactly when some string is the path, the id of the last
/// column that holds it.
#[verifier::opaque]
pub open spec fn node_done(m: Matrix, nodes: Seq<Node>, paths: Seq<Seq<u8>>, y: int) -> bool {
    let t = nodes[y];
    let p = paths[y];
    &&& 0 <= t.first_child()
    &&& t.first_child() + popcount(t.bits()) <= nodes.len()
    &&& t.children_end() == t.first_child() + popcount(t.bits())
    &&& forall|b: u8| #[trigger] bit(t.bits(), b as int) <==> continues(m, p, b)
    &&& forall|b: u8|
        #[trigger] bit(t.bits(), b as int) ==> paths[t.first_child() + ones_below(t.bits(), b as int)] == p.push(b)
    &&& (t.id() is Some <==> exists|c: int| #[trigger] holds(m, c, p))
    &&& (t.id() matches Some(v) ==> exists|c: int| #[trigger] last_holder(m, c, p) && m.ids()[c] == v)
    &&& (t.first_child() == 0 <==> (t.bits() == 0 && !held_twice(m, p)))
}

proof fn lemma_done_stable(
    m: Matrix,
    nodes: Seq<Node>,
    paths: Seq<Seq<u8>>,
    nodes2: Seq<Node>,
    paths2: Seq<Seq<u8>>,
    y: int,
)
    requires
        node_done(m, nodes, paths, y),
        nodes.len() == paths.len(),
        nodes2.len() >= nodes.len(),
        paths2.len() >= paths.len(),
        nodes2[y] == nodes[y],
        forall|j: int| 0 <= j < paths.len() ==> #[trigger] paths2[j] == paths[j],
        0 <= y < nodes.len(),
    ensures
        node_done(m, nodes2, paths2, y),
{
    reveal(node_done);
    let t = nodes[y];
    let p = paths[y];
    assert(nodes2[y] == t);
    assert(paths2[y] == p);
    assert forall|b: u8|
        #[trigger] bit(t.bits(), b as int) implies paths2[t.first_child() + ones_below(t.bits(), b as int)] == p.push(b) by {
        crate::bitset::lemma_rank_fits(t.bits(), b as int);
        lemma_ones_below_bounds(t.bits(), b as int);
        assert(paths[t.first_child() + ones_below(t.bits(), b as int)] == p.push(b));
    }
    assert forall|b: u8| #[trigger] bit(t.bits(), b as int) <==> continues(m, p, b) by {}
    assert(t.id() is Some <==> exists|c: int| #[trigger] holds(m, c, p));
    assert(t.id() matches Some(v) ==> exists|c: int| #[trigger] last_holder(m, c, p) && m.ids()[c] == v);
}

/// How many of the first `w` groups start with a byte.
pub open spec fn char_count(s: Seq<CharData>, ch: Seq<Range<usize>>, w: int) -> int
    decreases w,
{
    if w <= 0 {
        0
    } else {
        char_count(s, ch, w - 1) + if s[ch[w - 1].start as int] is Char {
            1int
        } else {
            0int
        }
    }
}

proof fn lemma_char_count_monotone(s: Seq<CharData>, ch: Seq<Range<usize>>, a: int, b: int)
    requires
        0 <= a <= b,
    ensures
        char_count(s, ch, a) <= char_count(s, ch, b),
        char_count(s, ch, b) <= char_count(s, ch, a) + (b - a),
        0 <= char_count(s, ch, a),
    decreases b - a,
{
    if a < b {
        lemma_char_count_monotone(s, ch, a, b - 1);
    } else {
        lemma_char_count_nonneg(s, ch, a);
    }
}

proof fn lemma_char_count_nonneg(s: Seq<CharData>, ch: Seq<Range<usize>>, a: int)
    ensures
        0 <= char_count(s, ch, a),
    decreases a,
{
    if a > 0 {
        lemma_char_count_nonneg(s, ch, a - 1);
    }
}

/// The bytes of the groups among the first `w` that start with one, as a
/// bit set, with each such byte's rank equal to the number of byte groups
/// before it.
#[verifier::opaque]
pub open spec fn table_tracks(s: Seq<CharData>, ch: Seq<Range<usize>>, w: int, table: u128) -> bool {
    &&& forall|b: u8| #[trigger] bit(table, b as int) <==> child_with_byte(s, ch.take(w), b)
    &&& popcount(table) == char_count(s, ch, w)
    &&& forall|t: int|
        0 <= t < w && s[(#[trigger] ch[t]).start as int] is Char ==> ones_below(
            table,
            byte_of(s[ch[t].start as int]) as int,
        ) == char_count(s, ch, t)
}

/// The groups that start with a byte do so in increasing order.
#[verifier::opaque]
pub open spec fn bytes_increase(s: Seq<CharData>, ch: Seq<Range<usize>>) -> bool {
    forall|t1: int, t2: int|
        0 <= t1 < t2 < ch.len() && s[(#[trigger] ch[t1]).start as int] is Char && s[(#[trigger] ch[t2]).start as int] is Char
            ==> s[ch[t1].start as int].rank() < s[ch[t2].start as int].rank()
}

proof fn lemma_table_empty(s: Seq<CharData>, ch: Seq<Range<usize>>)
    ensures
        table_tracks(s, ch, 0, 0u128),
{
    reveal(table_tracks);
    reveal(bytes_increase);    assert forall|b: u8| #[trigger] bit(0u128, b as int) <==> child_with_byte(s, ch.take(0), b) by {
        lemma_zero_bits(b as int);
    }
    assert forall|j: int| 0 <= j < 128 implies !bit(0u128, j) by {
        lemma_zero_bits(j);
    }
    lemma_count_below_all(0u128, 0, 128);
}

proof fn lemma_table_char(s: Seq<CharData>, ch: Seq<Range<usize>>, tw: int, table: u128, b: u8)
    requires
        0 <= tw < ch.len(),
        s[ch[tw].start as int] == CharData::Char(b),
        b < 128,
        bytes_increase(s, ch),
        table_tracks(s, ch, tw, table),
    ensures
        table_tracks(s, ch, tw + 1, table | (1u128 << b)),
        ones_below(table | (1u128 << b), b as int) == char_count(s, ch, tw),
{
    reveal(table_tracks);
    reveal(bytes_increase);    lemma_shl_one(b);
    let nt = table | (1u128 << b);
    assert forall|j: int| b <= j < 128 implies !bit(table, j) by {
        if bit(table, j) {
            let bj = j as u8;
            assert(bit(table, bj as int));
            assert(child_with_byte(s, ch.take(tw), bj));
            let t = choose|t: int| 0 <= t < ch.take(tw).len() && s[(#[trigger] ch.take(tw)[t]).start as int] == CharData::Char(bj);
            assert(ch.take(tw)[t] == ch[t]);
            assert(s[ch[t].start as int].rank() < s[ch[tw].start as int].rank());
        }
    }
    lemma_count_below_all(table, b as int, 128);
    lemma_or_counts(table, b as int, 128);
    lemma_or_counts(table, b as int, b as int);
    assert(ch.take(tw + 1)[tw] == ch[tw]);
    assert forall|b2: u8| #[trigger] bit(nt, b2 as int) <==> child_with_byte(s, ch.take(tw + 1), b2) by {
        lemma_or_bit(table, b as int, b2 as int);
        if child_with_byte(s, ch.take(tw + 1), b2) {
            let t = choose|t: int| 0 <= t < ch.take(tw + 1).len() && s[(#[trigger] ch.take(tw + 1)[t]).start as int] == CharData::Char(b2);
            if t < tw {
                assert(ch.take(tw)[t] == ch.take(tw + 1)[t]);
            }
        }
        if child_with_byte(s, ch.take(tw), b2) {
            let t = choose|t: int| 0 <= t < ch.take(tw).len() && s[(#[trigger] ch.take(tw)[t]).start as int] == CharData::Char(b2);
            assert(ch.take(tw)[t] == ch.take(tw + 1)[t]);
        }
    }
    assert forall|t: int|
        0 <= t < tw + 1 && s[(#[trigger] ch[t]).start as int] is Char implies ones_below(
            nt,
            byte_of(s[ch[t].start as int]) as int,
        ) == char_count(s, ch, t) by {
        let bt = byte_of(s[ch[t].start as int]);
        if t < tw {
            assert(s[ch[t].start as int].rank() < s[ch[tw].start as int].rank());
            lemma_or_counts(table, b as int, bt as int);
        }
    }
}

proof fn lemma_table_other(s: Seq<CharData>, ch: Seq<Range<usize>>, tw: int, table: u128)
    requires
        0 <= tw < ch.len(),
        !(s[ch[tw].start as int] is Char),
        table_tracks(s, ch, tw, table),
    ensures
        table_tracks(s, ch, tw + 1, table),
{
    reveal(table_tracks);
    reveal(bytes_increase);    assert(ch.take(tw + 1)[tw] == ch[tw]);
    assert forall|b2: u8| #[trigger] bit(table, b2 as int) <==> child_with_byte(s, ch.take(tw + 1), b2) by {
        if child_with_byte(s, ch.take(tw + 1), b2) {
            let t = choose|t: int| 0 <= t < ch.take(tw + 1).len() && s[(#[trigger] ch.take(tw + 1)[t]).start as int] == CharData::Char(b2);
            if t < tw {
                assert(ch.take(tw)[t] == ch.take(tw + 1)[t]);
            }
        }
        if child_with_byte(s, ch.take(tw), b2) {
            let t = choose|t: int| 0 <= t < ch.take(tw).len() && s[(#[trigger] ch.take(tw)[t]).start as int] == CharData::Char(b2);
            assert(ch.take(tw)[t] == ch.take(tw + 1)[t]);
        }
    }
}

proof fn lemma_finish_node(
    m: Matrix,
    g: Range<usize>,
    p: Seq<u8>,
    d: int,
    ch: Seq<Range<usize>>,
    table: u128,
    start: int,
    nodes: Seq<Node>,
    paths: Seq<Seq<u8>>,
    loc: int,
)
    requires
        m.wf(),
        m.well_shaped(),
        m.grouped(),
        frontier_ok(m, g, p, d),
        expands_to(m, g, p, d, ch),
        ch.len() > 0,
        0 <= loc < nodes.len(),
        1 <= start,
        nodes.len() == start + char_count(m.line(d), ch, ch.len() as int),
        table_tracks(m.line(d), ch, ch.len() as int, table),
        forall|t: int|
            0 <= t < ch.len() && m.line(d)[(#[trigger] ch[t]).start as int] is Char ==> paths[start + char_count(m.line(d), ch, t)]
                == p.push(byte_of(m.line(d)[ch[t].start as int])),
        nodes[loc].bits() == table,
        nodes[loc].first_child() == start,
        nodes[loc].children_end() == start + char_count(m.line(d), ch, ch.len() as int),
        paths[loc] == p,
        nodes[loc].id() is Some <==> exists|t: int|
            0 <= t < ch.len() && m.line(d)[(#[trigger] ch[t]).start as int] == CharData::End,
        nodes[loc].id() matches Some(v) ==> exists|t: int|
            0 <= t < ch.len() && m.line(d)[(#[trigger] ch[t]).start as int] == CharData::End && m.ids()[ch[t].start as int] == v
                && no_end_after(m.line(d), ch, t, ch.len() as int),
    ensures
        node_done(m, nodes, paths, loc),
{
    reveal(table_tracks);
    reveal(bytes_increase);    reveal(expands_to);
    reveal(node_done);
    let s = m.line(d);
    let t = nodes[loc];
    assert(ch.take(ch.len() as int) =~= ch);
    assert forall|b: u8| #[trigger] bit(t.bits(), b as int) <==> continues(m, p, b) by {
        assert(bit(table, b as int) <==> child_with_byte(s, ch, b));
    }
    assert forall|b: u8|
        #[trigger] bit(t.bits(), b as int) implies paths[t.first_child() + ones_below(t.bits(), b as int)] == p.push(b) by {
        assert(child_with_byte(s, ch, b));
        let tt = choose|tt: int| 0 <= tt < ch.len() && s[(#[trigger] ch[tt]).start as int] == CharData::Char(b);
        assert(s[ch[tt].start as int] is Char);
        assert(byte_of(s[ch[tt].start as int]) == b);
    }
    if t.id() is Some {
        let tt = choose|tt: int| 0 <= tt < ch.len() && s[(#[trigger] ch[tt]).start as int] == CharData::End && m.ids()[ch[tt].start as int] == t.id().unwrap()
            && no_end_after(s, ch, tt, ch.len() as int);
        assert(ch == split(s, g));
        lemma_last_end(m, g, p, d, tt);
        assert(last_holder(m, ch[tt].start as int, p));
    }
    if table == 0 {
        assert forall|t2: int| 0 <= t2 < ch.len() implies !(s[(#[trigger] ch[t2]).start as int] is Char) by {
            if s[ch[t2].start as int] is Char {
                let b = byte_of(s[ch[t2].start as int]);
                assert(child_with_byte(s, ch, b));
                assert(bit(table, b as int));
                lemma_zero_bits(b as int);
            }
        }
        assert(ch == split(s, g));
        lemma_shared(m, g, p, d);
    }
}

/// A frontier group that splits into groups none of which starts with a
/// byte holds two columns or more, all of which hold the path.
proof fn lemma_shared(m: Matrix, g: Range<usize>, p: Seq<u8>, d: int)
    requires
        m.wf(),
        m.well_shaped(),
        m.grouped(),
        frontier_ok(m, g, p, d),
        split(m.line(d), g).len() > 0,
        forall|t: int|
            0 <= t < split(m.line(d), g).len() ==> !(m.line(d)[(#[trigger] split(m.line(d), g)[t]).start as int] is Char),
    ensures
        held_twice(m, p),
{
    reveal(frontier_ok);
    lemma_frontier_basics(m, g, p, d);
    let s = m.line(d);
    let ch = split(s, g);
    let a = g.start as int;
    let b = g.end as int;
    if b == a + 1 {
        if s[a] is Char {
            assert(ch == seq![g]);
            assert(ch[0].start == a);
        }
    } else {
        lemma_lead_ends_bound(s, a, b);
        lemma_chars_after_ends(s, a, b);
        let e = lead_ends(s, a, b);
        let ends = ends_part(a, e);
        if a + e < b {
            let rest = run_split(s, a + e, a + e + 1, b);
            lemma_run_split_props(s, a + e, a + e + 1, b);
            assert(ch == ends + rest);
            assert(ch[ends.len() as int] == rest[0]);
            assert(s[a + e] is Char);
        }
        assert(e == b - a);
        assert(spells(m, a, p));
        assert(spells(m, a + 1, p));
        assert(holds(m, a, p));
        assert(holds(m, a + 1, p));
    }
}

/// A frontier group that splits into nothing is a single column, the only
/// one holding the path.
proof fn lemma_leaf_last(m: Matrix, g: Range<usize>, p: Seq<u8>, d: int)
    requires
        m.wf(),
        m.well_shaped(),
        m.grouped(),
        frontier_ok(m, g, p, d),
        split(m.line(d), g).len() == 0,
    ensures
        last_holder(m, g.start as int, p),
        !held_twice(m, p),
{
    reveal(frontier_ok);
    lemma_frontier_basics(m, g, p, d);
    let s = m.line(d);
    let a = g.start as int;
    let b = g.end as int;
    if b >= a + 2 {
        lemma_lead_ends_bound(s, a, b);
        let e = lead_ends(s, a, b);
        if e > 0 {
            lemma_ends_part_index(a, e, 0);
        } else {
            lemma_run_split_props(s, a, a + 1, b);
        }
    }
    assert(b == a + 1);
    assert(spells(m, a, p));
    assert(!(s[a] is Char));
    assert forall|c2: int| a < c2 implies !#[trigger] holds(m, c2, p) by {
        if holds(m, c2, p) {
            assert(spells(m, c2, p));
        }
    }
    if held_twice(m, p) {
        let (c1, c2) = choose|c1: int, c2: int| c1 < c2 && #[trigger] holds(m, c1, p) && #[trigger] holds(m, c2, p);
        assert(spells(m, c1, p));
        assert(spells(m, c2, p));
    }
}

/// The empty set has no members.
proof fn lemma_popcount_zero()
    ensures
        popcount(0u128) == 0,
{
    assert forall|j: int| 0 <= j < 128 implies !bit(0u128, j) by {
        lemma_zero_bits(j);
    }
    lemma_count_below_all(0u128, 0, 128);
}

/// How many children the nodes before position `x` have.
pub open spec fn children_before(nodes: Seq<Node>, x: int) -> int
    decreases x,
{
    if x <= 0 {
        0
    } else {
        children_before(nodes, x - 1) + popcount(nodes[x - 1].bits())
    }
}

/// The nodes' child ranges follow one another in node order, from position
/// 1 to the end of the list: the children of node `x`, if it has any, start
/// right after those of the nodes before it, and after `x` itself; a node
/// without children has its range there too, or at position 0. So every
/// node but the root is the child of exactly one node, which comes before it.
pub open spec fn breadth_first(nodes: Seq<Node>) -> bool {
    &&& nodes.len() == 1 + children_before(nodes, nodes.len() as int)
    &&& forall|x: int|
        0 <= x < nodes.len() ==> x < 1 + #[trigger] children_before(nodes, x) && (popcount(
            nodes[x].bits(),
        ) > 0 ==> nodes[x].first_child() == 1 + children_before(nodes, x)) && (nodes[x].first_child() == 0
            || nodes[x].first_child() == 1 + children_before(nodes, x))
}

proof fn lemma_children_before_same(n1: Seq<Node>, n2: Seq<Node>, k: int, x: int)
    requires
        0 <= x <= k,
        k <= n1.len(),
        k <= n2.len(),
        forall|y: int| 0 <= y < k ==> #[trigger] n1[y] == n2[y],
    ensures
        children_before(n1, x) == children_before(n2, x),
    decreases x,
{
    if x > 0 {
        lemma_children_before_same(n1, n2, k, x - 1);
        assert(n1[x - 1] == n2[x - 1]);
    }
}

/// None of the groups `ch[t + 1..w]` starts with an end marker.
pub open spec fn no_end_after(s: Seq<CharData>, ch: Seq<Range<usize>>, t: int, w: int) -> bool {
    forall|t2: int| t < t2 < w ==> s[(#[trigger] ch[t2]).start as int] != CharData::End
}

/// The last group of a frontier group's split that starts with an end
/// marker starts at the last column holding the path.
proof fn lemma_last_end(m: Matrix, g: Range<usize>, p: Seq<u8>, d: int, t: int)
    requires
        m.wf(),
        m.well_shaped(),
        m.grouped(),
        frontier_ok(m, g, p, d),
        0 <= t < split(m.line(d), g).len(),
        m.line(d)[split(m.line(d), g)[t].start as int] == CharData::End,
        no_end_after(m.line(d), split(m.line(d), g), t, split(m.line(d), g).len() as int),
    ensures
        last_holder(m, split(m.line(d), g)[t].start as int, p),
{
    reveal(frontier_ok);
    lemma_frontier_basics(m, g, p, d);
    let s = m.line(d);
    let ch = split(s, g);
    let a = g.start as int;
    let b = g.end as int;
    if b == a + 1 {
        if s[a] is Char {
            assert(ch == seq![g]);
        }
    } else {
        lemma_lead_ends_bound(s, a, b);
        lemma_chars_after_ends(s, a, b);
        let e = lead_ends(s, a, b);
        let ends = ends_part(a, e);
        let rest = if a + e < b {
            run_split(s, a + e, a + e + 1, b)
        } else {
            seq![]
        };
        assert(ch == ends + rest);
        if a + e < b {
            lemma_run_split_props(s, a + e, a + e + 1, b);
        }
        if t >= ends.len() {
            assert(ch[t] == rest[t - ends.len()]);
            assert(s[ch[t].start as int] is Char);
        }
        assert(e > 0);
        lemma_ends_part_index(a, e, e);
        if t < e {
            assert(ch[e] == ends[e]);
            assert(s[a + e - 1] == CharData::End);
        }
        assert(t == e);
        let c = a + e - 1;
        assert(ch[t] == ends[t]);
        assert(ch[t].start == c);
        assert(spells(m, c, p));
        assert forall|c2: int| c < c2 implies !#[trigger] holds(m, c2, p) by {
            if holds(m, c2, p) {
                assert(spells(m, c2, p));
                assert(s[c2] is Char);
            }
        }
    }
}

/// Each group starts at a column with an end marker or a byte, and each
/// that starts with a byte (below 128) is a frontier group for the longer path.
#[verifier::opaque]
pub open spec fn children_ok(m: Matrix, p: Seq<u8>, d: int, ch: Seq<Range<usize>>) -> bool {
    forall|t: int|
        0 <= t < ch.len() ==> {
            let x = #[trigger] ch[t];
            let v = m.line(d)[x.start as int];
            &&& x.start < m.width()
            &&& v is End || v is Char
            &&& v is Char ==> byte_of(v) < 128 && frontier_ok(m, x, p.push(byte_of(v)), d + 1)
        }
}

proof fn lemma_children_ok_entry(m: Matrix, p: Seq<u8>, d: int, ch: Seq<Range<usize>>, t: int)
    requires
        children_ok(m, p, d, ch),
        0 <= t < ch.len(),
    ensures
        ch[t].start < m.width(),
        m.line(d)[ch[t].start as int] is End || m.line(d)[ch[t].start as int] is Char,
        m.line(d)[ch[t].start as int] is Char ==> byte_of(m.line(d)[ch[t].start as int]) < 128
            && frontier_ok(m, ch[t], p.push(byte_of(m.line(d)[ch[t].start as int])), d + 1),
{
    reveal(children_ok);
}

proof fn lemma_expands_facts(m: Matrix, g: Range<usize>, p: Seq<u8>, d: int, ch: Seq<Range<usize>>)
    requires
        expands_to(m, g, p, d, ch),
        seven_bit_matrix(m),
        0 <= d < m.height(),
    ensures
        ch == split(m.line(d), g),
        bytes_increase(m.line(d), ch),
        children_ok(m, p, d, ch),
        ch.len() > 0 ==> m.table(d).contains_key(g) && m.table(d)[g] == ch,
        ch.len() == 0 ==> !m.table(d).contains_key(g),
        ch.len() == 0 ==> holds(m, g.start as int, p),
        ch.len() == 0 ==> forall|b: u8| !#[trigger] continues(m, p, b),
{
    reveal(children_ok);
    reveal(bytes_increase);    reveal(expands_to);
    let s = m.line(d);
    assert forall|t: int| 0 <= t < ch.len() implies {
        let x = #[trigger] ch[t];
        let v = m.line(d)[x.start as int];
        &&& x.start < m.width()
        &&& v is End || v is Char
        &&& v is Char ==> byte_of(v) < 128 && frontier_ok(m, x, p.push(byte_of(v)), d + 1)
    } by {
        assert(seven_bit_value(m.line(d)[ch[t].start as int]));
    }
    if ch.len() == 0 {
        assert forall|b: u8| !#[trigger] continues(m, p, b) by {
            assert(!child_with_byte(s, ch, b));
        }
    }
}

/// A range of columns waiting to become a node's children, and that node.
struct BuildingProcessPair {
    represent: Range<usize>,
    location: usize,
}

/// The frontier entries `v` of `next`: each is a group at depth `d` for its
/// node's path, its node sits at `base + v`, and that node is fresh.
#[verifier::opaque]
spec fn frontier_list(m: Matrix, next: Seq<BuildingProcessPair>, nodes: Seq<Node>, paths: Seq<Seq<u8>>, base: int, d: int) -> bool {
    forall|v: int|
        0 <= v < next.len() ==> {
            let e = #[trigger] next[v];
            &&& e.location == base + v
            &&& base + v < nodes.len()
            &&& frontier_ok(m, e.represent, paths[base + v], d)
            &&& fresh(nodes[base + v])
        }
}

proof fn lemma_frontier_list_entry(m: Matrix, next: Seq<BuildingProcessPair>, nodes: Seq<Node>, paths: Seq<Seq<u8>>, base: int, d: int, v: int)
    requires
        frontier_list(m, next, nodes, paths, base, d),
        0 <= v < next.len(),
    ensures
        next[v].location == base + v,
        base + v < nodes.len(),
        frontier_ok(m, next[v].represent, paths[base + v], d),
        fresh(nodes[base + v]),
{
    reveal(frontier_list);
}

proof fn lemma_frontier_list_push(
    m: Matrix,
    next: Seq<BuildingProcessPair>,
    nodes: Seq<Node>,
    paths: Seq<Seq<u8>>,
    next2: Seq<BuildingProcessPair>,
    nodes2: Seq<Node>,
    paths2: Seq<Seq<u8>>,
    base: int,
    d: int,
)
    requires
        frontier_list(m, next, nodes, paths, base, d),
        nodes.len() == base + next.len(),
        next2.len() == next.len() + 1,
        nodes2.len() == nodes.len() + 1,
        paths2.len() >= nodes2.len(),
        forall|v: int| 0 <= v < next.len() ==> #[trigger] next2[v] == next[v],
        forall|y: int| 0 <= y < nodes.len() ==> #[trigger] nodes2[y] == nodes[y],
        forall|y: int| 0 <= y < nodes.len() ==> #[trigger] paths2[y] == paths[y],
        next2.last().location == nodes.len(),
        frontier_ok(m, next2.last().represent, paths2[nodes.len() as int], d),
        fresh(nodes2.last()),
    ensures
        frontier_list(m, next2, nodes2, paths2, base, d),
{
    reveal(frontier_list);
    assert forall|v: int| 0 <= v < next2.len() implies {
        let e = #[trigger] next2[v];
        &&& e.location == base + v
        &&& base + v < nodes2.len()
        &&& frontier_ok(m, e.represent, paths2[base + v], d)
        &&& fresh(nodes2[base + v])
    } by {
        if v < next.len() {
            assert(next2[v] == next[v]);
        }
    }
}

proof fn lemma_frontier_list_same(
    m: Matrix,
    next: Seq<BuildingProcessPair>,
    nodes: Seq<Node>,
    nodes2: Seq<Node>,
    paths: Seq<Seq<u8>>,
    base: int,
    d: int,
    loc: int,
)
    requires
        frontier_list(m, next, nodes, paths, base, d),
        0 <= loc < base,
        nodes2.len() == nodes.len(),
        forall|y: int| 0 <= y < nodes.len() && y != loc ==> #[trigger] nodes2[y] == nodes[y],
    ensures
        frontier_list(m, next, nodes2, paths, base, d),
{
    reveal(frontier_list);
    assert forall|v: int| 0 <= v < next.len() implies {
        let e = #[trigger] next[v];
        &&& e.location == base + v
        &&& base + v < nodes2.len()
        &&& frontier_ok(m, e.represent, paths[base + v], d)
        &&& fresh(nodes2[base + v])
    } by {
        lemma_frontier_list_entry(m, next, nodes, paths, base, d, v);
        assert(nodes2[base + v] == nodes[base + v]);
    }
}

/// Appends a fresh node.
fn push_fresh(result: &mut Vec<Node>)
    ensures
        final(result)@.len() == old(result)@.len() + 1,
        forall|y: int| 0 <= y < old(result)@.len() ==> #[trigger] final(result)@[y] == old(result)@[y],
        fresh(final(result)@.last()),
{
    result.push(Node { table: 0, range_start: 0, range_end: 0, payload: None });
}

/// Sets the id of node `loc`.
fn set_payload(result: &mut Vec<Node>, loc: usize, v: i64)
    requires
        loc < old(result)@.len(),
    ensures
        final(result)@.len() == old(result)@.len(),
        forall|y: int| 0 <= y < old(result)@.len() && y != loc ==> #[trigger] final(result)@[y] == old(result)@[y],
        final(result)@[loc as int].bits() == old(result)@[loc as int].bits(),
        final(result)@[loc as int].first_child() == old(result)@[loc as int].first_child(),
        final(result)@[loc as int].children_end() == old(result)@[loc as int].children_end(),
        final(result)@[loc as int].id() == Some(v),
{
    result[loc].payload = Some(v);
}

/// Sets the byte set and child range of node `loc`.
fn set_children(result: &mut Vec<Node>, loc: usize, table: u128, start: usize, end: usize)
    requires
        loc < old(result)@.len(),
    ensures
        final(result)@.len() == old(result)@.len(),
        forall|y: int| 0 <= y < old(result)@.len() && y != loc ==> #[trigger] final(result)@[y] == old(result)@[y],
        final(result)@[loc as int].bits() == table,
        final(result)@[loc as int].first_child() == start,
        final(result)@[loc as int].children_end() == end,
        final(result)@[loc as int].id() == old(result)@[loc as int].id(),
{
    result[loc].table = table;
    result[loc].range_start = start;
    result[loc].range_end = end;
}

impl Matrix {
    /// Fills in node `loc` for group `g` at line `idx`: appends a fresh node
    /// for each of its groups that starts with a byte (queued in `next`), sets
    /// its byte set and child range, and its id if a string ends here.
    fn expand_node(
        &self,
        idx: usize,
        g: &Range<usize>,
        loc: usize,
        result: &mut Vec<Node>,
        next: &mut Vec<BuildingProcessPair>,
        Ghost(paths): Ghost<Seq<Seq<u8>>>,
        Ghost(nbase): Ghost<int>,
    ) -> (new_paths: Ghost<Seq<Seq<u8>>>)
        requires
            self.wf(),
            self.well_shaped(),
            self.grouped(),
            seven_bit_matrix(*self),
            idx < self.sorted_ranges@.len(),
            loc < nbase,
            loc < old(result)@.len(),
            paths.len() == old(result)@.len(),
            frontier_ok(*self, *g, paths[loc as int], idx as int),
            fresh(old(result)@[loc as int]),
            old(result)@.len() == nbase + old(next)@.len(),
            frontier_list(*self, old(next)@, old(result)@, paths, nbase, idx + 1),
        ensures
            final(result)@.len() == new_paths@.len(),
            final(result)@.len() >= old(result)@.len(),
            forall|j: int| 0 <= j < paths.len() ==> #[trigger] new_paths@[j] == paths[j],
            forall|y: int| 0 <= y < old(result)@.len() && y != loc ==> #[trigger] final(result)@[y] == old(result)@[y],
            node_done(*self, final(result)@, new_paths@, loc as int),
            final(result)@.len() == nbase + final(next)@.len(),
            final(next)@.len() >= old(next)@.len(),
            forall|v: int| 0 <= v < old(next)@.len() ==> #[trigger] final(next)@[v] == old(next)@[v],
            frontier_list(*self, final(next)@, final(result)@, new_paths@, nbase, idx + 1),
            final(result)@.len() == old(result)@.len() + popcount(final(result)@[loc as int].bits()),
            popcount(final(result)@[loc as int].bits()) > 0 ==> final(result)@[loc as int].first_child()
                == old(result)@.len(),
            final(result)@[loc as int].first_child() == 0 || final(result)@[loc as int].first_child()
                == old(result)@.len(),
    {
        let ghost m = *self;
        let ghost p = paths[loc as int];
        let ghost d = idx as int;
        proof {
            lemma_expand(m, *g, p, d);
        }
        let ghost s = m.line(d);
        let ghost ch = split(s, *g);
        let ghost old_result = result@;
        let ghost old_next = next@;
        let mut new_paths: Ghost<Seq<Seq<u8>>> = Ghost(paths);
        proof {
            lemma_frontier_basics(m, *g, p, d);
            lemma_expands_facts(m, *g, p, d, ch);
            assert(m.table(d) == self.sorted_ranges@[idx as int]@);
            assert(self.sorted_ranges@[idx as int].wf());
        }
        let children = self.sorted_ranges[idx].get(g);
        match children {
            Some(children) => {
                assert(children@ == ch);
                let mut table: u128 = 0;
                let start = result.len();
                let mut w: usize = 0;
                proof {
                    lemma_table_empty(s, ch);
                }
                while w < children.len()
                    invariant
                        m == *self,
                        m.wf(),
                        d == idx,
                        d < m.height(),
                        s == m.line(d),
                        bytes_increase(s, ch),
                        children_ok(m, p, d, ch),
                        children@ == ch,
                        w <= ch.len(),
                        loc < old_result.len(),
                        loc < nbase,
                        start == old_result.len(),
                        result@.len() == start + char_count(s, ch, w as int),
                        new_paths@.len() == result@.len(),
                        paths.len() == old_result.len(),
                        forall|j: int| 0 <= j < paths.len() ==> #[trigger] new_paths@[j] == paths[j],
                        forall|y: int| 0 <= y < old_result.len() && y != loc ==> #[trigger] result@[y] == old_result[y],
                        result@[loc as int].bits() == 0,
                        result@[loc as int].first_child() == 0,
                        result@[loc as int].children_end() == 0,
                        result@[loc as int].id() is Some <==> exists|t: int|
                            0 <= t < w && s[(#[trigger] ch[t]).start as int] == CharData::End,
                        result@[loc as int].id() matches Some(v) ==> exists|t: int|
                            0 <= t < w && s[(#[trigger] ch[t]).start as int] == CharData::End && m.ids()[ch[t].start as int] == v
                                && no_end_after(s, ch, t, w as int),
                        table_tracks(s, ch, w as int, table),
                        forall|t: int|
                            0 <= t < w && s[(#[trigger] ch[t]).start as int] is Char ==> new_paths@[start + char_count(s, ch, t)]
                                == p.push(byte_of(s[ch[t].start as int])),
                        next@.len() == old_next.len() + char_count(s, ch, w as int),
                        forall|v: int| 0 <= v < old_next.len() ==> #[trigger] next@[v] == old_next[v],
                        result@.len() == nbase + next@.len(),
                        frontier_list(m, next@, result@, new_paths@, nbase, d + 1),
                    decreases ch.len() - w,
                {
                    let child = &children[w];
                    let ghost tw = w as int;
                    assert(ch[tw] == *child);
                    proof {
                        lemma_children_ok_entry(m, p, d, ch, tw);
                    }
                    let c = self.lines[idx][child.start];
                    let ghost before_result = result@;
                    let ghost before_next = next@;
                    let ghost before_paths = new_paths@;
                    match c {
                        CharData::Char(b) => {
                            proof {
                                assert(s[ch[tw].start as int] == CharData::Char(b));
                                lemma_table_char(s, ch, tw, table, b);
                                lemma_char_count_nonneg(s, ch, tw);
                            }
                            table = table | (1u128 << b);
                            push_fresh(result);
                            let location = result.len() - 1;
                            next.push(BuildingProcessPair { represent: child.start..child.end, location });
                            proof {
                                let np = p.push(b);
                                new_paths@ = new_paths@.push(np);
                                assert forall|j: int| 0 <= j < paths.len() implies #[trigger] new_paths@[j] == paths[j] by {
                                    assert(new_paths@[j] == before_paths[j]);
                                }
                                assert forall|y: int| 0 <= y < old_result.len() && y != loc implies #[trigger] result@[y] == old_result[y] by {
                                    assert(result@[y] == before_result[y]);
                                }
                                assert(result@[loc as int] == before_result[loc as int]);
                                lemma_frontier_list_push(m, before_next, before_result, before_paths, next@, result@, new_paths@, nbase, d + 1);
                                assert forall|t: int|
                                    0 <= t < tw + 1 && s[(#[trigger] ch[t]).start as int] is Char implies new_paths@[start + char_count(s, ch, t)]
                                        == p.push(byte_of(s[ch[t].start as int])) by {
                                    if t < tw {
                                        lemma_char_count_monotone(s, ch, t + 1, tw);
                                    }
                                }
                            }
                        },
                        CharData::End => {
                            let payload = self.id_line[child.start];
                            set_payload(result, loc, payload);
                            proof {
                                assert(s[ch[tw].start as int] == CharData::End);
                                lemma_table_other(s, ch, tw, table);
                                lemma_char_count_nonneg(s, ch, tw);
                                assert forall|y: int| 0 <= y < old_result.len() && y != loc implies #[trigger] result@[y] == old_result[y] by {
                                    assert(result@[y] == before_result[y]);
                                }
                                lemma_frontier_list_same(m, next@, before_result, result@, new_paths@, nbase, d + 1, loc as int);
                            }
                        },
                        CharData::Blank => {
                            proof {
                                assert(s[ch[tw].start as int] is End || s[ch[tw].start as int] is Char);
                            }
                        },
                    }
                    w = w + 1;
                }
                proof {
                    lemma_char_count_nonneg(s, ch, w as int);
                }
                let added = result.len() - start;
                let ghost before_result = result@;
                set_children(result, loc, table, start, start + added);
                proof {
                    lemma_frontier_list_same(m, next@, before_result, result@, new_paths@, nbase, d + 1, loc as int);
                    lemma_finish_node(m, *g, p, d, ch, table, start as int, result@, new_paths@, loc as int);
                    reveal(table_tracks);
                    assert(popcount(table) == char_count(s, ch, ch.len() as int));
                }
            },
            None => {
                assert(ch.len() == 0);
                let payload = self.id_line[g.start];
                let ghost before_result = result@;
                set_payload(result, loc, payload);
                proof {
                    lemma_frontier_list_same(m, next@, before_result, result@, new_paths@, nbase, d + 1, loc as int);
                    lemma_leaf_last(m, *g, p, d);
                    lemma_popcount_zero();
                    lemma_finish_leaf(m, p, result@, new_paths@, loc as int, g.start as int);
                }
            },
        }
        new_paths
    }
}

proof fn lemma_finish_leaf(m: Matrix, p: Seq<u8>, nodes: Seq<Node>, paths: Seq<Seq<u8>>, loc: int, c: int)
    requires
        0 <= loc < nodes.len(),
        paths[loc] == p,
        nodes[loc].bits() == 0,
        nodes[loc].first_child() == 0,
        nodes[loc].children_end() == 0,
        nodes[loc].id() == Some(m.ids()[c]),
        last_holder(m, c, p),
        !held_twice(m, p),
        forall|b: u8| !#[trigger] continues(m, p, b),
    ensures
        node_done(m, nodes, paths, loc),
{
    reveal(node_done);
    assert forall|b: u8| #[trigger] bit(nodes[loc].bits(), b as int) <==> continues(m, p, b) by {
        lemma_zero_bits(b as int);
    }
    assert forall|j: int| 0 <= j < 128 implies !bit(0u128, j) by {
        lemma_zero_bits(j);
    }
    lemma_count_below_all(0u128, 0, 128);
}

proof fn lemma_walk_path(m: Matrix, nodes: Seq<Node>, paths: Seq<Seq<u8>>, p: Seq<u8>)
    requires
        m.wf(),
        m.well_shaped(),
        paths.len() == nodes.len(),
        nodes.len() >= 1,
        paths[0] == Seq::<u8>::empty(),
        forall|y: int| 0 <= y < nodes.len() ==> #[trigger] node_done(m, nodes, paths, y),
    ensures
        walk(nodes, p) is Some <==> exists|c: int| spells(m, c, p),
        walk(nodes, p) matches Some(x) ==> 0 <= x < nodes.len() && paths[x] == p,
    decreases p.len(),
{
    if p.len() == 0 {
        Matrix::lemma_shape_facts(m, 0);
        assert(spells(m, 0, p));
        assert(p =~= Seq::<u8>::empty());
    } else {
        let q = p.drop_last();
        let b = p.last();
        assert(q.push(b) =~= p);
        lemma_walk_path(m, nodes, paths, q);
        match walk(nodes, q) {
            Some(x) => {
                assert(node_done(m, nodes, paths, x));
                reveal(node_done);
                let t = nodes[x];
                assert(paths[x] == q);
                if bit(t.bits(), b as int) {
                    assert(continues(m, q, b));
                    let c = choose|c: int| #[trigger] spells(m, c, q.push(b));
                    assert(spells(m, c, p));
                    crate::bitset::lemma_rank_fits(t.bits(), b as int);
                    lemma_ones_below_bounds(t.bits(), b as int);
                } else {
                    assert(!continues(m, q, b));
                    if exists|c: int| spells(m, c, p) {
                        let c = choose|c: int| spells(m, c, p);
                        assert(spells(m, c, q.push(b)));
                    }
                }
            },
            None => {
                if exists|c: int| spells(m, c, p) {
                    let c = choose|c: int| spells(m, c, p);
                    lemma_spells_push(m, c, q, b);
                }
            },
        }
    }
}

proof fn lemma_represents(m: Matrix, nodes: Seq<Node>, paths: Seq<Seq<u8>>)
    requires
        m.wf(),
        m.well_shaped(),
        paths.len() == nodes.len(),
        nodes.len() >= 1,
        paths[0] == Seq::<u8>::empty(),
        forall|y: int| 0 <= y < nodes.len() ==> #[trigger] node_done(m, nodes, paths, y),
    ensures
        represents(nodes, m),
{
    assert forall|x: int| 0 <= x < nodes.len() implies 0 <= (#[trigger] nodes[x]).first_child() && nodes[x].first_child()
        + popcount(nodes[x].bits()) <= nodes.len() && nodes[x].children_end() == nodes[x].first_child()
        + popcount(nodes[x].bits()) by {
        assert(node_done(m, nodes, paths, x));
        reveal(node_done);
    }
    assert forall|p: Seq<u8>| #[trigger] walk(nodes, p) is Some <==> exists|c: int| spells(m, c, p) by {
        lemma_walk_path(m, nodes, paths, p);
    }
    assert forall|p: Seq<u8>| #[trigger] walk(nodes, p) is Some implies {
        let x = walk(nodes, p).unwrap();
        &&& 0 <= x < nodes.len()
        &&& (nodes[x].id() is Some <==> exists|c: int| holds(m, c, p))
        &&& (nodes[x].id() matches Some(v) ==> exists|c: int| last_holder(m, c, p) && m.ids()[c] == v)
        &&& (nodes[x].first_child() == 0 <==> (nodes[x].bits() == 0 && !held_twice(m, p)))
    } by {
        lemma_walk_path(m, nodes, paths, p);
        let x = walk(nodes, p).unwrap();
        assert(node_done(m, nodes, paths, x));
        reveal(node_done);
        if let Some(v) = nodes[x].id() {
            let c = choose|c: int| #[trigger] last_holder(m, c, paths[x]) && m.ids()[c] == v;
            assert(last_holder(m, c, p));
        }
    }
}

/// A frontier list of entries at depth `d` is empty once no string is that long.
proof fn lemma_frontier_list_empty(m: Matrix, next: Seq<BuildingProcessPair>, nodes: Seq<Node>, paths: Seq<Seq<u8>>, base: int, d: int)
    requires
        frontier_list(m, next, nodes, paths, base, d),
        d >= m.height(),
    ensures
        next.len() == 0,
{
    if next.len() > 0 {
        lemma_frontier_list_entry(m, next, nodes, paths, base, d, 0);
        reveal(frontier_ok);
        let g = next[0].represent;
        assert(spells(m, g.start as int, paths[base]));
    }
}

impl Matrix {
    /// Builds the trie of the matrix's strings, each read from its last byte,
    /// breadth first: node 0 is the root; the children of a node follow one
    /// another, by increasing byte, right after the children of the nodes
    /// before it (`law_tree_determined` shows this fixes the whole list). On
    /// a matrix that was never sorted (no group recorded), the trie is a lone
    /// root holding the first column's id.
    pub fn build_tree(&self) -> (result: Vec<Node>)
        requires
            self.wf(),
            self.width() >= 1,
            self.tables_empty() || (self.well_shaped() && self.grouped() && seven_bit_matrix(*self)),
        ensures
            nodes_ok(result@),
            breadth_first(result@),
            self.grouped() ==> represents(result@, *self),
            self.tables_empty() ==> result@.len() == 1 && result@[0].bits() == 0
                && result@[0].first_child() == 0 && result@[0].children_end() == 0
                && result@[0].id() == Some(self.ids()[0]),
    {
        let ghost m = *self;
        let mut result: Vec<Node> = Vec::new();
        push_fresh(&mut result);
        let len = self.id_line.len();
        let root_range = 0..len;
        if self.sorted_ranges[0].get(&root_range).is_none() {
            // No group was recorded for the root: it holds the first column's id.
            set_payload(&mut result, 0, self.id_line[0]);
            proof {
                assert(!m.grouped()) by {
                    if m.grouped() {
                        assert(m.table(0).contains_key(rg(0, m.width() as int)));
                        assert(root_range == rg(0, m.width() as int));
                    }
                }
                assert(m.tables_empty()) by {
                    if !m.tables_empty() {
                        assert(m.grouped());
                    }
                }
                assert forall|x: int| 0 <= x < result@.len() implies 0 <= (#[trigger] result@[x]).first_child()
                    && result@[x].first_child() + popcount(result@[x].bits()) <= result@.len() by {
                    assert(x == 0);
                    assert forall|j: int| 0 <= j < 128 implies !bit(0u128, j) by {
                        lemma_zero_bits(j);
                    }
                    lemma_count_below_all(0u128, 0, 128);
                }
                lemma_popcount_zero();
                assert(result@[0].bits() == 0);
                assert(children_before(result@, 0) == 0);
                assert(children_before(result@, 1) == children_before(result@, 0) + popcount(result@[0].bits()));
            }
            return result;
        }
        proof {
            assert(m.table(0).contains_key(root_range));
            assert(!m.tables_empty()) by {
                assert(m.table(0) == Map::<Range<usize>, Seq<Range<usize>>>::empty() ==> !m.table(0).contains_key(root_range));
            }
        }
        let mut need_update_nodes_ranges: Vec<BuildingProcessPair> = Vec::new();
        need_update_nodes_ranges.push(BuildingProcessPair { represent: 0..len, location: 0 });
        let ghost mut paths: Seq<Seq<u8>> = seq![Seq::<u8>::empty()];
        let ghost mut base: int = 0;
        proof {
            reveal(frontier_ok);
            reveal(frontier_list);
            assert forall|c: int| 0 <= c < m.width() implies (0 <= c < len <==> #[trigger] spells(m, c, paths[0])) by {
                Matrix::lemma_shape_facts(m, 0);
            }
            assert(frontier_ok(m, need_update_nodes_ranges@[0].represent, paths[0], 0));
        }
        let total = self.sorted_ranges.len();
        let mut idx: usize = 0;
        while idx < total
            invariant
                m == *self,
                m.wf(),
                m.well_shaped(),
                m.grouped(),
                seven_bit_matrix(m),
                total == self.sorted_ranges@.len(),
                total == m.height() + 1,
                idx <= total,
                result@.len() >= 1,
                paths.len() == result@.len(),
                paths[0] == Seq::<u8>::empty(),
                0 <= base,
                result@.len() == base + need_update_nodes_ranges@.len(),
                result@.len() == 1 + children_before(result@, base),
                forall|x: int|
                    0 <= x < base ==> x < 1 + #[trigger] children_before(result@, x) && (popcount(
                        result@[x].bits(),
                    ) > 0 ==> result@[x].first_child() == 1 + children_before(result@, x)) && (result@[x].first_child() == 0
                        || result@[x].first_child() == 1 + children_before(result@, x)),
                forall|y: int| 0 <= y < base ==> #[trigger] node_done(m, result@, paths, y),
                frontier_list(m, need_update_nodes_ranges@, result@, paths, base, idx as int),
            decreases total - idx,
        {
            let mut next: Vec<BuildingProcessPair> = Vec::new();
            let ghost nbase = base + need_update_nodes_ranges@.len();
            let ghost start_result = result@;
            let ghost start_paths = paths;
            let mut u: usize = 0;
            proof {
                reveal(frontier_list);
            }
            while u < need_update_nodes_ranges.len()
                invariant
                    m == *self,
                    m.wf(),
                    m.well_shaped(),
                    m.grouped(),
                    seven_bit_matrix(m),
                    total == self.sorted_ranges@.len(),
                    idx < total,
                    u <= need_update_nodes_ranges@.len(),
                    nbase == base + need_update_nodes_ranges@.len(),
                    0 <= base,
                    start_result.len() == nbase,
                    start_paths.len() == nbase,
                    result@.len() >= 1,
                    paths.len() == result@.len(),
                    paths[0] == Seq::<u8>::empty(),
                    forall|j: int| 0 <= j < nbase ==> #[trigger] paths[j] == start_paths[j],
                    forall|y: int| 0 <= y < base + u ==> #[trigger] node_done(m, result@, paths, y),
                    result@.len() == 1 + children_before(result@, base + u),
                    forall|x: int|
                        0 <= x < base + u ==> x < 1 + #[trigger] children_before(result@, x) && (popcount(
                            result@[x].bits(),
                        ) > 0 ==> result@[x].first_child() == 1 + children_before(result@, x)) && (result@[x].first_child() == 0
                        || result@[x].first_child() == 1 + children_before(result@, x)),
                    forall|v: int|
                        u <= v < need_update_nodes_ranges@.len() ==> {
                            let e = #[trigger] need_update_nodes_ranges@[v];
                            &&& e.location == base + v
                            &&& frontier_ok(m, e.represent, start_paths[base + v], idx as int)
                            &&& fresh(result@[base + v])
                        },
                    result@.len() == nbase + next@.len(),
                    frontier_list(m, next@, result@, paths, nbase, idx + 1),
                decreases need_update_nodes_ranges@.len() - u,
            {
                let pair = &need_update_nodes_ranges[u];
                let ghost uu = u as int;
                let ghost before_result = result@;
                let ghost before_paths = paths;
                assert(pair.location == base + uu);
                assert(paths[base + uu] == start_paths[base + uu]);
                let new_paths = self.expand_node(idx, &pair.represent, pair.location, &mut result, &mut next, Ghost(paths), Ghost(nbase));
                proof {
                    paths = new_paths@;
                    assert forall|y: int| 0 <= y < base + uu + 1 implies #[trigger] node_done(m, result@, paths, y) by {
                        if y < base + uu {
                            assert(node_done(m, before_result, before_paths, y));
                            lemma_done_stable(m, before_result, before_paths, result@, paths, y);
                        }
                    }
                    assert forall|j: int| 0 <= j < nbase implies #[trigger] paths[j] == start_paths[j] by {
                        assert(paths[j] == before_paths[j]);
                    }
                    assert forall|v: int|
                        uu + 1 <= v < need_update_nodes_ranges@.len() implies {
                            let e = #[trigger] need_update_nodes_ranges@[v];
                            &&& e.location == base + v
                            &&& frontier_ok(m, e.represent, start_paths[base + v], idx as int)
                            &&& fresh(result@[base + v])
                        } by {
                        assert(result@[base + v] == before_result[base + v]);
                    }
                    assert(paths[0] == before_paths[0]);
                    let k = base + uu;
                    assert forall|y: int| 0 <= y < k implies #[trigger] before_result[y] == result@[y] by {}
                    assert forall|x: int| 0 <= x <= k implies #[trigger] children_before(result@, x)
                        == children_before(before_result, x) by {
                        lemma_children_before_same(before_result, result@, k, x);
                    }
                    assert(children_before(result@, k + 1) == children_before(result@, k) + popcount(result@[k].bits()));
                    assert forall|x: int|
                        0 <= x < k + 1 implies x < 1 + #[trigger] children_before(result@, x) && (popcount(
                            result@[x].bits(),
                        ) > 0 ==> result@[x].first_child() == 1 + children_before(result@, x)) && (result@[x].first_child() == 0
                        || result@[x].first_child() == 1 + children_before(result@, x)) by {
                        if x < k {
                            assert(children_before(result@, x) == children_before(before_result, x));
                            assert(result@[x] == before_result[x]);
                        }
                    }
                }
                u = u + 1;
            }
            proof {
                base = nbase;
            }
            need_update_nodes_ranges = next;
            idx = idx + 1;
        }
        proof {
            lemma_frontier_list_empty(m, need_update_nodes_ranges@, result@, paths, base, idx as int);
            lemma_represents(m, result@, paths);
            assert(base == result@.len());
        }
        result
    }
}

} // verus!
