//! Looking strings up in the trie: by longest matching suffix, or exactly.

use super::Node;
use crate::bitset::{
    bit, count_ones, lemma_ones_below_bounds, lemma_ones_below_monotone, lemma_rank_fits,
    lemma_shift_to_top, ones_below, popcount,
};
use vstd::prelude::*;

verus! {

/// The bit that `table << (127 - c)` has set exactly when `table` holds `c`.
const MASK: u128 = 0x1 << 127;

/// The position of `node`'s child for byte `c`, if it has one: its children
/// are stored from `first_child` on, one per byte of its set, by increasing
/// byte.
pub open spec fn child_of(node: Node, c: int) -> Option<int> {
    if bit(node.bits(), c) {
        Some(node.first_child() + ones_below(node.bits(), c))
    } else {
        None
    }
}

/// A node list that can be walked: it has a root, and every node's children
/// lie within it.
pub open spec fn nodes_ok(nodes: Seq<Node>) -> bool {
    &&& nodes.len() >= 1
    &&& forall|x: int|
        0 <= x < nodes.len() ==> 0 <= (#[trigger] nodes[x]).first_child() && nodes[x].first_child()
            + popcount(nodes[x].bits()) <= nodes.len()
}

/// The node reached from the root by following the bytes of `p` in order.
pub open spec fn walk(nodes: Seq<Node>, p: Seq<u8>) -> Option<int>
    decreases p.len(),
{
    if p.len() == 0 {
        Some(0)
    } else {
        match walk(nodes, p.drop_last()) {
            Some(x) => if 0 <= x < nodes.len() {
                child_of(nodes[x], p.last() as int)
            } else {
                None
            },
            None => None,
        }
    }
}

/// The id stored at the deepest node, among those reached by the first
/// `1..=k` bytes of `p`, that has one.
pub open spec fn deepest_id(nodes: Seq<Node>, p: Seq<u8>, k: int) -> Option<i64>
    decreases k,
{
    if k <= 0 {
        None
    } else {
        match walk(nodes, p.take(k)) {
            Some(x) => if 0 <= x < nodes.len() && nodes[x].id() is Some {
                nodes[x].id()
            } else {
                deepest_id(nodes, p, k - 1)
            },
            None => deepest_id(nodes, p, k - 1),
        }
    }
}

/// What a suffix lookup of the bytes `q` answers: the id at the deepest node
/// with an id along the path of `q` read backwards.
pub open spec fn suffix_lookup(nodes: Seq<Node>, q: Seq<u8>) -> Option<i64> {
    deepest_id(nodes, q.reverse(), q.len() as int)
}

/// What an exact lookup of the bytes `q` answers: the id at the node reached
/// by `q` read backwards, if that node exists.
pub open spec fn exact_lookup(nodes: Seq<Node>, q: Seq<u8>) -> Option<i64> {
    match walk(nodes, q.reverse()) {
        Some(x) => if 0 <= x < nodes.len() {
            nodes[x].id()
        } else {
            None
        },
        None => None,
    }
}

/// Every byte of `q` (read from its last byte down) that a walk down
/// `nodes` reaches is below 128: the lookups shift a node's byte set by
/// `127` minus the byte, for each byte they reach.
pub open spec fn reached_seven_bit(nodes: Seq<Node>, q: Seq<u8>) -> bool {
    forall|j: int|
        0 <= j < q.len() && (#[trigger] walk(nodes, q.reverse().take(j))) is Some ==> q.reverse()[j]
            < 128
}

/// Every byte of `q` is below 128.
pub open spec fn seven_bit(q: Seq<u8>) -> bool {
    forall|i: int| 0 <= i < q.len() ==> #[trigger] q[i] < 128
}

proof fn lemma_walk_step(nodes: Seq<Node>, p: Seq<u8>, j: int)
    requires
        0 <= j < p.len(),
    ensures
        walk(nodes, p.take(j + 1)) == match walk(nodes, p.take(j)) {
            Some(x) => if 0 <= x < nodes.len() {
                child_of(nodes[x], p[j] as int)
            } else {
                None
            },
            None => None,
        },
{
    assert(p.take(j + 1).drop_last() =~= p.take(j));
    assert(p.take(j + 1).last() == p[j]);
}

proof fn lemma_walk_dead(nodes: Seq<Node>, p: Seq<u8>, j: int, k: int)
    requires
        0 <= j <= k <= p.len(),
        walk(nodes, p.take(j)) is None,
    ensures
        walk(nodes, p.take(k)) is None,
        deepest_id(nodes, p, k) == deepest_id(nodes, p, j),
    decreases k - j,
{
    if k > j {
        lemma_walk_dead(nodes, p, j, k - 1);
        lemma_walk_step(nodes, p, k - 1);
    }
}

/// One step down from node `x` for byte `c`, as the lookups compute it.
fn step(nodes: &Vec<Node>, x: usize, c: u8) -> (r: Option<usize>)
    requires
        nodes_ok(nodes@),
        x < nodes@.len(),
        c < 128,
    ensures
        match r {
            Some(y) => child_of(nodes@[x as int], c as int) == Some(y as int) && y < nodes@.len(),
            None => child_of(nodes@[x as int], c as int) is None,
        },
{
    let table = nodes[x].table;
    let shift: u8 = 127 - c;
    let moved = table << shift;
    assert(moved == table << ((127 - c) as u128)) by (bit_vector)
        requires
            moved == table << shift,
            shift == 127 - c,
            c < 128,
    ;
    let first_bit = moved & MASK;
    proof {
        lemma_shift_to_top(table, c);
        assert(MASK == 1u128 << 127u128) by (bit_vector);
    }
    if first_bit == MASK {
        let ones = count_ones(moved);
        proof {
            lemma_rank_fits(table, c as int);
            lemma_ones_below_bounds(table, c as int);
            assert(ones_below(table, c as int + 1) == ones_below(table, c as int) + 1);
            assert(nodes@[x as int].first_child() + popcount(table) <= nodes@.len());
        }
        let pos = ones - 1;
        let current_range_start = nodes[x].range_start;
        let offset = pos as usize;
        assert(offset == pos);
        assert(ones as int == ones_below(table, c as int + 1));
        assert(current_range_start == nodes@[x as int].first_child());
        let total = nodes.len();
        assert(current_range_start + offset < total);
        Some(current_range_start + offset)
    } else {
        None
    }
}

/// A node's children are stored by increasing byte. Stepping on a member
/// byte `c` reaches the child at `first_child` plus the number of members
/// up to and including `c`, less one; that number is the count of all 128
/// bits of the set shifted so that `c` is its top bit. So two member bytes
/// reach two different children, the smaller byte the earlier one, both
/// within the node's child range.
pub proof fn law_child_by_byte(node: Node, b1: u8, b2: u8)
    requires
        b1 < b2 < 128,
        bit(node.bits(), b1 as int),
        bit(node.bits(), b2 as int),
    ensures
        child_of(node, b2 as int) == Some(
            node.first_child() + popcount(node.bits() << ((127 - b2) as u128)) - 1,
        ),
        popcount(node.bits() << ((127 - b2) as u128)) == ones_below(node.bits(), b2 as int + 1),
        child_of(node, b1 as int) matches Some(x1) && child_of(node, b2 as int) matches Some(x2)
            && node.first_child() <= x1 < x2 < node.first_child() + popcount(node.bits()),
{
    let t = node.bits();
    lemma_shift_to_top(t, b2);
    lemma_ones_below_bounds(t, b1 as int);
    lemma_ones_below_monotone(t, b1 as int + 1, b2 as int);
    lemma_rank_fits(t, b2 as int);
}

/// Looks strings up by the longest of them that ends the query.
#[derive(Debug)]
pub struct SuffixMatcher {
    nodes: Vec<Node>,
}

/// Looks strings up by exact match.
#[derive(Debug)]
pub struct ExactMatcher {
    nodes: Vec<Node>,
}

impl SuffixMatcher {
    /// The trie's nodes.
    pub closed spec fn nodes(&self) -> Seq<Node> {
        self.nodes@
    }

    /// A matcher over the given trie.
    pub fn new(nodes: Vec<Node>) -> (m: SuffixMatcher)
        ensures
            m.nodes() == nodes@,
    {
        SuffixMatcher { nodes }
    }

    /// The id of the string stored at the deepest node along the query's
    /// path (read from its last byte down) that stores one.
    pub fn find(&self, query: &str) -> (r: Option<i64>)
        requires
            nodes_ok(self.nodes()),
            reached_seven_bit(self.nodes(), vstd::utf8::encode_utf8(query@)),
        ensures
            r == suffix_lookup(self.nodes(), vstd::utf8::encode_utf8(query@)),
    {
        let bytes: &[u8] = query.as_bytes();
        let ghost q = bytes@;
        let ghost rq = q.reverse();
        assert(q == vstd::utf8::encode_utf8(query@));
        let len = bytes.len();
        let mut current: usize = 0;
        let mut current_matched: Option<i64> = None;
        let mut i: usize = len;
        while i > 0
            invariant
                nodes_ok(self.nodes@),
                q == bytes@,
                q == vstd::utf8::encode_utf8(query@),
                rq == q.reverse(),
                len == q.len(),
                reached_seven_bit(self.nodes@, q),
                i <= len,
                current < self.nodes@.len(),
                walk(self.nodes@, rq.take(len - i)) == Some(current as int),
                current_matched == deepest_id(self.nodes@, rq, len - i),
            decreases i,
        {
            i = i - 1;
            let c = bytes[i];
            let ghost j = len - 1 - i;
            proof {
                assert(rq[j] == q[i as int]);
                assert(walk(self.nodes@, rq.take(j)) is Some);
                assert(q[i as int] < 128);
                lemma_walk_step(self.nodes@, rq, j);
            }
            match step(&self.nodes, current, c) {
                Some(next) => {
                    current = next;
                    if self.nodes[current].payload.is_some() {
                        current_matched = self.nodes[current].payload;
                    }
                },
                None => {
                    proof {
                        lemma_walk_dead(self.nodes@, rq, j + 1, len as int);
                        assert(deepest_id(self.nodes@, rq, j + 1) == deepest_id(self.nodes@, rq, j));
                        assert(q == vstd::utf8::encode_utf8(query@));
                    }
                    return current_matched;
                },
            }
        }
        current_matched
    }
}

impl ExactMatcher {
    /// The trie's nodes.
    pub closed spec fn nodes(&self) -> Seq<Node> {
        self.nodes@
    }

    /// A matcher over the given trie.
    pub fn new(nodes: Vec<Node>) -> (m: ExactMatcher)
        ensures
            m.nodes() == nodes@,
    {
        ExactMatcher { nodes }
    }

    /// The id stored at the node the whole query leads to (read from its
    /// last byte down), if there is such a node.
    pub fn find(&self, query: &str) -> (r: Option<i64>)
        requires
            nodes_ok(self.nodes()),
            reached_seven_bit(self.nodes(), vstd::utf8::encode_utf8(query@)),
        ensures
            r == exact_lookup(self.nodes(), vstd::utf8::encode_utf8(query@)),
    {
        let bytes: &[u8] = query.as_bytes();
        let ghost q = bytes@;
        let ghost rq = q.reverse();
        assert(q == vstd::utf8::encode_utf8(query@));
        let len = bytes.len();
        let mut current: usize = 0;
        let mut i: usize = len;
        while i > 0
            invariant
                nodes_ok(self.nodes@),
                q == bytes@,
                q == vstd::utf8::encode_utf8(query@),
                rq == q.reverse(),
                len == q.len(),
                reached_seven_bit(self.nodes@, q),
                i <= len,
                current < self.nodes@.len(),
                walk(self.nodes@, rq.take(len - i)) == Some(current as int),
            decreases i,
        {
            i = i - 1;
            let c = bytes[i];
            let ghost j = len - 1 - i;
            proof {
                assert(rq[j] == q[i as int]);
                assert(walk(self.nodes@, rq.take(j)) is Some);
                assert(q[i as int] < 128);
                lemma_walk_step(self.nodes@, rq, j);
            }
            match step(&self.nodes, current, c) {
                Some(next) => {
                    current = next;
                },
                None => {
                    proof {
                        lemma_walk_dead(self.nodes@, rq, j + 1, len as int);
                        assert(rq.take(len as int) =~= rq);
                        assert(walk(self.nodes@, rq) is None);
                        assert(q == vstd::utf8::encode_utf8(query@));
                    }
                    return None;
                },
            }
        }
        proof {
            assert(rq.take(len as int) =~= rq);
        }
        self.nodes[current].payload
    }
}

} // verus!
