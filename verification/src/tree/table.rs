use std::collections::HashMap;
use std::ops::Range;
use vstd::prelude::*;

verus! {

broadcast use vstd::std_specs::hash::group_hash_axioms;

/// One bucket of a `RangeTable`: the entries whose key starts at one index.
pub type Bucket = Vec<(Range<usize>, Vec<Range<usize>>)>;

/// A map from a range of columns to the ranges it splits into at one line.
///
/// Keys are grouped into buckets by their start index, so a lookup is a hash
/// lookup followed by a scan of the (short) bucket.
#[derive(Debug)]
pub struct RangeTable {
    buckets: HashMap<usize, Bucket>,
    order: Vec<Range<usize>>,
    count: usize,
}

/// Whether some entry of the bucket has key `k`.
pub open spec fn bucket_has(b: Seq<(Range<usize>, Vec<Range<usize>>)>, k: Range<usize>) -> bool {
    exists|i: int| 0 <= i < b.len() && #[trigger] b[i].0 == k
}

/// The value stored under `k` in the bucket (meaningful when `bucket_has(b, k)`).
pub open spec fn bucket_get(b: Seq<(Range<usize>, Vec<Range<usize>>)>, k: Range<usize>) -> Seq<
    Range<usize>,
> {
    b[choose|i: int| 0 <= i < b.len() && #[trigger] b[i].0 == k].1@
}

/// Every entry of the bucket starts at `s`, and no key occurs twice.
pub open spec fn bucket_ok(b: Seq<(Range<usize>, Vec<Range<usize>>)>, s: usize) -> bool {
    &&& forall|i: int| 0 <= i < b.len() ==> (#[trigger] b[i]).0.start == s
    &&& forall|i: int, j: int| 0 <= i < j < b.len() ==> (#[trigger] b[i]).0 != (#[trigger] b[j]).0
}

proof fn lemma_bucket_get_at(b: Seq<(Range<usize>, Vec<Range<usize>>)>, s: usize, i: int)
    requires
        bucket_ok(b, s),
        0 <= i < b.len(),
    ensures
        bucket_has(b, b[i].0),
        bucket_get(b, b[i].0) == b[i].1@,
{
    let k = b[i].0;
    assert(b[i].0 == k);
    let j = choose|j: int| 0 <= j < b.len() && #[trigger] b[j].0 == k;
    if j != i {
        if j < i {
            assert(b[j].0 != b[i].0);
        } else {
            assert(b[i].0 != b[j].0);
        }
    }
}

impl View for RangeTable {
    type V = Map<Range<usize>, Seq<Range<usize>>>;

    closed spec fn view(&self) -> Map<Range<usize>, Seq<Range<usize>>> {
        Map::new(
            |k: Range<usize>| self.order@.contains(k),
            |k: Range<usize>| bucket_get(self.buckets@[k.start]@, k),
        )
    }
}

impl RangeTable {
    /// The table's internal consistency: buckets hold their own keys only,
    /// `order` lists each key once, and `count` is the number of keys.
    pub closed spec fn wf(&self) -> bool {
        &&& self.order@.no_duplicates()
        &&& self.order@.len() == self.count
        &&& forall|s: usize| #[trigger]
            self.buckets@.contains_key(s) ==> bucket_ok(self.buckets@[s]@, s)
        &&& forall|k: Range<usize>| #[trigger]
            self.order@.contains(k) <==> (self.buckets@.contains_key(k.start) && bucket_has(
                self.buckets@[k.start]@,
                k,
            ))
    }

    proof fn lemma_dom(&self)
        requires
            self.wf(),
        ensures
            self@.dom() == self.order@.to_set(),
            self@.dom().finite(),
            self@.dom().len() == self.count,
    {
        broadcast use vstd::seq_lib::seq_to_set_is_finite;

        assert(self@.dom() =~= self.order@.to_set());
        self.order@.unique_seq_to_set();
    }

    /// An empty table.
    pub fn new() -> (t: RangeTable)
        ensures
            t.wf(),
            t@ == Map::<Range<usize>, Seq<Range<usize>>>::empty(),
            t.key_order() == Seq::<Range<usize>>::empty(),
    {
        let t = RangeTable { buckets: HashMap::new(), order: Vec::new(), count: 0 };
        assert(t@ =~= Map::<Range<usize>, Seq<Range<usize>>>::empty());
        t
    }

    /// The number of keys.
    pub fn len(&self) -> (n: usize)
        requires
            self.wf(),
        ensures
            n == self@.dom().len(),
    {
        proof {
            self.lemma_dom();
        }
        self.count
    }

    /// The keys in the order they were first inserted.
    pub closed spec fn key_order(&self) -> Seq<Range<usize>> {
        self.order@
    }

    /// The keys, each once, in the order they were first inserted.
    pub fn keys(&self) -> (r: &Vec<Range<usize>>)
        requires
            self.wf(),
        ensures
            r@ == self.key_order(),
            r@.no_duplicates(),
            forall|k: Range<usize>| #[trigger] r@.contains(k) <==> self@.contains_key(k),
    {
        &self.order
    }

    /// The value stored under `k`, if any.
    pub fn get(&self, k: &Range<usize>) -> (r: Option<&Vec<Range<usize>>>)
        requires
            self.wf(),
        ensures
            match r {
                Some(v) => self@.contains_key(*k) && v@ == self@[*k],
                None => !self@.contains_key(*k),
            },
    {
        match self.buckets.get(&k.start) {
            None => {
                assert(!self.order@.contains(*k));
                None
            },
            Some(b) => {
                assert(bucket_ok(b@, k.start));
                match find_in_bucket(b, k) {
                    Some(i) => {
                        proof {
                            lemma_bucket_get_at(b@, k.start, i as int);
                        }
                        Some(&b[i].1)
                    },
                    None => None,
                }
            },
        }
    }

    /// Stores `v` under `k`, replacing what was there.
    pub fn insert(&mut self, k: Range<usize>, v: Vec<Range<usize>>)
        requires
            old(self).wf(),
            old(self)@.dom().len() < usize::MAX,
        ensures
            final(self).wf(),
            final(self)@ == old(self)@.insert(k, v@),
            final(self).key_order() == if old(self)@.contains_key(k) {
                old(self).key_order()
            } else {
                old(self).key_order().push(k)
            },
            final(self)@.dom().len() == old(self)@.dom().len() + if old(self)@.contains_key(k) {
                0int
            } else {
                1int
            },
    {
        proof {
            self.lemma_dom();
        }
        let ghost old_map = self@;
        let ghost old_order = self.order@;
        let ghost old_keys = old_order.to_set();
        let ghost old_buckets = self.buckets@;
        let ghost vv = v@;
        let s = k.start;
        let key_copy = k.start..k.end;
        let mut b: Bucket = match self.buckets.remove(&s) {
            Some(b) => b,
            None => Vec::new(),
        };
        let ghost b0 = b@;
        assert(old_buckets.contains_key(s) ==> b0 == old_buckets[s]@);
        assert(!old_buckets.contains_key(s) ==> b0.len() == 0);
        assert(bucket_ok(b0, s));
        let pos = find_in_bucket(&b, &k);
        let ghost kk = k;
        match pos {
            Some(i) => {
                b[i] = (k, v);
                proof {
                    assert(old_keys.contains(kk));
                    assert(bucket_ok(b@, s)) by {
                        assert forall|x: int, y: int| 0 <= x < y < b@.len() implies (
                        #[trigger] b@[x]).0 != (#[trigger] b@[y]).0 by {
                            assert(b0[x].0 != b0[y].0);
                        }
                    }
                }
            },
            None => {
                b.push((k, v));
                proof {
                    assert(!old_keys.contains(kk));
                    assert(bucket_ok(b@, s)) by {
                        assert forall|x: int, y: int| 0 <= x < y < b@.len() implies (
                        #[trigger] b@[x]).0 != (#[trigger] b@[y]).0 by {
                            if y < b0.len() {
                                assert(b0[x].0 != b0[y].0);
                            } else {
                                assert(b0[x].0 != kk);
                            }
                        }
                    }
                }
            },
        }
        let ghost b1 = b@;
        let ghost was_new = pos.is_none();
        self.buckets.insert(s, b);
        if pos.is_none() {
            self.count = self.count + 1;
            self.order.push(key_copy);
        }
        proof {
            if was_new {
                assert(self.order@ == old_order.push(kk));
                assert forall|x: int, y: int| 0 <= x < y < self.order@.len() implies self.order@[x]
                    != self.order@[y] by {
                    assert(self.order@[x] == old_order[x]);
                    if y == old_order.len() {
                        assert(old_order.contains(old_order[x]));
                        assert(old_keys.contains(old_order[x]));
                    } else {
                        assert(self.order@[y] == old_order[y]);
                    }
                }
                assert forall|k2: Range<usize>| #[trigger] self.order@.contains(k2) <==> old_keys.insert(kk).contains(k2) by {
                    if self.order@.contains(k2) && k2 != kk {
                        let x = choose|x: int| 0 <= x < self.order@.len() && self.order@[x] == k2;
                        assert(old_order[x] == k2);
                        assert(old_order.contains(k2));
                    }
                    if old_keys.contains(k2) && k2 != kk {
                        assert(old_order.contains(k2));
                        let x = choose|x: int| 0 <= x < old_order.len() && old_order[x] == k2;
                        assert(self.order@[x] == k2);
                    }
                    if k2 == kk {
                        assert(self.order@[old_order.len() as int] == kk);
                    }
                }
            }
            assert(forall|k2: Range<usize>| #[trigger] self.order@.contains(k2) <==> old_keys.insert(kk).contains(k2));
            let nb = self.buckets@;
            assert(nb.contains_key(s) && nb[s]@ == b1);
            assert(forall|s2: usize| s2 != s ==> (nb.contains_key(s2) <==> old_buckets.contains_key(s2)) && (nb.contains_key(s2) ==> nb[s2] == old_buckets[s2]));
            assert forall|k2: Range<usize>| k2.start == s implies (bucket_has(b1, k2) <==> (
            k2 == kk || bucket_has(b0, k2))) by {
                if bucket_has(b1, k2) {
                    let j = choose|j: int| 0 <= j < b1.len() && #[trigger] b1[j].0 == k2;
                    if j < b0.len() && b1[j] == b0[j] {
                        assert(b0[j].0 == k2);
                    }
                }
                if bucket_has(b0, k2) && k2 != kk {
                    let j = choose|j: int| 0 <= j < b0.len() && #[trigger] b0[j].0 == k2;
                    assert(b1[j] == b0[j]);
                }
                if k2 == kk {
                    if was_new {
                        assert(b1[b0.len() as int].0 == kk);
                    } else {
                        let i = pos.unwrap();
                        assert(b1[i as int].0 == kk);
                    }
                }
            }
            assert forall|k2: Range<usize>| #[trigger]
                self.order@.contains(k2) <==> (nb.contains_key(k2.start) && bucket_has(
                    nb[k2.start]@,
                    k2,
                )) by {
                if k2.start != s {
                    assert(nb[k2.start] == old_buckets[k2.start]);
                }
            }
            assert forall|s2: usize| #[trigger] nb.contains_key(s2) implies bucket_ok(
                nb[s2]@,
                s2,
            ) by {
                if s2 != s {
                    assert(old_buckets.contains_key(s2));
                }
            }
            assert(self.wf());
            assert forall|k2: Range<usize>| #[trigger] self.order@.contains(k2) implies bucket_get(
                nb[k2.start]@,
                k2,
            ) == old_map.insert(kk, vv)[k2] by {
                if k2 == kk {
                    if was_new {
                        lemma_bucket_get_at(b1, s, b0.len() as int);
                    } else {
                        lemma_bucket_get_at(b1, s, pos.unwrap() as int);
                    }
                } else if k2.start == s {
                    let j = choose|j: int| 0 <= j < b0.len() && #[trigger] b0[j].0 == k2;
                    assert(b1[j] == b0[j]);
                    lemma_bucket_get_at(b1, s, j);
                    lemma_bucket_get_at(b0, s, j);
                    assert(old_keys.contains(k2));
                } else {
                    assert(old_keys.contains(k2));
                }
            }
            assert(self@ =~= old_map.insert(kk, vv));
            self.lemma_dom();
        }
    }
}

/// The position of key `k` in the bucket, if it is there.
fn find_in_bucket(b: &Bucket, k: &Range<usize>) -> (r: Option<usize>)
    requires
        bucket_ok(b@, k.start),
    ensures
        match r {
            Some(i) => i < b@.len() && b@[i as int].0 == *k,
            None => !bucket_has(b@, *k),
        },
{
    let mut i: usize = 0;
    while i < b.len()
        invariant
            bucket_ok(b@, k.start),
            i <= b@.len(),
            forall|j: int| 0 <= j < i ==> b@[j].0 != *k,
        decreases b@.len() - i,
    {
        if b[i].0.end == k.end {
            return Some(i);
        }
        i = i + 1;
    }
    None
}

} // verus!
