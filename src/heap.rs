use vstd::prelude::*;
use vstd::multiset::Multiset;

verus! {

broadcast use {vstd::seq_lib::group_to_multiset_ensures, vstd::multiset::group_multiset_axioms};

/// The position of the parent of position `i` in the heap array.
pub open spec fn parent(i: int) -> int {
    (i - 1) / 2
}

/// `k` is the largest score of the elements of `m`.
pub open spec fn is_max_score(m: Multiset<(u64, usize)>, k: u64) -> bool {
    &&& exists|e: (u64, usize)| #[trigger] m.count(e) > 0 && e.0 == k
    &&& forall|e: (u64, usize)| #[trigger] m.count(e) > 0 ==> e.0 <= k
}

/// `s` is sorted by ascending score.
pub open spec fn sorted_by_score(s: Seq<(u64, usize)>) -> bool {
    forall|i: int, j: int| 0 <= i < j < s.len() ==> s[i].0 <= s[j].0
}

/// Every element holds a score no larger than that of its parent.
spec fn heap_order(s: Seq<(u64, usize)>) -> bool {
    forall|i: int| 0 < i < s.len() ==> s[parent(i)].0 >= #[trigger] s[i].0
}

/// `t` is `s` with the elements at `i` and `j` exchanged.
proof fn lemma_swap_multiset(s: Seq<(u64, usize)>, t: Seq<(u64, usize)>, i: int, j: int)
    requires
        0 <= i < s.len(),
        0 <= j < s.len(),
        t == s.update(i, s[j]).update(j, s[i]),
    ensures
        t.to_multiset() == s.to_multiset(),
{
    let u = s.update(i, s[j]);
    assert(u.to_multiset() == s.to_multiset().insert(s[j]).remove(s[i]));
    assert(t.to_multiset() == u.to_multiset().insert(s[i]).remove(u[j]));
    if i == j {
        assert(t =~= s);
    } else {
        assert(u[j] == s[j]);
        assert(t.to_multiset() =~= s.to_multiset());
    }
}

/// In a heap-ordered array the first element holds the largest score.
proof fn lemma_root_is_max(s: Seq<(u64, usize)>, i: int)
    requires
        heap_order(s),
        0 <= i < s.len(),
    ensures
        s[0].0 >= s[i].0,
    decreases i,
{
    if i > 0 {
        lemma_root_is_max(s, parent(i));
    }
}

proof fn lemma_root_max_multiset(s: Seq<(u64, usize)>)
    requires
        heap_order(s),
        s.len() > 0,
    ensures
        is_max_score(s.to_multiset(), s[0].0),
{
    assert(s.to_multiset().count(s[0]) > 0);
    assert forall|e: (u64, usize)| #[trigger] s.to_multiset().count(e) > 0 implies e.0 <= s[0].0 by {
        assert(s.contains(e));
        let i = choose|i: int| 0 <= i < s.len() && s[i] == e;
        lemma_root_is_max(s, i);
    }
}

/// A max-heap of `(score, item)` pairs that keeps at most `capacity`
/// elements: once full, a new element with a smaller score than the
/// largest one takes its place, so the heap keeps the smallest scores seen.
#[derive(Debug)]
pub struct Heap {
    data: Vec<(u64, usize)>,
    capacity: usize,
}

impl Heap {
    /// The elements held.
    pub closed spec fn elements(&self) -> Multiset<(u64, usize)> {
        self.data@.to_multiset()
    }

    /// The number of elements the heap keeps once full.
    pub closed spec fn bound(&self) -> nat {
        self.capacity as nat
    }

    /// The array is heap-ordered.
    pub closed spec fn wf(&self) -> bool {
        heap_order(self.data@)
    }

    pub fn new(capacity: usize) -> (r: Heap)
        ensures
            r.wf(),
            r.elements() == Multiset::<(u64, usize)>::empty(),
            r.bound() == capacity,
    {
        let r = Heap { data: Vec::new(), capacity };
        assert(r.data@.to_multiset() =~= Multiset::<(u64, usize)>::empty());
        r
    }

    /// The number of elements held.
    pub fn len(&self) -> (r: usize)
        ensures
            r == self.elements().len(),
    {
        self.data.len()
    }

    /// The largest score held, if any.
    pub fn get_max(&self) -> (r: Option<u64>)
        requires
            self.wf(),
        ensures
            r is None <==> self.elements().len() == 0,
            r matches Some(k) ==> is_max_score(self.elements(), k),
    {
        if self.data.len() == 0 {
            None
        } else {
            proof {
                lemma_root_max_multiset(self.data@);
            }
            Some(self.data[0].0)
        }
    }

    /// Offers an element. It is added while the heap holds fewer than
    /// `capacity` elements; after that it replaces an element with the
    /// largest score if its own score is smaller, and is dropped otherwise.
    pub fn insert(&mut self, score: u64, item: usize)
        requires
            old(self).wf(),
        ensures
            final(self).wf(),
            final(self).bound() == old(self).bound(),
            old(self).elements().len() < old(self).bound() ==> final(self).elements() == old(self).elements().insert((score, item)),
            old(self).elements().len() >= old(self).bound() && (exists|e: (u64, usize)|
                #[trigger] old(self).elements().count(e) > 0 && score < e.0) ==> exists|m: (
                u64,
                usize,
            )|
                is_max_score(old(self).elements(), m.0) && #[trigger] old(self).elements().count(m)
                    > 0 && final(self).elements() == old(self).elements().remove(m).insert(
                    (score, item),
                ),
            old(self).elements().len() >= old(self).bound() && (forall|e: (u64, usize)|
                #[trigger] old(self).elements().count(e) > 0 ==> e.0 <= score) ==> final(self).elements() == old(self).elements(),
    {
        if self.data.len() < self.capacity {
            self.push_element(score, item);
            return;
        }
        if self.data.len() > 0 && self.data[0].0 > score {
            let ghost before = self.data@;
            proof {
                lemma_root_max_multiset(before);
            }
            self.extract_max();
            self.push_element(score, item);
        } else {
            proof {
                if self.data@.len() > 0 {
                    lemma_root_max_multiset(self.data@);
                }
            }
        }
    }

    /// Appends an element and restores the heap order.
    fn push_element(&mut self, score: u64, item: usize)
        requires
            old(self).wf(),
        ensures
            final(self).wf(),
            final(self).capacity == old(self).capacity,
            final(self).elements() == old(self).elements().insert((score, item)),
    {
        self.data.push((score, item));
        let mut pos: usize = self.data.len() - 1;
        while pos > 0 && self.data[(pos - 1) / 2].0 < self.data[pos].0
            invariant
                pos < self.data@.len(),
                self.capacity == old(self).capacity,
                self.data@.to_multiset() == old(self).data@.to_multiset().insert((score, item)),
                forall|i: int| 0 < i < self.data@.len() && i != pos ==> self.data@[parent(i)].0 >= #[trigger] self.data@[i].0,
                forall|i: int| 0 < i < self.data@.len() && parent(i) == pos && pos > 0 ==> self.data@[parent(pos as int)].0 >= #[trigger] self.data@[i].0,
            decreases pos,
        {
            let p = (pos - 1) / 2;
            let ghost s = self.data@;
            let a = self.data[p];
            let b = self.data[pos];
            self.data.set(p, b);
            self.data.set(pos, a);
            proof {
                lemma_swap_multiset(s, self.data@, p as int, pos as int);
                assert forall|i: int| 0 < i < self.data@.len() && i != p implies self.data@[parent(i)].0 >= #[trigger] self.data@[i].0 by {
                    {
                        if i == pos {
                        } else if parent(i) == pos {
                            assert(s[parent(pos as int)].0 >= s[i].0);
                        } else if parent(i) == p {
                            assert(s[p as int].0 >= s[i].0);
                        } else {
                            assert(s[parent(i)].0 >= s[i].0);
                        }
                    }
                }
                assert forall|i: int| 0 < i < self.data@.len() && parent(i) == p && p > 0 implies self.data@[parent(p as int)].0 >= #[trigger] self.data@[i].0 by {
                    {
                        assert(s[parent(p as int)].0 >= s[p as int].0);
                        if i != pos {
                            assert(s[p as int].0 >= s[i].0);
                        }
                    }
                }
            }
            pos = p;
        }
        proof {
            assert forall|i: int| 0 < i < self.data@.len() implies self.data@[parent(i)].0 >= #[trigger] self.data@[i].0 by {
                if i == pos {
                    assert(self.data@[parent(pos as int)].0 >= self.data@[pos as int].0);
                }
            }
        }
    }

    /// Removes an element with the largest score and returns that score.
    pub fn extract_max(&mut self) -> (r: Option<u64>)
        requires
            old(self).wf(),
        ensures
            final(self).wf(),
            final(self).bound() == old(self).bound(),
            old(self).elements().len() == 0 ==> r is None && final(self).elements() == old(self).elements(),
            old(self).elements().len() > 0 ==> (r matches Some(k) && is_max_score(old(self).elements(), k)
                && exists|m: (u64, usize)|
                #[trigger] old(self).elements().count(m) > 0 && m.0 == k && final(self).elements()
                    == old(self).elements().remove(m)),
    {
        if self.data.len() == 0 {
            return None;
        }
        let ghost before = self.data@;
        proof {
            lemma_root_max_multiset(before);
        }
        let top = self.data[0];
        let last = self.data.pop().unwrap();
        assert(before =~= self.data@.push(last));
        if self.data.len() > 0 {
            let ghost shorter = self.data@;
            self.data.set(0, last);
            assert(self.data@.to_multiset() == shorter.to_multiset().insert(last).remove(shorter[0]));
            assert(shorter[0] == top);
            assert(self.data@.to_multiset() =~= before.to_multiset().remove(top));
            self.sift_down();
        } else {
            assert(self.data@.to_multiset() =~= before.to_multiset().remove(top));
        }
        assert(before.to_multiset().count(top) > 0);
        Some(top.0)
    }

    /// Moves the first element down until the array is heap-ordered again.
    fn sift_down(&mut self)
        requires
            old(self).data@.len() > 0,
            forall|i: int| 0 < i < old(self).data@.len() && parent(i) != 0 ==> old(self).data@[parent(i)].0 >= #[trigger] old(self).data@[i].0,
        ensures
            final(self).wf(),
            final(self).capacity == old(self).capacity,
            final(self).elements() == old(self).elements(),
    {
        let n = self.data.len();
        let mut idx: usize = 0;
        loop
            invariant
                n == self.data@.len(),
                idx < n,
                self.capacity == old(self).capacity,
                self.data@.to_multiset() == old(self).data@.to_multiset(),
                forall|i: int| 0 < i < n && parent(i) != idx ==> self.data@[parent(i)].0 >= #[trigger] self.data@[i].0,
                forall|i: int| 0 < i < n && parent(i) == idx && idx > 0 ==> self.data@[parent(idx as int)].0 >= #[trigger] self.data@[i].0,
            ensures
                n == self.data@.len(),
                self.capacity == old(self).capacity,
                self.data@.to_multiset() == old(self).data@.to_multiset(),
                heap_order(self.data@),
            decreases n - idx,
        {
            let left = if idx < n / 2 { 2 * idx + 1 } else { n };
            if left >= n {
                proof {
                    assert forall|i: int| 0 < i < n implies self.data@[parent(i)].0 >= #[trigger] self.data@[i].0 by {
                        if parent(i) == idx {
                            assert(i >= 2 * idx + 1);
                        }
                    }
                }
                break;
            }
            let mut child = left;
            if left + 1 < n && self.data[left + 1].0 > self.data[left].0 {
                child = left + 1;
            }
            if self.data[child].0 <= self.data[idx].0 {
                proof {
                    assert forall|i: int| 0 < i < n && parent(i) == idx implies self.data@[parent(i)].0 >= #[trigger] self.data@[i].0 by {
                        assert(i == left || i == left + 1);
                    }
                    assert forall|i: int| 0 < i < n implies self.data@[parent(i)].0 >= #[trigger] self.data@[i].0 by {
                        if parent(i) == idx {
                            assert(self.data@[parent(i)].0 >= self.data@[i].0);
                        }
                    }
                }
                break;
            }
            let ghost s = self.data@;
            let a = self.data[idx];
            let b = self.data[child];
            self.data.set(idx, b);
            self.data.set(child, a);
            proof {
                lemma_swap_multiset(s, self.data@, idx as int, child as int);
                assert(parent(child as int) == idx);
                assert forall|i: int| 0 < i < n && parent(i) != child implies self.data@[parent(i)].0 >= #[trigger] self.data@[i].0 by {
                    if i == child {
                    } else if parent(i) == idx {
                        assert(i == left || i == left + 1);
                    } else if i == idx {
                        assert(s[parent(idx as int)].0 >= s[child as int].0);
                    } else {
                        assert(s[parent(i)].0 >= s[i].0);
                    }
                }
                assert forall|i: int| 0 < i < n && parent(i) == child && child > 0 implies self.data@[parent(child as int)].0 >= #[trigger] self.data@[i].0 by {
                    assert(s[child as int].0 >= s[i].0);
                }
            }
            idx = child;
        }
    }

    /// The elements held, by ascending score.
    pub fn get_elements(&self) -> (r: Vec<(u64, usize)>)
        ensures
            sorted_by_score(r@),
            r@.to_multiset() == self.elements(),
    {
        let mut v: Vec<(u64, usize)> = Vec::new();
        let mut i: usize = 0;
        while i < self.data.len()
            invariant
                i <= self.data@.len(),
                v@ == self.data@.subrange(0, i as int),
            decreases self.data@.len() - i,
        {
            v.push(self.data[i]);
            i = i + 1;
        }
        assert(v@ =~= self.data@);
        sort_by_score(&mut v);
        v
    }
}

/// The `k` smallest of `scores` with their positions, by ascending score:
/// each score is offered in turn to a heap bounded by `k`. Among equal
/// scores the heap decides which positions are kept.
pub fn ranked_positions(scores: &[u64], k: usize) -> (r: Vec<(u64, usize)>)
    ensures
        sorted_by_score(r@),
        r@.len() == if k < scores@.len() {
            k as int
        } else {
            scores@.len() as int
        },
        forall|i: int|
            0 <= i < r@.len() ==> (#[trigger] r@[i]).1 < scores@.len() && scores@[r@[i].1 as int]
                == r@[i].0,
        forall|i: int, j: int| 0 <= i < j < r@.len() ==> r@[i].1 != r@[j].1,
        forall|j: int|
            #![trigger scores@[j]]
            0 <= j < scores@.len() ==> (exists|i: int| 0 <= i < r@.len() && (#[trigger] r@[i]).1 == j)
                || (forall|i: int| 0 <= i < r@.len() ==> (#[trigger] r@[i]).0 <= scores@[j]),
{
    let mut heap = Heap::new(k);
    let mut i: usize = 0;
    while i < scores.len()
        invariant
            i <= scores@.len(),
            heap.wf(),
            heap.bound() == k,
            heap.elements().len() == if k < i {
                k as int
            } else {
                i as int
            },
            forall|e: (u64, usize)| #[trigger]
                heap.elements().count(e) > 0 ==> e.1 < i && scores@[e.1 as int] == e.0
                    && heap.elements().count(e) == 1,
            i <= k ==> forall|j: int|
                0 <= j < i ==> #[trigger] heap.elements().count((scores@[j], j as usize)) > 0,
            forall|j: int|
                0 <= j < i ==> #[trigger] heap.elements().count((scores@[j], j as usize)) > 0
                    || forall|e: (u64, usize)| #[trigger]
                    heap.elements().count(e) > 0 ==> e.0 <= scores@[j],
        decreases scores@.len() - i,
    {
        let ghost before = heap.elements();
        let score = scores[i];
        heap.insert(score, i);
        proof {
            let after = heap.elements();
            let new = (score, i);
            assert(before.count(new) == 0);
            if before.len() < k {
                assert(after == before.insert(new));
            } else if exists|e: (u64, usize)| #[trigger] before.count(e) > 0 && score < e.0 {
                let m = choose|m: (u64, usize)|
                    is_max_score(before, m.0) && #[trigger] before.count(m) > 0 && after
                        == before.remove(m).insert(new);
                assert(after == before.remove(m).insert(new));
                assert forall|j: int|
                    0 <= j < i + 1 implies #[trigger] after.count((scores@[j], j as usize)) > 0
                        || forall|e: (u64, usize)| #[trigger]
                        after.count(e) > 0 ==> e.0 <= scores@[j] by {
                    let x = (scores@[j], j as usize);
                    if j < i && after.count(x) == 0 {
                        if before.count(x) > 0 {
                            assert(x == m);
                        }
                        assert forall|e: (u64, usize)| #[trigger]
                            after.count(e) > 0 implies e.0 <= scores@[j] by {
                            if e != new {
                                assert(before.count(e) > 0);
                            }
                        }
                    }
                }
            } else {
                assert(after == before);
            }
        }
        i = i + 1;
    }
    let r = heap.get_elements();
    proof {
        let m = heap.elements();
        assert forall|x: (u64, usize)| r@.to_multiset().contains(x) implies r@.to_multiset().count(x) == 1 by {
            assert(m.count(x) > 0);
        }
        r@.lemma_multiset_has_no_duplicates_conv();
        assert forall|a: int| 0 <= a < r@.len() implies (#[trigger] r@[a]).1 < scores@.len()
            && scores@[r@[a].1 as int] == r@[a].0 by {
            assert(r@.contains(r@[a]));
            assert(m.count(r@[a]) > 0);
        }
        assert forall|a: int, b: int| 0 <= a < b < r@.len() implies r@[a].1 != r@[b].1 by {
            assert(r@[a] != r@[b]);
            assert(r@.contains(r@[a]));
            assert(r@.contains(r@[b]));
            assert(m.count(r@[a]) > 0);
            assert(m.count(r@[b]) > 0);
        }
        assert forall|j: int| #![trigger scores@[j]] 0 <= j < scores@.len() implies (exists|a: int| 0 <= a < r@.len() && (#[trigger] r@[a]).1 == j)
            || (forall|a: int| 0 <= a < r@.len() ==> (#[trigger] r@[a]).0 <= scores@[j]) by {
            let x = (scores@[j], j as usize);
            if m.count(x) > 0 {
                assert(r@.contains(x));
                let a = choose|a: int| 0 <= a < r@.len() && r@[a] == x;
                assert(r@[a].1 == j);
            } else {
                assert forall|a: int| 0 <= a < r@.len() implies (#[trigger] r@[a]).0 <= scores@[j] by {
                    assert(r@.contains(r@[a]));
                    assert(m.count(r@[a]) > 0);
                }
            }
        }
    }
    r
}

/// Sorts the pairs by ascending score.
fn sort_by_score(v: &mut Vec<(u64, usize)>)
    ensures
        sorted_by_score(final(v)@),
        final(v)@.to_multiset() == old(v)@.to_multiset(),
{
    let n = v.len();
    let mut i: usize = 1;
    if n == 0 {
        return;
    }
    while i < n
        invariant
            1 <= i <= n,
            n == v@.len(),
            v@.to_multiset() == old(v)@.to_multiset(),
            sorted_by_score(v@.subrange(0, i as int)),
        decreases n - i,
    {
        let mut j: usize = i;
        proof {
            let prefix = v@.subrange(0, i as int);
            assert forall|a: int, b: int| 0 <= a < b <= i && a != j && b != j implies v@[a].0 <= v@[b].0 by {
                assert(prefix[a] == v@[a]);
                assert(prefix[b] == v@[b]);
            }
        }
        while j > 0 && v[j - 1].0 > v[j].0
            invariant
                0 <= j <= i < n,
                n == v@.len(),
                v@.to_multiset() == old(v)@.to_multiset(),
                forall|a: int, b: int| 0 <= a < b <= i && a != j && b != j ==> v@[a].0 <= v@[b].0,
                forall|b: int| j < b <= i ==> v@[j as int].0 < v@[b].0,
            decreases j,
        {
            let ghost s = v@;
            let a = v[j - 1];
            let b = v[j];
            v.set(j - 1, b);
            v.set(j, a);
            proof {
                lemma_swap_multiset(s, v@, j - 1, j as int);
                assert forall|x: int, y: int| 0 <= x < y <= i && x != j - 1 && y != j - 1 implies v@[x].0 <= v@[y].0 by {
                    if y == j {
                        assert(s[x].0 <= s[j - 1].0 || x == j);
                    } else if x == j {
                        assert(s[j - 1].0 <= s[y].0);
                    } else {
                        assert(s[x].0 <= s[y].0);
                    }
                }
            }
            j = j - 1;
        }
        proof {
            let ghost prefix = v@.subrange(0, i as int + 1);
            assert forall|a: int, b: int| 0 <= a < b < i + 1 implies (#[trigger] prefix[a]).0 <= (#[trigger] prefix[b]).0 by {
                if a == j {
                } else if b == j {
                    assert(j > 0);
                    assert(v@[j - 1].0 <= v@[j as int].0);
                    if a != j - 1 {
                        assert(v@[a].0 <= v@[j - 1].0);
                    }
                } else {
                    assert(v@[a].0 <= v@[b].0);
                }
            }
        }
        i = i + 1;
    }
    assert(v@.subrange(0, n as int) =~= v@);
}

/// The order-preserving key of a 64-bit floating-point number, given its
/// bits: keys of finite numbers compare as the numbers do.
pub fn score_key(bits: u64) -> (r: u64)
    ensures
        r == score_key_spec(bits),
        key_score(r) == bits,
{
    let r = if bits & 0x8000_0000_0000_0000u64 != 0 {
        !bits
    } else {
        bits | 0x8000_0000_0000_0000u64
    };
    assert(key_score(r) == bits) by (bit_vector)
        requires
            r == if bits & 0x8000_0000_0000_0000u64 != 0 {
                !bits
            } else {
                bits | 0x8000_0000_0000_0000u64
            },
    ;
    r
}

/// The bits of the floating-point number whose key is `key`.
pub open spec fn key_score(key: u64) -> u64 {
    if key & 0x8000_0000_0000_0000u64 != 0 {
        key & 0x7fff_ffff_ffff_ffffu64
    } else {
        !key
    }
}

/// The bits of the floating-point number whose key is `key`; the inverse of
/// `score_key`.
pub fn score_bits(key: u64) -> (r: u64)
    ensures
        r == key_score(key),
        score_key_spec(r) == key,
{
    let r = if key & 0x8000_0000_0000_0000u64 != 0 {
        key & 0x7fff_ffff_ffff_ffffu64
    } else {
        !key
    };
    assert(score_key_spec(r) == key) by (bit_vector)
        requires
            r == if key & 0x8000_0000_0000_0000u64 != 0 {
                key & 0x7fff_ffff_ffff_ffffu64
            } else {
                !key
            },
    ;
    r
}

/// The order-preserving key of the floating-point number with bits `bits`.
pub open spec fn score_key_spec(bits: u64) -> u64 {
    if bits & 0x8000_0000_0000_0000u64 != 0 {
        !bits
    } else {
        bits | 0x8000_0000_0000_0000u64
    }
}

} // verus!
