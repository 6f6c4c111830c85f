//! The point store: a set of 2-lane points held as their Morton keys in a
//! sorted vector, with insertion and the lazy range scan that walks the keys
//! between two Morton bounds, skipping out-of-rectangle runs with BIGMIN.

use vstd::prelude::*;

use crate::indexer::ZOrderIndexer;
use crate::morton::{morton2, morton_2, morton_reverse_2};

verus! {

/// Strictly ascending, so each key occurs once.
pub open spec fn sorted_strict(s: Seq<u64>) -> bool {
    forall|i: int, j: int| 0 <= i < j < s.len() ==> s[i] < s[j]
}

/// The stored keys at positions from `i` on that lie in the rectangle, in
/// their stored order.
pub open spec fn rect_keys_from(s: Seq<u64>, zi: ZOrderIndexer<2>, i: int) -> Seq<u64>
    decreases s.len() - i,
{
    if i < 0 || i >= s.len() {
        Seq::empty()
    } else if zi.in_rect(s[i]) {
        seq![s[i]] + rect_keys_from(s, zi, i + 1)
    } else {
        rect_keys_from(s, zi, i + 1)
    }
}

/// A key appears in the scan of the tail from `i` iff it is stored there and
/// lies in the rectangle: the scan is the brute-force filter.
pub proof fn lemma_rect_keys_mem(s: Seq<u64>, zi: ZOrderIndexer<2>, i: int, k: u64)
    requires
        0 <= i,
    ensures
        rect_keys_from(s, zi, i).contains(k) <==> (exists|j: int|
            i <= j < s.len() && s[j] == k && zi.in_rect(k)),
    decreases s.len() - i,
{
    if i < 0 || i >= s.len() {
    } else {
        lemma_rect_keys_mem(s, zi, i + 1, k);
        let tail = rect_keys_from(s, zi, i + 1);
        let cur = rect_keys_from(s, zi, i);
        // the scanned tail embeds into the current scan either way.
        if tail.contains(k) {
            let j = choose|j: int| 0 <= j < tail.len() && tail[j] == k;
            if zi.in_rect(s[i]) {
                assert(cur[j + 1] == k);
            }
            assert(cur.contains(k));
            let l = choose|l: int| i + 1 <= l < s.len() && s[l] == k && zi.in_rect(k);
            assert(i <= l < s.len() && s[l] == k && zi.in_rect(k));
        }
        if cur.contains(k) && !tail.contains(k) {
            // then the head position is the witness.
            let j = choose|j: int| 0 <= j < cur.len() && cur[j] == k;
            if zi.in_rect(s[i]) {
                assert(cur == seq![s[i]] + tail);
                if j > 0 {
                    assert(tail[j - 1] == k);
                }
                assert(k == s[i]);
                assert(i <= i < s.len() && s[i] == k && zi.in_rect(k));
            }
        }
        if !cur.contains(k) && (exists|j: int| i <= j < s.len() && s[j] == k && zi.in_rect(k)) {
            let j = choose|j: int| i <= j < s.len() && s[j] == k && zi.in_rect(k);
            if j == i {
                assert(zi.in_rect(s[i]));
                assert(cur == seq![s[i]] + tail);
                assert(cur[0] == k);
            } else {
                assert(i + 1 <= j < s.len() && s[j] == k && zi.in_rect(k));
                assert(tail.contains(k));
            }
        }
    }
}

/// The scan of a strictly sorted key vector is itself strictly ascending.
pub proof fn lemma_rect_keys_sorted(s: Seq<u64>, zi: ZOrderIndexer<2>, i: int)
    requires
        sorted_strict(s),
    ensures
        sorted_strict(rect_keys_from(s, zi, i)),
        forall|j: int|
            0 <= j < rect_keys_from(s, zi, i).len() ==> (exists|l: int|
                i <= l < s.len() && s[l] == #[trigger] rect_keys_from(s, zi, i)[j]),
    decreases s.len() - i,
{
    if i < 0 || i >= s.len() {
    } else {
        lemma_rect_keys_sorted(s, zi, i + 1);
        let tail = rect_keys_from(s, zi, i + 1);
        let cur = rect_keys_from(s, zi, i);
        if zi.in_rect(s[i]) {
            assert(cur == seq![s[i]] + tail);
            assert forall|a: int, b: int| 0 <= a < b < cur.len() implies cur[a] < cur[b] by {
                assert(cur[b] == tail[b - 1]);
                let l = choose|l: int| i + 1 <= l < s.len() && s[l] == tail[b - 1];
                if a == 0 {
                    assert(cur[a] == s[i]);
                    assert(s[i] < s[l]);
                } else {
                    assert(cur[a] == tail[a - 1]);
                }
            }
            assert forall|j: int| 0 <= j < cur.len() implies (exists|l: int|
                i <= l < s.len() && s[l] == #[trigger] cur[j]) by {
                if j == 0 {
                    assert(s[i] == cur[0]);
                } else {
                    assert(cur[j] == tail[j - 1]);
                    let l = choose|l: int| i + 1 <= l < s.len() && s[l] == tail[j - 1];
                    assert(s[l] == cur[j]);
                }
            }
        }
    }
}

/// Positions whose keys lie outside the rectangle contribute nothing: the
/// scan may skip from `i` to `j` over them.
pub proof fn lemma_rect_keys_skip(s: Seq<u64>, zi: ZOrderIndexer<2>, i: int, j: int)
    requires
        0 <= i <= j <= s.len(),
        forall|l: int| i <= l < j ==> !zi.in_rect(#[trigger] s[l]),
    ensures
        rect_keys_from(s, zi, i) == rect_keys_from(s, zi, j),
    decreases j - i,
{
    if i < j {
        lemma_rect_keys_skip(s, zi, i + 1, j);
    }
}

/// The range scan equals the brute-force filter: a key is scanned iff it is
/// stored and lies in the rectangle. Together with `lemma_rect_keys_sorted`
/// this pins the scan's output down completely: the same members as the
/// brute-force filter, in ascending Morton key order.
pub proof fn lemma_scan_is_brute_force(t: QuadTree, zi: ZOrderIndexer<2>, k: u64)
    ensures
        rect_keys_from(t.keys@, zi, 0).contains(k) <==> (t.has_key(k) && zi.in_rect(k)),
{
    lemma_rect_keys_mem(t.keys@, zi, 0, k);
}

/// Find the first position whose key is at least `k`, by binary search.
pub fn lower_bound(keys: &Vec<u64>, k: u64) -> (r: usize)
    requires
        sorted_strict(keys@),
    ensures
        r <= keys@.len(),
        forall|i: int| 0 <= i < r ==> keys@[i] < k,
        forall|i: int| r <= i < keys@.len() ==> keys@[i] >= k,
{
    let mut lo: usize = 0;
    let mut hi: usize = keys.len();
    while lo < hi
        invariant
            lo <= hi <= keys@.len(),
            sorted_strict(keys@),
            forall|i: int| 0 <= i < lo ==> keys@[i] < k,
            forall|i: int| hi <= i < keys@.len() ==> keys@[i] >= k,
        decreases hi - lo,
    {
        let mid = lo + (hi - lo) / 2;
        if keys[mid] < k {
            lo = mid + 1;
        } else {
            hi = mid;
        }
    }
    lo
}

/// The point store: the Morton keys of the stored points, strictly sorted.
/// A key determines its point (the codec is bijective), so the keys are the
/// whole state.
pub struct QuadTree {
    /// The Morton keys of the stored points, strictly ascending.
    pub keys: Vec<u64>,
}

impl QuadTree {
    /// The keys are strictly sorted.
    pub open spec fn wf(self) -> bool {
        sorted_strict(self.keys@)
    }

    /// Is the Morton key `k` stored?
    pub open spec fn has_key(self, k: u64) -> bool {
        self.keys@.contains(k)
    }

    /// Is the point `p` stored?
    pub open spec fn has_point(self, p: (u32, u32)) -> bool {
        self.has_key(morton2(p.0, p.1))
    }

    /// An empty store.
    pub fn new() -> (r: Self)
        ensures
            r.wf(),
            r.keys@.len() == 0,
    {
        QuadTree { keys: Vec::new() }
    }

    /// How many points are stored.
    pub fn len(&self) -> (r: usize)
        ensures
            r == self.keys@.len(),
    {
        self.keys.len()
    }

    /// Store a point: its Morton key joins the sorted keys. Inserting a point
    /// again leaves the store unchanged.
    pub fn insert(&mut self, point: (u32, u32))
        requires
            old(self).wf(),
        ensures
            final(self).wf(),
            forall|k: u64|
                final(self).has_key(k) <==> (old(self).has_key(k) || k == morton2(
                    point.0,
                    point.1,
                )),
    {
        let z = morton_2(point.0, point.1);
        let i = lower_bound(&self.keys, z);
        if i < self.keys.len() && self.keys[i] == z {
            proof {
                assert(self.keys@[i as int] == z);
                assert(self.has_key(z));
            }
            return ;
        }
        let ghost s = self.keys@;
        self.keys.insert(i, z);
        proof {
            let s2 = self.keys@;
            assert(s2 == s.insert(i as int, z));
            assert forall|a: int| 0 <= a < i implies s2[a] == s[a] by {}
            assert(s2[i as int] == z);
            assert forall|a: int| i < a < s2.len() implies s2[a] == s[a - 1] by {}
            assert forall|a: int, b: int| 0 <= a < b < s2.len() implies s2[a] < s2[b] by {
                if a < i && b > i {
                    assert(s[a] < z);
                    assert(s[b - 1] >= z && s[b - 1] != z);
                } else if a == i && b > i {
                    assert(s[b - 1] >= z && s[b - 1] != z);
                } else if a < i && b == i {
                    assert(s[a] < z);
                }
            }
            assert forall|k: u64| s2.contains(k) implies (s.contains(k) || k == z) by {
                let j = choose|j: int| 0 <= j < s2.len() && s2[j] == k;
                if j < i {
                    assert(s[j] == k);
                } else if j > i {
                    assert(s[j - 1] == k);
                }
            }
            assert forall|k: u64| s.contains(k) || k == z implies s2.contains(k) by {
                if k == z {
                    assert(s2[i as int] == k);
                } else {
                    let j = choose|j: int| 0 <= j < s.len() && s[j] == k;
                    if j < i {
                        assert(s2[j] == k);
                    } else {
                        assert(s2[j + 1] == k);
                    }
                }
            }
        }
    }

    /// Open a lazy range scan over the rectangle with the given corner
    /// coordinates (lane-encoded, lower corner first).
    pub fn query(&self, min: (u32, u32), max: (u32, u32)) -> (r: RangeQuery)
        requires
            self.wf(),
            min.0 <= max.0,
            min.1 <= max.1,
        ensures
            r.wf(*self),
            r.zi.wf(),
            r.zi.zbounds == (morton2(min.0, min.1), morton2(max.0, max.1)),
            r.remaining(*self) == rect_keys_from(self.keys@, r.zi, 0),
    {
        let zi = ZOrderIndexer::<2>::new(min, max);
        let lo = zi.bounds().0;
        let i = lower_bound(&self.keys, lo);
        proof {
            assert forall|l: int| 0 <= l < i implies !zi.in_rect(#[trigger] self.keys@[l]) by {
                if zi.in_rect(self.keys@[l]) {
                    zi.lemma_in_rect_bounds(self.keys@[l]);
                }
            }
            lemma_rect_keys_skip(self.keys@, zi, 0, i as int);
        }
        RangeQuery { zi, idx: i, misses: 0 }
    }
}

impl Default for QuadTree {
    /// An empty store.
    fn default() -> (r: Self)
        ensures
            r.wf(),
            r.keys@.len() == 0,
    {
        QuadTree::new()
    }
}

/// How many consecutive misses the scan tolerates before it asks BIGMIN for
/// the next in-rectangle key and re-seeks: scanning a few dozen keys linearly
/// is cheaper than a seek for short out-of-rectangle runs.
pub const MISS_LIMIT: u32 = 32;

/// A lazy range scan: the sequence of stored points inside a rectangle, in
/// ascending Morton key order, pulled one at a time.
pub struct RangeQuery {
    /// The query rectangle.
    pub zi: ZOrderIndexer<2>,
    /// The scan position in the store's key vector.
    pub idx: usize,
    /// Consecutive out-of-rectangle keys seen since the last hit or seek.
    pub misses: u32,
}

impl RangeQuery {
    /// The scan is positioned inside the store it was opened on.
    pub open spec fn wf(self, t: QuadTree) -> bool {
        &&& t.wf()
        &&& self.zi.wf()
        &&& self.idx <= t.keys@.len()
        &&& self.misses < MISS_LIMIT
    }

    /// The keys this scan has yet to emit, in order.
    pub open spec fn remaining(self, t: QuadTree) -> Seq<u64> {
        rect_keys_from(t.keys@, self.zi, self.idx as int)
    }

    /// The next stored point inside the rectangle, in ascending key order;
    /// `None` once the rectangle is exhausted. Runs of out-of-rectangle keys
    /// shorter than `MISS_LIMIT` are stepped over one by one; longer runs are
    /// skipped in one BIGMIN seek.
    pub fn next(&mut self, t: &QuadTree) -> (r: Option<(u32, u32)>)
        requires
            old(self).wf(*t),
        ensures
            final(self).wf(*t),
            final(self).zi == old(self).zi,
            match r {
                Some(p) => {
                    &&& old(self).remaining(*t).len() > 0
                    &&& morton2(p.0, p.1) == old(self).remaining(*t)[0]
                    &&& final(self).remaining(*t) == old(self).remaining(*t).skip(1)
                    &&& t.has_point(p)
                    &&& old(self).zi.in_rect(morton2(p.0, p.1))
                },
                None => {
                    &&& old(self).remaining(*t).len() == 0
                    &&& final(self).remaining(*t).len() == 0
                },
            },
    {
        loop
            invariant
                t.wf(),
                self.zi.wf(),
                self.zi == old(self).zi,
                self.idx <= t.keys@.len(),
                self.misses < MISS_LIMIT,
                rect_keys_from(t.keys@, self.zi, self.idx as int) == old(self).remaining(*t),
            decreases t.keys@.len() - self.idx,
        {
            if self.idx >= t.keys.len() {
                return None;
            }
            let k = t.keys[self.idx];
            assert(k == t.keys@[self.idx as int]);
            if self.zi.contains(k) {
                let p = morton_reverse_2(k);
                proof {
                    let tail = rect_keys_from(t.keys@, self.zi, self.idx as int + 1);
                    assert(old(self).remaining(*t) == seq![k] + tail);
                    assert(old(self).remaining(*t)[0] == k);
                    assert(old(self).remaining(*t).skip(1) =~= tail);
                    assert(t.keys@.contains(k));
                }
                self.idx = self.idx + 1;
                self.misses = 0;
                return Some(p);
            }
            if self.misses + 1 < MISS_LIMIT {
                self.misses = self.misses + 1;
                self.idx = self.idx + 1;
                continue ;
            }
            // the run of misses is long: seek to the next in-rectangle key.
            match self.zi.next_zorder_index(k) {
                None => {
                    proof {
                        assert forall|l: int|
                            self.idx as int <= l < t.keys@.len() implies !self.zi.in_rect(
                            #[trigger] t.keys@[l],
                        ) by {
                            if l > self.idx as int {
                                assert(t.keys@[l] > k);
                            }
                        }
                        lemma_rect_keys_skip(
                            t.keys@,
                            self.zi,
                            self.idx as int,
                            t.keys@.len() as int,
                        );
                    }
                    return None;
                },
                Some(k2) => {
                    let j = lower_bound(&t.keys, k2);
                    proof {
                        assert(t.keys@[self.idx as int] == k && k < k2);
                        assert(j > self.idx) by {
                            if j <= self.idx {
                                assert(t.keys@[self.idx as int] >= k2);
                            }
                        }
                        assert forall|l: int| self.idx as int <= l < j implies !self.zi.in_rect(
                            #[trigger] t.keys@[l],
                        ) by {
                            if l > self.idx as int {
                                assert(t.keys@[l] > k);
                                assert(t.keys@[l] < k2);
                            }
                        }
                        lemma_rect_keys_skip(t.keys@, self.zi, self.idx as int, j as int);
                    }
                    self.idx = j;
                    self.misses = 0;
                },
            }
        }
    }
}

} // verus!
