//! The nearest-neighbor driver: emits stored points in non-decreasing
//! Chebyshev (L-infinity) distance from a query point, lazily. Growing
//! annuli around the query are decomposed into four rectangular shells, each
//! shell's Morton hull is range-scanned with the BIGMIN skip, and confirmed
//! candidates are kept in a queue sorted by distance.

use vstd::prelude::*;

use crate::indexer::ZOrderIndexer;
use crate::morton::{collapse2, lemma_morton2_roundtrip, morton2, morton_2, morton_reverse_2};
use crate::store::{lower_bound, QuadTree, MISS_LIMIT};

verus! {

// ---------------------------------------------------------------------------
// Chebyshev distance on lane-encoded coordinates.
// ---------------------------------------------------------------------------

/// The absolute difference of two lane coordinates.
pub open spec fn lane_diff(a: u32, b: u32) -> u32 {
    if a < b {
        (b - a) as u32
    } else {
        (a - b) as u32
    }
}

/// Chebyshev distance: the larger of the two lane differences.
pub open spec fn cheb(p: (u32, u32), q: (u32, u32)) -> u32 {
    if lane_diff(p.0, q.0) >= lane_diff(p.1, q.1) {
        lane_diff(p.0, q.0)
    } else {
        lane_diff(p.1, q.1)
    }
}

/// The point a Morton key stands for.
pub open spec fn decode2(k: u64) -> (u32, u32) {
    (collapse2(k >> 1u64), collapse2(k))
}

/// Chebyshev distance from a stored key's point to the query point.
pub open spec fn key_dist(k: u64, q: (u32, u32)) -> u32 {
    cheb(decode2(k), q)
}

fn lane_diff_u32(a: u32, b: u32) -> (r: u32)
    ensures
        r == lane_diff(a, b),
{
    if a < b {
        b - a
    } else {
        a - b
    }
}

/// Chebyshev distance of two lane-encoded points.
pub fn cheb_dist(p: (u32, u32), q: (u32, u32)) -> (r: u32)
    ensures
        r == cheb(p, q),
{
    let dx = lane_diff_u32(p.0, q.0);
    let dy = lane_diff_u32(p.1, q.1);
    if dx >= dy {
        dx
    } else {
        dy
    }
}

/// Subtraction clipped at the lane domain's lower edge.
pub open spec fn sat_sub(a: u32, b: u32) -> u32 {
    if a >= b {
        (a - b) as u32
    } else {
        0
    }
}

/// Addition clipped at the lane domain's upper edge.
pub open spec fn sat_add(a: u32, b: u32) -> u32 {
    if a + b <= u32::MAX {
        (a + b) as u32
    } else {
        u32::MAX
    }
}

fn sat_sub_u32(a: u32, b: u32) -> (r: u32)
    ensures
        r == sat_sub(a, b),
{
    if a >= b {
        a - b
    } else {
        0
    }
}

fn sat_add_u32(a: u32, b: u32) -> (r: u32)
    ensures
        r == sat_add(a, b),
{
    if b <= u32::MAX - a {
        a + b
    } else {
        u32::MAX
    }
}

/// The point of a key whose encoding is known: decoding gives it back.
proof fn lemma_key_point(p: (u32, u32), k: u64)
    requires
        morton2(p.0, p.1) == k,
    ensures
        decode2(k) == p,
{
    lemma_morton2_roundtrip(p.0, p.1);
}

/// Membership in a shell, stated over the decoded lanes of a key, given the
/// corner coordinates the shell was built from.
proof fn lemma_shell_coords(zi: ZOrderIndexer<2>, c0: (u32, u32), c1: (u32, u32), k: u64)
    requires
        zi.zbounds == (morton2(c0.0, c0.1), morton2(c1.0, c1.1)),
    ensures
        zi.in_rect(k) <==> (c0.0 <= collapse2(k >> 1u64) <= c1.0 && c0.1 <= collapse2(k)
            <= c1.1),
{
    crate::indexer::lemma_rect2_coords(zi.zbounds.0, zi.zbounds.1, k);
    lemma_morton2_roundtrip(c0.0, c0.1);
    lemma_morton2_roundtrip(c1.0, c1.1);
}

/// A key lies in one of the shells.
pub open spec fn in_shells(zis: Seq<ZOrderIndexer<2>>, k: u64) -> bool {
    exists|i: int| 0 <= i < zis.len() && (#[trigger] zis[i]).in_rect(k)
}

/// Every shell is well-formed and holds only keys of the annulus
/// `[lo_r, hi_r]` around `q`.
pub open spec fn shells_ok(zis: Seq<ZOrderIndexer<2>>, q: (u32, u32), lo_r: u32, hi_r: u32) -> bool {
    &&& forall|i: int| 0 <= i < zis.len() ==> (#[trigger] zis[i]).wf()
    &&& forall|i: int, k: u64|
        0 <= i < zis.len() && #[trigger] zis[i].in_rect(k) ==> lo_r <= key_dist(k, q) <= hi_r
}

/// A shell built from corners inside the saturated `hi_r` box around `q`,
/// with one side at least `lo_r` away from `q` on some lane, holds only keys
/// of the annulus `[lo_r, hi_r]`.
proof fn lemma_shell_sound(
    zi: ZOrderIndexer<2>,
    c0: (u32, u32),
    c1: (u32, u32),
    q: (u32, u32),
    lo_r: u32,
    hi_r: u32,
)
    requires
        zi.zbounds == (morton2(c0.0, c0.1), morton2(c1.0, c1.1)),
        1 <= lo_r <= hi_r,
        sat_sub(q.0, hi_r) <= c0.0,
        c1.0 <= sat_add(q.0, hi_r),
        sat_sub(q.1, hi_r) <= c0.1,
        c1.1 <= sat_add(q.1, hi_r),
        (q.0 >= lo_r && c1.0 <= q.0 - lo_r) || (q.0 + lo_r <= u32::MAX && c0.0 >= q.0 + lo_r) || (
        q.1 >= lo_r && c1.1 <= q.1 - lo_r) || (q.1 + lo_r <= u32::MAX && c0.1 >= q.1 + lo_r),
    ensures
        forall|k: u64| #[trigger] zi.in_rect(k) ==> lo_r <= key_dist(k, q) <= hi_r,
{
    assert forall|k: u64| #[trigger] zi.in_rect(k) implies lo_r <= key_dist(k, q) <= hi_r by {
        lemma_shell_coords(zi, c0, c1, k);
        assert(decode2(k) == (collapse2(k >> 1u64), collapse2(k)));
    }
}

// ---------------------------------------------------------------------------
// The candidate queue: kept sorted by distance to the query point, largest
// first, so the nearest candidate is popped from the back.
// ---------------------------------------------------------------------------

/// Sorted by distance to `q`, largest first.
pub open spec fn sorted_desc(s: Seq<(u32, u32)>, q: (u32, u32)) -> bool {
    forall|i: int, j: int| 0 <= i < j < s.len() ==> cheb(#[trigger] s[i], q) >= cheb(#[trigger] s[j], q)
}

/// Insert a candidate into the queue at its place in the descending order.
fn queue_insert(v: &mut Vec<(u32, u32)>, q: (u32, u32), p: (u32, u32))
    requires
        sorted_desc(old(v)@, q),
    ensures
        sorted_desc(final(v)@, q),
        final(v)@.len() == old(v)@.len() + 1,
        forall|x: (u32, u32)| final(v)@.contains(x) <==> (old(v)@.contains(x) || x == p),
        (forall|i: int, j: int|
            0 <= i < j < old(v)@.len() ==> #[trigger] old(v)@[i] != #[trigger] old(v)@[j]) && !old(
            v,
        )@.contains(p) ==> (forall|i: int, j: int|
            0 <= i < j < final(v)@.len() ==> #[trigger] final(v)@[i] != #[trigger] final(v)@[j]),
{
    let d = cheb_dist(p, q);
    let mut pos: usize = 0;
    while pos < v.len()
        invariant_except_break
            d == cheb(p, q),
            v@ == old(v)@,
            pos <= v@.len(),
            forall|i: int| 0 <= i < pos ==> cheb(#[trigger] v@[i], q) >= cheb(p, q),
        ensures
            v@ == old(v)@,
            pos <= v@.len(),
            forall|i: int| 0 <= i < pos ==> cheb(#[trigger] v@[i], q) >= cheb(p, q),
            pos < v@.len() ==> cheb(v@[pos as int], q) < cheb(p, q),
        decreases v@.len() - pos,
    {
        let e = v[pos];
        if cheb_dist(e, q) < d {
            break ;
        }
        pos = pos + 1;
    }
    let ghost s = v@;
    v.insert(pos, p);
    proof {
        let s2 = v@;
        assert(s2 == s.insert(pos as int, p));
        assert forall|a: int| 0 <= a < pos implies s2[a] == s[a] by {}
        assert(s2[pos as int] == p);
        assert forall|a: int| pos < a < s2.len() implies s2[a] == s[a - 1] by {}
        assert forall|a: int, b: int| 0 <= a < b < s2.len() implies cheb(s2[a], q) >= cheb(
            s2[b],
            q,
        ) by {
            if a < pos && b == pos {
            } else if a == pos && b > pos {
                assert(s[b - 1] == s2[b]);
                if pos < s.len() {
                    assert(cheb(s[pos as int], q) < cheb(p, q));
                    assert(cheb(s[b - 1], q) <= cheb(s[pos as int], q));
                }
            } else if a < pos && b > pos {
                assert(cheb(s2[a], q) >= cheb(p, q));
                assert(s[b - 1] == s2[b]);
                if pos < s.len() {
                    assert(cheb(s[b - 1], q) <= cheb(s[pos as int], q));
                }
            }
        }
        assert forall|x: (u32, u32)| s2.contains(x) implies (s.contains(x) || x == p) by {
            let j = choose|j: int| 0 <= j < s2.len() && s2[j] == x;
            if j < pos {
                assert(s[j] == x);
            } else if j > pos {
                assert(s[j - 1] == x);
            }
        }
        assert forall|x: (u32, u32)| s.contains(x) || x == p implies s2.contains(x) by {
            if x == p {
                assert(s2[pos as int] == x);
            } else {
                let j = choose|j: int| 0 <= j < s.len() && s[j] == x;
                if j < pos {
                    assert(s2[j] == x);
                } else {
                    assert(s2[j + 1] == x);
                }
            }
        }
        if (forall|i: int, j: int| 0 <= i < j < s.len() ==> #[trigger] s[i] != #[trigger] s[j])
            && !s.contains(p) {
            assert forall|i: int, j: int| 0 <= i < j < s2.len() implies #[trigger] s2[i]
                != #[trigger] s2[j] by {
                if i == pos {
                    assert(s2[j] == s[j - 1]);
                    assert(s.contains(s[j - 1]));
                } else if j == pos {
                    assert(s2[i] == s[i]);
                    assert(s.contains(s[i]));
                } else {
                    let i0: int = if i < pos {
                        i
                    } else {
                        i - 1
                    };
                    let j0: int = if j < pos {
                        j
                    } else {
                        j - 1
                    };
                    assert(s2[i] == s[i0] && s2[j] == s[j0]);
                }
            }
        }
    }
}

// ---------------------------------------------------------------------------
// The driver.
// ---------------------------------------------------------------------------

/// How many seed items one annulus expansion pulls from the merged cursors:
/// their largest distance becomes the annulus' outer radius.
pub const SEED_BATCH: u32 = 8;


/// The up-to-four shells of the annulus `[lo_r, hi_r]` around `q`: strips
/// beside the query on the x lane for the points nearer than `lo_r` on the
/// y lane, and full-width bands beside it on the y lane. Shells are clipped
/// to the lane domain, a side that leaves the domain entirely drops its
/// shell, and together they cover the annulus exactly.
fn build_shells(q: (u32, u32), lo_r: u32, hi_r: u32) -> (zis: Vec<ZOrderIndexer<2>>)
    requires
        1 <= lo_r <= hi_r,
    ensures
        shells_ok(zis@, q, lo_r, hi_r),
        forall|k: u64| lo_r <= key_dist(k, q) && key_dist(k, q) <= hi_r ==> in_shells(zis@, k),
{
    let qx = q.0;
    let qy = q.1;
    let m1 = lo_r - 1;
    let ys0 = sat_sub_u32(qy, m1);
    let ys1 = sat_add_u32(qy, m1);
    let xf0 = sat_sub_u32(qx, hi_r);
    let xf1 = sat_add_u32(qx, hi_r);
    let mut zis: Vec<ZOrderIndexer<2>> = Vec::new();
    let ghost mut i_xlo: int = -1;
    let ghost mut i_xhi: int = -1;
    let ghost mut i_ylo: int = -1;
    let ghost mut i_yhi: int = -1;
    // strip before the query on the x lane.
    if qx >= lo_r {
        let c0 = (xf0, ys0);
        let c1 = (qx - lo_r, ys1);
        let zi = ZOrderIndexer::<2>::new(c0, c1);
        proof {
            lemma_shell_sound(zi, c0, c1, q, lo_r, hi_r);
            i_xlo = zis@.len() as int;
        }
        zis.push(zi);
        proof {
            assert(zis@[i_xlo] == zi);
        }
    }
    // strip after the query on the x lane.
    if lo_r <= u32::MAX - qx {
        let c0 = (qx + lo_r, ys0);
        let c1 = (xf1, ys1);
        let zi = ZOrderIndexer::<2>::new(c0, c1);
        proof {
            lemma_shell_sound(zi, c0, c1, q, lo_r, hi_r);
            i_xhi = zis@.len() as int;
        }
        zis.push(zi);
        proof {
            assert(zis@[i_xhi] == zi);
        }
    }
    // band before the query on the y lane.
    if qy >= lo_r {
        let c0 = (xf0, sat_sub_u32(qy, hi_r));
        let c1 = (xf1, qy - lo_r);
        let zi = ZOrderIndexer::<2>::new(c0, c1);
        proof {
            lemma_shell_sound(zi, c0, c1, q, lo_r, hi_r);
            i_ylo = zis@.len() as int;
        }
        zis.push(zi);
        proof {
            assert(zis@[i_ylo] == zi);
        }
    }
    // band after the query on the y lane.
    if lo_r <= u32::MAX - qy {
        let c0 = (xf0, qy + lo_r);
        let c1 = (xf1, sat_add_u32(qy, hi_r));
        let zi = ZOrderIndexer::<2>::new(c0, c1);
        proof {
            lemma_shell_sound(zi, c0, c1, q, lo_r, hi_r);
            i_yhi = zis@.len() as int;
        }
        zis.push(zi);
        proof {
            assert(zis@[i_yhi] == zi);
        }
    }
    proof {
        // the four shells cover the annulus.
        assert forall|k: u64|
            lo_r <= key_dist(k, q) && key_dist(k, q) <= hi_r implies in_shells(
            zis@,
            k,
        ) by {
            let xk = collapse2(k >> 1u64);
            let yk = collapse2(k);
            assert(decode2(k) == (xk, yk));
            if lane_diff(yk, qy) < lo_r {
                assert(lane_diff(xk, qx) == key_dist(k, q));
                if xk <= qx {
                    assert(qx >= lo_r);
                    assert(0 <= i_xlo < zis@.len());
                    lemma_shell_coords(zis@[i_xlo], (xf0, ys0), ((qx - lo_r) as u32, ys1), k);
                    assert(zis@[i_xlo].in_rect(k));
                } else {
                    assert(xk >= qx + lo_r);
                    assert(lo_r <= u32::MAX - qx);
                    assert(0 <= i_xhi < zis@.len());
                    lemma_shell_coords(zis@[i_xhi], ((qx + lo_r) as u32, ys0), (xf1, ys1), k);
                    assert(zis@[i_xhi].in_rect(k));
                }
            } else {
                if yk <= qy {
                    assert(qy >= lo_r);
                    assert(0 <= i_ylo < zis@.len());
                    lemma_shell_coords(
                        zis@[i_ylo],
                        (xf0, sat_sub(qy, hi_r)),
                        (xf1, (qy - lo_r) as u32),
                        k,
                    );
                    assert(zis@[i_ylo].in_rect(k));
                } else {
                    assert(yk >= qy + lo_r);
                    assert(lo_r <= u32::MAX - qy);
                    assert(0 <= i_yhi < zis@.len());
                    lemma_shell_coords(
                        zis@[i_yhi],
                        (xf0, (qy + lo_r) as u32),
                        (xf1, sat_add(qy, hi_r)),
                        k,
                    );
                    assert(zis@[i_yhi].in_rect(k));
                }
            }
        }
        assert(shells_ok(zis@, q, lo_r, hi_r));
    }
    zis
}

/// A lazy nearest-neighbor scan. Each call to `next` emits a stored point of
/// minimal Chebyshev distance to `q` among those not yet emitted, so the
/// emitted sequence is non-decreasing in distance, and `None` comes only
/// once every stored point has been emitted.
pub struct NearestQuery {
    /// The query point, lane-encoded.
    pub q: (u32, u32),
    /// Seed cursor walking keys below the query's Morton key, downwards:
    /// positions below `lo` are not yet consumed.
    pub lo: usize,
    /// Seed cursor walking keys at or above the query's Morton key, upwards:
    /// positions at or above `hi` are not yet consumed.
    pub hi: usize,
    /// Confirmed candidates, sorted by distance to `q`, largest first; all
    /// nearer than `min_dist` and not yet emitted.
    pub queue: Vec<(u32, u32)>,
    /// The inner radius of the next annulus to search: everything strictly
    /// nearer is already emitted or queued.
    pub min_dist: u64,
    /// The keys emitted so far.
    pub emitted: Ghost<Set<u64>>,
    /// The distance of the last emitted point.
    pub floor: Ghost<u32>,
}

impl NearestQuery {
    /// The key of a queued candidate.
    pub open spec fn queue_key(self, i: int) -> u64 {
        morton2(self.queue@[i].0, self.queue@[i].1)
    }

    /// All the state invariants tying the scan to its store.
    pub open spec fn wf(self, t: QuadTree) -> bool {
        &&& t.wf()
        &&& self.lo <= self.hi <= t.keys@.len()
        &&& 1 <= self.min_dist <= 0x1_0000_0000u64
        &&& (self.floor@ as u64) < self.min_dist
        &&& sorted_desc(self.queue@, self.q)
        &&& forall|i: int| 0 <= i < self.queue@.len() ==> t.has_point(#[trigger] self.queue@[i])
        &&& forall|i: int|
            0 <= i < self.queue@.len() ==> !self.emitted@.contains(
                morton2((#[trigger] self.queue@[i]).0, self.queue@[i].1),
            )
        &&& forall|i: int, j: int|
            0 <= i < j < self.queue@.len() ==> #[trigger] self.queue@[i] != #[trigger] self.queue@[j]
        &&& forall|i: int|
            0 <= i < self.queue@.len() ==> self.floor@ <= cheb(#[trigger] self.queue@[i], self.q)
                && (cheb(self.queue@[i], self.q) as u64) < self.min_dist
        &&& forall|k: u64|
            #[trigger] self.emitted@.contains(k) ==> t.has_key(k) && key_dist(k, self.q)
                <= self.floor@
        &&& forall|k: u64|
            #[trigger] t.has_key(k) && (key_dist(k, self.q) as u64) < self.min_dist ==> (
            self.emitted@.contains(k) || self.queue@.contains(decode2(k)))
        &&& forall|j: int|
            self.lo <= j < self.hi ==> (key_dist(#[trigger] t.keys@[j], self.q) as u64)
                < self.min_dist
    }

    /// Emit a stored point of minimal Chebyshev distance to the query point
    /// among those not yet emitted, or `None` once every stored point has
    /// been emitted. Emitted distances never decrease.
    ///
    /// When the candidate queue is empty, up to `SEED_BATCH` unconsumed seeds
    /// at distance at least `min_dist` fix the outer radius of the next
    /// annulus; the annulus is decomposed into four shells, clipped to the
    /// lane domain and dropped when empty, and the stored keys of the shells'
    /// Morton hull are scanned into the queue.
    #[verifier::rlimit(100)]
    pub fn next(&mut self, t: &QuadTree) -> (r: Option<(u32, u32)>)
        requires
            old(self).wf(*t),
        ensures
            final(self).wf(*t),
            final(self).q == old(self).q,
            match r {
                Some(p) => {
                    &&& t.has_point(p)
                    &&& !old(self).emitted@.contains(morton2(p.0, p.1))
                    &&& final(self).emitted@ == old(self).emitted@.insert(morton2(p.0, p.1))
                    &&& cheb(p, old(self).q) >= old(self).floor@
                    &&& final(self).floor@ == cheb(p, old(self).q)
                    &&& forall|k: u64|
                        #[trigger] t.has_key(k) && !old(self).emitted@.contains(k) ==> key_dist(
                            k,
                            old(self).q,
                        ) >= cheb(p, old(self).q)
                },
                None => {
                    &&& final(self).emitted@ == old(self).emitted@
                    &&& final(self).floor@ == old(self).floor@
                    &&& forall|k: u64| #[trigger] t.has_key(k) ==> final(self).emitted@.contains(k)
                },
            },
    {
        let n = t.keys.len();
        loop
            invariant
                self.wf(*t),
                self.q == old(self).q,
                self.emitted == old(self).emitted,
                self.floor == old(self).floor,
                n == t.keys@.len(),
            decreases self.lo + (t.keys@.len() - self.hi),
        {
            let ghost snap = *self;
            if self.queue.len() > 0 {
                // emit the nearest confirmed candidate.
                let ghost qs = self.queue@;
                let popped = self.queue.pop();
                match popped {
                    Some(p) => {
                        let ghost kp = morton2(p.0, p.1);
                        proof {
                            assert(p == qs[qs.len() - 1]);
                            assert(self.queue@ == qs.subrange(0, qs.len() - 1));
                            lemma_key_point(p, kp);
                            // p has the least distance in the queue.
                            assert forall|i: int| 0 <= i < qs.len() implies cheb(qs[i], self.q)
                                >= cheb(p, self.q) by {}
                            // and the least distance among everything not yet emitted.
                            assert forall|k: u64|
                                #[trigger] t.has_key(k) && !self.emitted@.contains(
                                    k,
                                ) implies key_dist(k, self.q) >= cheb(p, self.q) by {
                                if (key_dist(k, self.q) as u64) < self.min_dist {
                                    assert(qs.contains(decode2(k)));
                                    let i = choose|i: int|
                                        0 <= i < qs.len() && qs[i] == decode2(k);
                                    assert(cheb(qs[i], self.q) >= cheb(p, self.q));
                                }
                            }
                            // distinct queue points have distinct keys.
                            assert forall|i: int|
                                0 <= i < self.queue@.len() implies morton2(
                                (#[trigger] self.queue@[i]).0,
                                self.queue@[i].1,
                            ) != kp by {
                                if morton2(self.queue@[i].0, self.queue@[i].1) == kp {
                                    lemma_key_point(self.queue@[i], kp);
                                    assert(qs[i] == qs[qs.len() - 1]);
                                }
                            }
                        }
                        let dp = cheb_dist(p, self.q);
                        self.emitted = Ghost(self.emitted@.insert(kp));
                        self.floor = Ghost(dp);
                        proof {
                            assert forall|k: u64|
                                #[trigger] t.has_key(k) && (key_dist(k, self.q) as u64)
                                    < self.min_dist implies (self.emitted@.contains(k)
                                || self.queue@.contains(decode2(k))) by {
                                if !snap.emitted@.contains(k) && k != kp {
                                    assert(qs.contains(decode2(k)));
                                    let i = choose|i: int|
                                        0 <= i < qs.len() && qs[i] == decode2(k);
                                    if i == qs.len() - 1 {
                                        crate::morton::lemma_morton2_surjective(k);
                                        assert(k == kp);
                                    } else {
                                        assert(self.queue@[i] == decode2(k));
                                    }
                                }
                            }
                            assert(t.has_point(p));
                        }
                        return Some(p);
                    },
                    None => {
                        proof {
                            assert(false);
                        }
                        return None;
                    },
                }
            }
            if !self.expand(t) {
                return None;
            }
        }
    }

    /// One annulus expansion: pull seeds to size the next annulus, scan its
    /// shells' Morton hull into the candidate queue, and advance `min_dist`
    /// past the searched band. Returns false when the seed cursors are
    /// exhausted with nothing left to search, i.e. everything is emitted.
    #[verifier::rlimit(100)]
    fn expand(&mut self, t: &QuadTree) -> (more: bool)
        requires
            old(self).wf(*t),
            old(self).queue@.len() == 0,
        ensures
            final(self).wf(*t),
            final(self).q == old(self).q,
            final(self).emitted == old(self).emitted,
            final(self).floor == old(self).floor,
            more ==> final(self).lo + (t.keys@.len() - final(self).hi) < old(self).lo + (
            t.keys@.len() - old(self).hi),
            !more ==> forall|k: u64| #[trigger] t.has_key(k) ==> final(self).emitted@.contains(k),
    {
        let n = t.keys.len();
        let ghost snap = *self;
        // pull seeds to size the next annulus.
        let mut cnt: u32 = 0;
        let mut dmax: u32 = 0;
        let mut seeds_done = false;
        #[verifier::loop_isolation(false)]
        while cnt < SEED_BATCH && !seeds_done
            invariant
                seeds_done ==> self.lo == 0 && self.hi == t.keys@.len(),
                self.lo <= self.hi <= t.keys@.len(),
                self.q == snap.q,
                self.queue == snap.queue,
                self.emitted == snap.emitted,
                self.floor == snap.floor,
                self.min_dist == snap.min_dist,
                self.lo <= snap.lo,
                snap.hi <= self.hi,
                cnt <= SEED_BATCH,
                cnt > 0 ==> self.min_dist <= dmax as u64,
                cnt > 0 ==> self.lo + (t.keys@.len() - self.hi) < snap.lo + (t.keys@.len()
                    - snap.hi),
                forall|j: int|
                    self.lo <= j < self.hi ==> ((key_dist(#[trigger] t.keys@[j], self.q) as u64)
                        < self.min_dist || (cnt > 0 && key_dist(t.keys@[j], self.q) <= dmax)),
            decreases self.lo + (t.keys@.len() - self.hi) + (if seeds_done {
                0int
            } else {
                1int
            }),
        {
            let a_ok = self.lo > 0;
            let b_ok = self.hi < n;
            if !a_ok && !b_ok {
                seeds_done = true;
            } else {
                let take_a = if a_ok && b_ok {
                    let pa = morton_reverse_2(t.keys[self.lo - 1]);
                    let pb = morton_reverse_2(t.keys[self.hi]);
                    cheb_dist(pa, self.q) <= cheb_dist(pb, self.q)
                } else {
                    a_ok
                };
                let ghost j0: int = if take_a {
                    self.lo - 1
                } else {
                    self.hi as int
                };
                let k = if take_a {
                    self.lo = self.lo - 1;
                    t.keys[self.lo]
                } else {
                    let kk = t.keys[self.hi];
                    self.hi = self.hi + 1;
                    kk
                };
                proof {
                    assert(k == t.keys@[j0]);
                }
                let p = morton_reverse_2(k);
                let d = cheb_dist(p, self.q);
                proof {
                    assert(decode2(k) == p);
                    assert(key_dist(k, self.q) == d);
                }
                if self.min_dist <= d as u64 {
                    cnt = cnt + 1;
                    if d > dmax {
                        dmax = d;
                    }
                }
            }
        }
        if cnt == 0 {
            // the seed cursors are exhausted and nothing is left at or
            // beyond min_dist: everything stored has been emitted.
            proof {
                assert(self.lo == 0 && self.hi == t.keys@.len());
                assert forall|k: u64| #[trigger] t.has_key(k) implies self.emitted@.contains(
                    k,
                ) by {
                    let j = choose|j: int| 0 <= j < t.keys@.len() && t.keys@[j] == k;
                    assert((key_dist(t.keys@[j], self.q) as u64) < self.min_dist);
                    assert(self.emitted@.contains(k) || self.queue@.contains(decode2(k)));
                }
            }
            return false;
        }
        // the annulus to search: everything at distance in [lo_r, hi_r].
        let lo_r: u32 = self.min_dist as u32;
        let hi_r: u32 = dmax;
        proof {
            assert(self.min_dist <= dmax as u64);
            assert(lo_r as u64 == self.min_dist);
            assert(1 <= lo_r <= hi_r);
        }
        let zis = build_shells(self.q, lo_r, hi_r);
        if zis.len() > 0 {
            // the Morton hull of the shells.
            let mut hmin = zis[0].bounds().0;
            let mut hmax = zis[0].bounds().1;
            let mut hj: usize = 1;
            #[verifier::loop_isolation(false)]
            while hj < zis.len()
                invariant
                    1 <= hj <= zis@.len(),
                    forall|i: int|
                        0 <= i < hj ==> hmin <= (#[trigger] zis@[i]).zmin() && zis@[i].zmax()
                            <= hmax,
                decreases zis@.len() - hj,
            {
                let b = zis[hj].bounds();
                if b.0 < hmin {
                    hmin = b.0;
                }
                if b.1 > hmax {
                    hmax = b.1;
                }
                hj = hj + 1;
            }
            // scan the hull, testing each key against every shell and
            // skipping long out-of-shell runs with the least BIGMIN.
            let mut idx = lower_bound(&t.keys, hmin);
            let mut misses: u32 = 0;
            proof {
                assert forall|j: int|
                    0 <= j < idx && in_shells(zis@, #[trigger] t.keys@[j]) implies self.queue@.contains(decode2(t.keys@[j])) by {
                    let i = choose|i: int| 0 <= i < zis@.len() && zis@[i].in_rect(t.keys@[j]);
                    zis@[i].lemma_in_rect_bounds(t.keys@[j]);
                }
            }
            let mut scan_done = false;
            #[verifier::loop_isolation(false)]
            while !scan_done
                invariant
                    idx <= t.keys@.len(),
                    misses < MISS_LIMIT,
                    scan_done ==> forall|j: int|
                        0 <= j < t.keys@.len() && in_shells(zis@, #[trigger] t.keys@[j])
                            ==> self.queue@.contains(decode2(t.keys@[j])),
                    self.q == snap.q,
                    self.emitted == snap.emitted,
                    self.floor == snap.floor,
                    self.min_dist == snap.min_dist,
                    self.lo + (t.keys@.len() - self.hi) < snap.lo + (t.keys@.len() - snap.hi),
                    self.lo <= self.hi <= t.keys@.len(),
                    forall|j: int|
                        self.lo <= j < self.hi ==> ((key_dist(#[trigger] t.keys@[j], self.q)
                            as u64) < self.min_dist || key_dist(t.keys@[j], self.q) <= dmax),
                    sorted_desc(self.queue@, self.q),
                    forall|i: int, j: int|
                        0 <= i < j < self.queue@.len() ==> #[trigger] self.queue@[i]
                            != #[trigger] self.queue@[j],
                    forall|x: (u32, u32)| #[trigger]
                        self.queue@.contains(x) ==> t.has_point(x) && lo_r <= cheb(x, self.q)
                            && cheb(x, self.q) <= hi_r && !self.emitted@.contains(
                            morton2(x.0, x.1),
                        ) && (exists|j: int|
                            0 <= j < idx && t.keys@[j] == morton2(x.0, x.1)),
                    forall|k: u64|
                        #[trigger] t.has_key(k) && (key_dist(k, self.q) as u64) < self.min_dist
                            ==> (self.emitted@.contains(k) || self.queue@.contains(decode2(k))),
                    forall|j: int|
                        0 <= j < idx && in_shells(zis@, #[trigger] t.keys@[j])
                            ==> self.queue@.contains(decode2(t.keys@[j])),
                decreases t.keys@.len() - idx + (if scan_done {
                    0int
                } else {
                    1int
                }),
            {
                if idx >= n {
                    scan_done = true;
                } else {
                    let k = t.keys[idx];
                    if k > hmax {
                        proof {
                            assert forall|j: int|
                                idx <= j < t.keys@.len() implies !in_shells(
                                zis@,
                                #[trigger] t.keys@[j],
                            ) by {
                                if in_shells(zis@, t.keys@[j]) {
                                    let i = choose|i: int|
                                        0 <= i < zis@.len() && zis@[i].in_rect(t.keys@[j]);
                                    zis@[i].lemma_in_rect_bounds(t.keys@[j]);
                                    assert(t.keys@[j] >= k);
                                }
                            }
                        }
                        scan_done = true;
                    } else {
                        // does any shell accept this key?
                        let mut any = false;
                        let mut si: usize = 0;
                        #[verifier::loop_isolation(false)]
                        while si < zis.len()
                            invariant
                                si <= zis@.len(),
                                any ==> in_shells(zis@, k),
                                !any ==> forall|i: int|
                                    0 <= i < si ==> !(#[trigger] zis@[i]).in_rect(k),
                            decreases zis@.len() - si,
                        {
                            if zis[si].contains(k) {
                                any = true;
                                proof {
                                    assert(zis@[si as int].in_rect(k));
                                }
                            }
                            si = si + 1;
                        }
                        if any {
                            let p = morton_reverse_2(k);
                            proof {
                                assert(decode2(k) == p);
                                assert(morton2(p.0, p.1) == k);
                                assert(lo_r <= key_dist(k, self.q) <= hi_r);
                                if self.emitted@.contains(k) {
                                    assert(key_dist(k, self.q) <= self.floor@);
                                    assert(false);
                                }
                                if self.queue@.contains(p) {
                                    let j = choose|j: int|
                                        0 <= j < idx && t.keys@[j] == morton2(p.0, p.1);
                                    assert(t.keys@[j] == t.keys@[idx as int]);
                                    assert(false);
                                }
                            }
                            queue_insert(&mut self.queue, self.q, p);
                            proof {
                                assert forall|x: (u32, u32)| #[trigger]
                                    self.queue@.contains(x) implies t.has_point(x) && lo_r <= cheb(
                                    x,
                                    self.q,
                                ) && cheb(x, self.q) <= hi_r && !self.emitted@.contains(
                                    morton2(x.0, x.1),
                                ) && (exists|j: int|
                                    0 <= j < idx + 1 && t.keys@[j] == morton2(x.0, x.1)) by {
                                    if x == p {
                                        assert(t.keys@[idx as int] == morton2(x.0, x.1));
                                    } else {
                                        let j = choose|j: int|
                                            0 <= j < idx && t.keys@[j] == morton2(x.0, x.1);
                                        assert(0 <= j < idx + 1 && t.keys@[j] == morton2(x.0, x.1));
                                    }
                                }
                            }
                            misses = 0;
                            idx = idx + 1;
                        } else {
                            proof {
                                assert(!in_shells(zis@, k));
                            }
                            if misses + 1 < MISS_LIMIT {
                                misses = misses + 1;
                                idx = idx + 1;
                            } else {
                                // seek to the least next in-shell key.
                                let mut best: Option<u64> = None;
                                let mut sj: usize = 0;
                                #[verifier::loop_isolation(false)]
                                while sj < zis.len()
                                    invariant
                                        sj <= zis@.len(),
                                        match best {
                                            Some(m) => m > k,
                                            None => true,
                                        },
                                        forall|i: int, w: u64|
                                            #![trigger zis@[i].in_rect(w)]
                                            0 <= i < sj && zis@[i].in_rect(w) && w > k ==> (match best {
                                                Some(m) => w >= m,
                                                None => false,
                                            }),
                                    decreases zis@.len() - sj,
                                {
                                    match zis[sj].next_zorder_index(k) {
                                        Some(m) => {
                                            let nb = match best {
                                                Some(b) => if m < b {
                                                    m
                                                } else {
                                                    b
                                                },
                                                None => m,
                                            };
                                            best = Some(nb);
                                        },
                                        None => {},
                                    }
                                    sj = sj + 1;
                                }
                                match best {
                                    None => {
                                        proof {
                                            assert forall|j: int|
                                                idx <= j < t.keys@.len() implies !in_shells(
                                                zis@,
                                                #[trigger] t.keys@[j],
                                            ) by {
                                                if in_shells(zis@, t.keys@[j]) {
                                                    let i = choose|i: int|
                                                        0 <= i < zis@.len() && zis@[i].in_rect(
                                                            t.keys@[j],
                                                        );
                                                    if j > idx {
                                                        assert(t.keys@[j] > k);
                                                    }
                                                }
                                            }
                                        }
                                        scan_done = true;
                                    },
                                    Some(k2) => {
                                        let j2 = lower_bound(&t.keys, k2);
                                        proof {
                                            assert(t.keys@[idx as int] == k && k < k2);
                                            assert(j2 > idx) by {
                                                if j2 <= idx {
                                                    assert(t.keys@[idx as int] >= k2);
                                                }
                                            }
                                            assert forall|j: int|
                                                idx <= j < j2 implies !in_shells(
                                                zis@,
                                                #[trigger] t.keys@[j],
                                            ) by {
                                                if in_shells(zis@, t.keys@[j]) {
                                                    let i = choose|i: int|
                                                        0 <= i < zis@.len() && zis@[i].in_rect(
                                                            t.keys@[j],
                                                        );
                                                    if j > idx {
                                                        assert(t.keys@[j] > k);
                                                        assert(t.keys@[j] < k2);
                                                    }
                                                }
                                            }
                                        }
                                        idx = j2;
                                        misses = 0;
                                    },
                                }
                            }
                        }
                    }
                }
            }
        }
        // grow the annulus: the searched band is done.
        proof {
            assert forall|k: u64|
                #[trigger] t.has_key(k) && (key_dist(k, self.q) as u64) < dmax as u64
                    + 1 implies (self.emitted@.contains(k) || self.queue@.contains(
                decode2(k),
            )) by {
                if (key_dist(k, self.q) as u64) >= self.min_dist {
                    assert(lo_r <= key_dist(k, self.q) <= hi_r);
                    assert(in_shells(zis@, k));
                    let j = choose|j: int| 0 <= j < t.keys@.len() && t.keys@[j] == k;
                    assert(in_shells(zis@, t.keys@[j]));
                    assert(self.queue@.contains(decode2(t.keys@[j])));
                }
            }
        }
        self.min_dist = (dmax as u64) + 1;
        proof {
            assert forall|i: int|
                0 <= i < self.queue@.len() implies t.has_point(#[trigger] self.queue@[i])
                    && !self.emitted@.contains(
                    morton2(self.queue@[i].0, self.queue@[i].1),
                ) && self.floor@ <= cheb(self.queue@[i], self.q) && (cheb(
                    self.queue@[i],
                    self.q,
                ) as u64) < self.min_dist by {
                assert(self.queue@.contains(self.queue@[i]));
            }
        }
        true
    }
}

impl QuadTree {
    /// Open a lazy nearest-neighbor scan around the lane-encoded query point.
    /// If the query point itself is stored it seeds the candidate queue, so
    /// it is emitted first, at distance zero.
    pub fn nearest(&self, q: (u32, u32)) -> (r: NearestQuery)
        requires
            self.wf(),
        ensures
            r.wf(*self),
            r.q == q,
            r.emitted@ == Set::<u64>::empty(),
    {
        let z = morton_2(q.0, q.1);
        let s = lower_bound(&self.keys, z);
        let mut queue: Vec<(u32, u32)> = Vec::new();
        let mut hi = s;
        if s < self.keys.len() && self.keys[s] == z {
            queue.push(q);
            hi = s + 1;
            proof {
                assert(self.keys@[s as int] == z);
                assert(self.has_key(z));
                lemma_key_point(q, z);
                assert(queue@[0] == q);
            }
        }
        let r = NearestQuery {
            q,
            lo: s,
            hi,
            queue,
            min_dist: 1,
            emitted: Ghost(Set::empty()),
            floor: Ghost(0),
        };
        proof {
            assert(cheb(q, q) == 0);
            assert forall|k: u64|
                #[trigger] self.has_key(k) && (key_dist(k, q) as u64)
                    < 1 implies (r.emitted@.contains(k) || r.queue@.contains(decode2(k))) by {
                assert(key_dist(k, q) == 0);
                let p = decode2(k);
                assert(lane_diff(p.0, q.0) == 0 && lane_diff(p.1, q.1) == 0);
                assert(p == q);
                crate::morton::lemma_morton2_surjective(k);
                assert(morton2(q.0, q.1) == k);
                let j = choose|j: int| 0 <= j < self.keys@.len() && self.keys@[j] == k;
                assert(j >= s) by {
                    if j < s {
                        assert(self.keys@[j] < z);
                    }
                }
                assert(j == s) by {
                    if j > s {
                        assert(self.keys@[s as int] >= z);
                        assert(self.keys@[j] > self.keys@[s as int]);
                    }
                }
                assert(r.queue@[0] == q);
            }
            assert forall|j: int| r.lo <= j < r.hi implies (key_dist(
                #[trigger] self.keys@[j],
                q,
            ) as u64) < 1 by {
                assert(self.keys@[j] == z);
                lemma_key_point(q, z);
            }
        }
        r
    }
}

} // verus!
