//! The Z-order indexer: a rectangle held as a pair of Morton keys, with
//! membership testing and the BIGMIN successor computation — the least key
//! strictly above a given one that still lies in the rectangle.

use vstd::prelude::*;

use crate::morton::{
    collapse2, collapse4, lemma_morton2_lane_cmp, lemma_morton2_roundtrip, lemma_morton4_lane_cmp,
    lemma_morton4_roundtrip, morton2, morton4, morton_2, morton_4, DIM2_X, DIM2_Y, DIM4_W, DIM4_X,
    DIM4_Y, DIM4_Z,
};

verus! {

// ---------------------------------------------------------------------------
// Rectangle membership in Morton space.
// ---------------------------------------------------------------------------

/// A key `w` lies in the 2-lane Morton rectangle `[lo, hi]` iff the bits `w`
/// holds in each lane's mask lie between the corners' bits in that mask.
pub open spec fn rect2_has(lo: u64, hi: u64, w: u64) -> bool {
    &&& lo & DIM2_X <= w & DIM2_X
    &&& w & DIM2_X <= hi & DIM2_X
    &&& lo & DIM2_Y <= w & DIM2_Y
    &&& w & DIM2_Y <= hi & DIM2_Y
}

/// A key `w` lies in the 4-lane Morton rectangle `[lo, hi]` iff the bits `w`
/// holds in each lane's mask lie between the corners' bits in that mask.
pub open spec fn rect4_has(lo: u64, hi: u64, w: u64) -> bool {
    &&& lo & DIM4_X <= w & DIM4_X
    &&& w & DIM4_X <= hi & DIM4_X
    &&& lo & DIM4_Y <= w & DIM4_Y
    &&& w & DIM4_Y <= hi & DIM4_Y
    &&& lo & DIM4_Z <= w & DIM4_Z
    &&& w & DIM4_Z <= hi & DIM4_Z
    &&& lo & DIM4_W <= w & DIM4_W
    &&& w & DIM4_W <= hi & DIM4_W
}

/// Rectangle membership for a lane count of 2 or 4.
pub open spec fn rect_has(d: int, lo: u64, hi: u64, w: u64) -> bool {
    if d == 2 {
        rect2_has(lo, hi, w)
    } else if d == 4 {
        rect4_has(lo, hi, w)
    } else {
        false
    }
}

/// Lane-wise membership bounds the key itself: the lane masks partition the
/// 64 bits, so per-mask comparisons add up to a comparison of whole keys.
pub proof fn lemma_rect2_bounds(lo: u64, hi: u64, w: u64)
    by (bit_vector)
    requires
        rect2_has(lo, hi, w),
    ensures
        lo <= w,
        w <= hi,
{
}

/// Lane-wise membership bounds the key itself (4-lane form).
pub proof fn lemma_rect4_bounds(lo: u64, hi: u64, w: u64)
    by (bit_vector)
    requires
        rect4_has(lo, hi, w),
    ensures
        lo <= w,
        w <= hi,
{
}

/// Membership of a key in a 2-lane Morton rectangle is exactly coordinate-wise
/// membership of its decoded lanes between the corners' decoded lanes.
pub proof fn lemma_rect2_coords(lo: u64, hi: u64, z: u64)
    ensures
        rect2_has(lo, hi, z) <==> (collapse2(lo >> 1u64) <= collapse2(z >> 1u64) <= collapse2(
            hi >> 1u64,
        ) && collapse2(lo) <= collapse2(z) <= collapse2(hi)),
{
    lemma_morton2_lane_cmp(lo, z);
    lemma_morton2_lane_cmp(z, hi);
}

/// Membership of a key in a 4-lane Morton rectangle is exactly coordinate-wise
/// membership of its decoded lanes between the corners' decoded lanes.
pub proof fn lemma_rect4_coords(lo: u64, hi: u64, z: u64)
    ensures
        rect4_has(lo, hi, z) <==> (collapse4(lo >> 3u64) <= collapse4(z >> 3u64) <= collapse4(
            hi >> 3u64,
        ) && collapse4(lo >> 2u64) <= collapse4(z >> 2u64) <= collapse4(hi >> 2u64) && collapse4(
            lo >> 1u64,
        ) <= collapse4(z >> 1u64) <= collapse4(hi >> 1u64) && collapse4(lo) <= collapse4(z)
            <= collapse4(hi)),
{
    lemma_morton4_lane_cmp(lo, z);
    lemma_morton4_lane_cmp(z, hi);
}

/// The lane-mask membership test is exactly coordinate-wise containment: an
/// encoded point lies in the rectangle of two encoded corners iff each of its
/// coordinates lies between the corners' coordinates.
pub proof fn lemma_contains_coords_2(lo: (u32, u32), hi: (u32, u32), p: (u32, u32))
    ensures
        rect2_has(morton2(lo.0, lo.1), morton2(hi.0, hi.1), morton2(p.0, p.1)) <==> (lo.0 <= p.0
            <= hi.0 && lo.1 <= p.1 <= hi.1),
{
    lemma_rect2_coords(morton2(lo.0, lo.1), morton2(hi.0, hi.1), morton2(p.0, p.1));
    lemma_morton2_roundtrip(lo.0, lo.1);
    lemma_morton2_roundtrip(hi.0, hi.1);
    lemma_morton2_roundtrip(p.0, p.1);
}

/// Coordinate-wise containment for the 4-lane rectangle, as above.
pub proof fn lemma_contains_coords_4(
    lo: (u16, u16, u16, u16),
    hi: (u16, u16, u16, u16),
    p: (u16, u16, u16, u16),
)
    ensures
        rect4_has(
            morton4(lo.0, lo.1, lo.2, lo.3),
            morton4(hi.0, hi.1, hi.2, hi.3),
            morton4(p.0, p.1, p.2, p.3),
        ) <==> (lo.0 <= p.0 <= hi.0 && lo.1 <= p.1 <= hi.1 && lo.2 <= p.2 <= hi.2 && lo.3 <= p.3
            <= hi.3),
{
    lemma_rect4_coords(
        morton4(lo.0, lo.1, lo.2, lo.3),
        morton4(hi.0, hi.1, hi.2, hi.3),
        morton4(p.0, p.1, p.2, p.3),
    );
    lemma_morton4_roundtrip(lo.0, lo.1, lo.2, lo.3);
    lemma_morton4_roundtrip(hi.0, hi.1, hi.2, hi.3);
    lemma_morton4_roundtrip(p.0, p.1, p.2, p.3);
}

// ---------------------------------------------------------------------------
// Bit-walk bookkeeping for the BIGMIN loop.
// ---------------------------------------------------------------------------

/// All bit positions at or below `b`.
spec fn mask_le(b: u64) -> u64 {
    !((u64::MAX << b) << 1u64)
}

/// All bit positions strictly below `b`.
spec fn mask_lt(b: u64) -> u64 {
    !(u64::MAX << b)
}

/// The 2-lane mask owning bit position `b`.
spec fn lane2_at(b: u64) -> u64 {
    if b & 1 == 1 {
        DIM2_X
    } else {
        DIM2_Y
    }
}

/// The 4-lane mask owning bit position `b`.
spec fn lane4_at(b: u64) -> u64 {
    if b & 3 == 3 {
        DIM4_X
    } else if b & 3 == 2 {
        DIM4_Y
    } else if b & 3 == 1 {
        DIM4_Z
    } else {
        DIM4_W
    }
}

/// Ones everywhere except the current lane's positions at or below bit `b`:
/// anding with it preserves the processed bits and the other lanes.
spec fn load_mask2_at(b: u64) -> u64 {
    !(lane2_at(b) & mask_le(b))
}

spec fn load_mask4_at(b: u64) -> u64 {
    !(lane4_at(b) & mask_le(b))
}

/// The current lane's positions strictly below bit `b`: oring it in fills the
/// unprocessed part of the current lane with ones.
spec fn load_ones2_at(b: u64) -> u64 {
    lane2_at(b) & mask_lt(b)
}

spec fn load_ones4_at(b: u64) -> u64 {
    lane4_at(b) & mask_lt(b)
}

proof fn lemma_init_2(z: u64, mn: u64, mx: u64)
    by (bit_vector)
    ensures
        load_mask2_at(63) == !DIM2_X,
        load_ones2_at(63) == DIM2_X >> 2u64,
        (z >> 63u64) >> 1u64 == (mn >> 63u64) >> 1u64,
        (z >> 63u64) >> 1u64 == (mx >> 63u64) >> 1u64,
{
}

proof fn lemma_init_4(z: u64, mn: u64, mx: u64)
    by (bit_vector)
    ensures
        load_mask4_at(63) == !DIM4_X,
        load_ones4_at(63) == DIM4_X >> 4u64,
        (z >> 63u64) >> 1u64 == (mn >> 63u64) >> 1u64,
        (z >> 63u64) >> 1u64 == (mx >> 63u64) >> 1u64,
{
}

proof fn lemma_load_update_2(b: u64)
    by (bit_vector)
    requires
        1 <= b <= 63,
    ensures
        load_ones2_at(b) >> 1u64 == load_ones2_at((b - 1) as u64),
        (load_mask2_at(b) >> 1u64) | 0x8000_0000_0000_0000u64 == load_mask2_at((b - 1) as u64),
{
}

proof fn lemma_load_update_4(b: u64)
    by (bit_vector)
    requires
        1 <= b <= 63,
    ensures
        load_ones4_at(b) >> 1u64 == load_ones4_at((b - 1) as u64),
        (load_mask4_at(b) >> 1u64) | 0x8000_0000_0000_0000u64 == load_mask4_at((b - 1) as u64),
{
}

/// Keys that agree at and above bit `b` also agree above bit `b - 1`.
proof fn lemma_shift_down(x: u64, y: u64, b: u64)
    by (bit_vector)
    requires
        1 <= b <= 63,
        x >> b == y >> b,
    ensures
        (x >> (b - 1) as u64) >> 1u64 == (y >> (b - 1) as u64) >> 1u64,
{
}

// ---------------------------------------------------------------------------
// The five meaningful outcomes of examining one bit position, for each lane
// count. In each lemma, `z` is the query key, `[mn, mx]` the current search
// rectangle, `b` the bit position under examination (whose lane owns it), and
// the three keys agree on all bits above `b`.
// ---------------------------------------------------------------------------

/// `z` and both corners carry the same bit: the whole rectangle sits on one
/// side of this bit's axis together with `z`, and the agreement extends.
proof fn lemma_step_same_2(z: u64, mn: u64, mx: u64, b: u64)
    by (bit_vector)
    requires
        b <= 63,
        rect2_has(mn, mx, mn),
        (z >> b) >> 1u64 == (mn >> b) >> 1u64,
        (z >> b) >> 1u64 == (mx >> b) >> 1u64,
        (z >> b) & 1 == (mn >> b) & 1,
        ((mn >> b) & 1 == 1) || ((mx >> b) & 1 == 0),
    ensures
        z >> b == mn >> b,
        z >> b == mx >> b,
{
}

proof fn lemma_step_same_4(z: u64, mn: u64, mx: u64, b: u64)
    by (bit_vector)
    requires
        b <= 63,
        rect4_has(mn, mx, mn),
        (z >> b) >> 1u64 == (mn >> b) >> 1u64,
        (z >> b) >> 1u64 == (mx >> b) >> 1u64,
        (z >> b) & 1 == (mn >> b) & 1,
        ((mn >> b) & 1 == 1) || ((mx >> b) & 1 == 0),
    ensures
        z >> b == mn >> b,
        z >> b == mx >> b,
{
}

/// `z` is before the axis and the whole rectangle after it: the rectangle's
/// lower corner is the least element of the rectangle and exceeds `z`.
proof fn lemma_step_retmin_2(z: u64, mn: u64, mx: u64, b: u64, w: u64)
    by (bit_vector)
    requires
        b <= 63,
        rect2_has(mn, mx, mn),
        (z >> b) >> 1u64 == (mn >> b) >> 1u64,
        (z >> b) >> 1u64 == (mx >> b) >> 1u64,
        (z >> b) & 1 == 0,
        (mn >> b) & 1 == 1,
    ensures
        mn > z,
        rect2_has(mn, mx, w) ==> w >= mn,
{
}

proof fn lemma_step_retmin_4(z: u64, mn: u64, mx: u64, b: u64, w: u64)
    by (bit_vector)
    requires
        b <= 63,
        rect4_has(mn, mx, mn),
        (z >> b) >> 1u64 == (mn >> b) >> 1u64,
        (z >> b) >> 1u64 == (mx >> b) >> 1u64,
        (z >> b) & 1 == 0,
        (mn >> b) & 1 == 1,
    ensures
        mn > z,
        rect4_has(mn, mx, w) ==> w >= mn,
{
}

/// `z` is after the axis and the whole rectangle before it: every element of
/// the rectangle is below `z`.
proof fn lemma_step_retbig_2(z: u64, mn: u64, mx: u64, b: u64, w: u64)
    by (bit_vector)
    requires
        b <= 63,
        rect2_has(mn, mx, mn),
        (z >> b) >> 1u64 == (mn >> b) >> 1u64,
        (z >> b) >> 1u64 == (mx >> b) >> 1u64,
        (z >> b) & 1 == 1,
        (mx >> b) & 1 == 0,
    ensures
        rect2_has(mn, mx, w) ==> w < z,
{
}

proof fn lemma_step_retbig_4(z: u64, mn: u64, mx: u64, b: u64, w: u64)
    by (bit_vector)
    requires
        b <= 63,
        rect4_has(mn, mx, mn),
        (z >> b) >> 1u64 == (mn >> b) >> 1u64,
        (z >> b) >> 1u64 == (mx >> b) >> 1u64,
        (z >> b) & 1 == 1,
        (mx >> b) & 1 == 0,
    ensures
        rect4_has(mn, mx, w) ==> w < z,
{
}

/// `z` before the axis, the rectangle straddling it. The least element of the
/// after-axis half — the current lower corner with the current lane set to
/// exactly this bit — becomes the candidate, and the search narrows to the
/// before-axis half by capping the upper corner's current lane.
proof fn lemma_step_split_2(z: u64, mn: u64, mx: u64, b: u64, w: u64)
    by (bit_vector)
    requires
        b <= 63,
        rect2_has(mn, mx, mn),
        (z >> b) >> 1u64 == (mn >> b) >> 1u64,
        (z >> b) >> 1u64 == (mx >> b) >> 1u64,
        (z >> b) & 1 == 0,
        (mn >> b) & 1 == 0,
        (mx >> b) & 1 == 1,
    ensures
        ((mn & load_mask2_at(b)) | (1u64 << b)) > z,
        rect2_has(mn, mx, (mn & load_mask2_at(b)) | (1u64 << b)),
        rect2_has(mn, (mx & load_mask2_at(b)) | load_ones2_at(b), mn),
        z >> b == mn >> b,
        z >> b == ((mx & load_mask2_at(b)) | load_ones2_at(b)) >> b,
        rect2_has(mn, (mx & load_mask2_at(b)) | load_ones2_at(b), w) ==> rect2_has(mn, mx, w),
        rect2_has(mn, mx, w) && w > z ==> (rect2_has(mn, (mx & load_mask2_at(b)) | load_ones2_at(b), w)
            || w >= ((mn & load_mask2_at(b)) | (1u64 << b))),
        rect2_has(mn, (mx & load_mask2_at(b)) | load_ones2_at(b), w) ==> w < ((mn & load_mask2_at(
            b,
        )) | (1u64 << b)),
{
}

proof fn lemma_step_split_4(z: u64, mn: u64, mx: u64, b: u64, w: u64)
    by (bit_vector)
    requires
        b <= 63,
        rect4_has(mn, mx, mn),
        (z >> b) >> 1u64 == (mn >> b) >> 1u64,
        (z >> b) >> 1u64 == (mx >> b) >> 1u64,
        (z >> b) & 1 == 0,
        (mn >> b) & 1 == 0,
        (mx >> b) & 1 == 1,
    ensures
        ((mn & load_mask4_at(b)) | (1u64 << b)) > z,
        rect4_has(mn, mx, (mn & load_mask4_at(b)) | (1u64 << b)),
        rect4_has(mn, (mx & load_mask4_at(b)) | load_ones4_at(b), mn),
        z >> b == mn >> b,
        z >> b == ((mx & load_mask4_at(b)) | load_ones4_at(b)) >> b,
        rect4_has(mn, (mx & load_mask4_at(b)) | load_ones4_at(b), w) ==> rect4_has(mn, mx, w),
        rect4_has(mn, mx, w) && w > z ==> (rect4_has(mn, (mx & load_mask4_at(b)) | load_ones4_at(b), w)
            || w >= ((mn & load_mask4_at(b)) | (1u64 << b))),
        rect4_has(mn, (mx & load_mask4_at(b)) | load_ones4_at(b), w) ==> w < ((mn & load_mask4_at(
            b,
        )) | (1u64 << b)),
{
}

/// `z` after the axis, the rectangle straddling it. The search narrows to the
/// after-axis half by raising the lower corner's current lane; nothing before
/// the axis can exceed `z`.
proof fn lemma_step_raise_2(z: u64, mn: u64, mx: u64, b: u64, w: u64)
    by (bit_vector)
    requires
        b <= 63,
        rect2_has(mn, mx, mn),
        (z >> b) >> 1u64 == (mn >> b) >> 1u64,
        (z >> b) >> 1u64 == (mx >> b) >> 1u64,
        (z >> b) & 1 == 1,
        (mn >> b) & 1 == 0,
        (mx >> b) & 1 == 1,
    ensures
        rect2_has((mn & load_mask2_at(b)) | (1u64 << b), mx, (mn & load_mask2_at(b)) | (1u64 << b)),
        z >> b == ((mn & load_mask2_at(b)) | (1u64 << b)) >> b,
        z >> b == mx >> b,
        rect2_has((mn & load_mask2_at(b)) | (1u64 << b), mx, w) ==> rect2_has(mn, mx, w),
        rect2_has(mn, mx, w) && w > z ==> rect2_has((mn & load_mask2_at(b)) | (1u64 << b), mx, w),
{
}

proof fn lemma_step_raise_4(z: u64, mn: u64, mx: u64, b: u64, w: u64)
    by (bit_vector)
    requires
        b <= 63,
        rect4_has(mn, mx, mn),
        (z >> b) >> 1u64 == (mn >> b) >> 1u64,
        (z >> b) >> 1u64 == (mx >> b) >> 1u64,
        (z >> b) & 1 == 1,
        (mn >> b) & 1 == 0,
        (mx >> b) & 1 == 1,
    ensures
        rect4_has((mn & load_mask4_at(b)) | (1u64 << b), mx, (mn & load_mask4_at(b)) | (1u64 << b)),
        z >> b == ((mn & load_mask4_at(b)) | (1u64 << b)) >> b,
        z >> b == mx >> b,
        rect4_has((mn & load_mask4_at(b)) | (1u64 << b), mx, w) ==> rect4_has(mn, mx, w),
        rect4_has(mn, mx, w) && w > z ==> rect4_has((mn & load_mask4_at(b)) | (1u64 << b), mx, w),
{
}

/// After the walk has processed every bit, the corners and `z` coincide, so
/// the only element left in the search rectangle is `z` itself.
proof fn lemma_step_final_2(z: u64, mn: u64, mx: u64, w: u64)
    by (bit_vector)
    requires
        z >> 0u64 == mn >> 0u64,
        z >> 0u64 == mx >> 0u64,
        rect2_has(mn, mx, w),
    ensures
        w == z,
{
}

proof fn lemma_step_final_4(z: u64, mn: u64, mx: u64, w: u64)
    by (bit_vector)
    requires
        z >> 0u64 == mn >> 0u64,
        z >> 0u64 == mx >> 0u64,
        rect4_has(mn, mx, w),
    ensures
        w == z,
{
}

// ---------------------------------------------------------------------------
// The indexer itself.
// ---------------------------------------------------------------------------

/// A rectangle in Morton space, held as the Morton keys of its two corners.
/// `D` is the lane count; 2 and 4 are supported.
pub struct ZOrderIndexer<const D: usize> {
    /// The Morton keys of the lower and upper corner.
    pub zbounds: (u64, u64),
}

impl<const D: usize> ZOrderIndexer<D> {
    /// The Morton key of the lower corner.
    pub open spec fn zmin(self) -> u64 {
        self.zbounds.0
    }

    /// The Morton key of the upper corner.
    pub open spec fn zmax(self) -> u64 {
        self.zbounds.1
    }

    /// The lane count is supported and the corners are ordered lane-wise.
    pub open spec fn wf(self) -> bool {
        &&& D == 2 || D == 4
        &&& rect_has(D as int, self.zmin(), self.zmax(), self.zmin())
    }

    /// Membership of a key in the rectangle, lane-mask-wise.
    pub open spec fn in_rect(self, z: u64) -> bool {
        rect_has(D as int, self.zmin(), self.zmax(), z)
    }

    /// Wrap a pair of corner keys. The corners must be ordered lane-wise;
    /// violating that is a programmer error, ruled out before the call.
    pub fn from_morton(min: u64, max: u64) -> (r: Self)
        requires
            D == 2 || D == 4,
            rect_has(D as int, min, max, min),
        ensures
            r.wf(),
            r.zbounds == (min, max),
    {
        ZOrderIndexer { zbounds: (min, max) }
    }

    /// The two corner keys, lower first.
    pub fn bounds(&self) -> (r: &(u64, u64))
        ensures
            *r == self.zbounds,
    {
        &self.zbounds
    }

    /// Every key of the rectangle lies between the corner keys.
    pub proof fn lemma_in_rect_bounds(self, w: u64)
        requires
            self.wf(),
            self.in_rect(w),
        ensures
            self.zmin() <= w <= self.zmax(),
    {
        if D == 2 {
            lemma_rect2_bounds(self.zmin(), self.zmax(), w);
        } else {
            lemma_rect4_bounds(self.zmin(), self.zmax(), w);
        }
    }

    /// Does the key lie in the rectangle?
    pub fn contains(&self, z: u64) -> (r: bool)
        requires
            self.wf(),
        ensures
            r == self.in_rect(z),
    {
        let lo = self.zbounds.0;
        let hi = self.zbounds.1;
        if D == 2 {
            lo & DIM2_X <= z & DIM2_X && z & DIM2_X <= hi & DIM2_X && lo & DIM2_Y <= z & DIM2_Y
                && z & DIM2_Y <= hi & DIM2_Y
        } else {
            lo & DIM4_X <= z & DIM4_X && z & DIM4_X <= hi & DIM4_X && lo & DIM4_Y <= z & DIM4_Y
                && z & DIM4_Y <= hi & DIM4_Y && lo & DIM4_Z <= z & DIM4_Z && z & DIM4_Z <= hi
                & DIM4_Z && lo & DIM4_W <= z & DIM4_W && z & DIM4_W <= hi & DIM4_W
        }
    }

    /// BIGMIN: the least key strictly greater than `z` that lies in the
    /// rectangle, or `None` if the rectangle holds no key above `z`.
    ///
    /// Each bit position, from the most significant down, halves the search
    /// rectangle along one lane's axis. A half on the wrong side of `z` is
    /// pruned; when `z` falls before a straddled axis, the least element of
    /// the after half is recorded as a candidate before descending into the
    /// before half.
    pub fn next_zorder_index(&self, z: u64) -> (r: Option<u64>)
        requires
            self.wf(),
        ensures
            match r {
                Some(m) => m > z && self.in_rect(m) && (forall|w: u64|
                    self.in_rect(w) && w > z ==> w >= m),
                None => forall|w: u64| self.in_rect(w) ==> w <= z,
            },
    {
        if z == u64::MAX {
            return None;
        }
        if self.contains(z + 1) {
            return Some(z + 1);
        }
        let mut min_v = self.zbounds.0;
        let mut max_v = self.zbounds.1;
        let mut bigmin: Option<u64> = None;
        let mut load_mask: u64 = if D == 2 {
            !DIM2_X
        } else {
            !DIM4_X
        };
        let mut load_ones: u64 = if D == 2 {
            DIM2_X >> 2
        } else {
            DIM4_X >> 4
        };
        let mut bit: u64 = 63;
        proof {
            if D == 2 {
                lemma_init_2(z, min_v, max_v);
            } else {
                lemma_init_4(z, min_v, max_v);
            }
        }
        loop
            invariant_except_break
                self.wf(),
                bit <= 63,
                load_mask == (if D == 2 {
                    load_mask2_at(bit)
                } else {
                    load_mask4_at(bit)
                }),
                load_ones == (if D == 2 {
                    load_ones2_at(bit)
                } else {
                    load_ones4_at(bit)
                }),
                rect_has(D as int, min_v, max_v, min_v),
                (z >> bit) >> 1u64 == (min_v >> bit) >> 1u64,
                (z >> bit) >> 1u64 == (max_v >> bit) >> 1u64,
                forall|w: u64| #[trigger] rect_has(D as int, min_v, max_v, w) ==> self.in_rect(w),
                match bigmin {
                    Some(m) => m > z && self.in_rect(m) && (forall|w: u64|
                        #[trigger] rect_has(D as int, min_v, max_v, w) ==> w < m),
                    None => true,
                },
                forall|w: u64|
                    #[trigger] self.in_rect(w) && w > z ==> (rect_has(D as int, min_v, max_v, w) || (match bigmin {
                        Some(m) => w >= m,
                        None => false,
                    })),
            ensures
                self.wf(),
                z >> 0u64 == min_v >> 0u64,
                z >> 0u64 == max_v >> 0u64,
                rect_has(D as int, min_v, max_v, min_v),
                forall|w: u64| #[trigger] rect_has(D as int, min_v, max_v, w) ==> self.in_rect(w),
                match bigmin {
                    Some(m) => m > z && self.in_rect(m) && (forall|w: u64|
                        #[trigger] rect_has(D as int, min_v, max_v, w) ==> w < m),
                    None => true,
                },
                forall|w: u64|
                    #[trigger] self.in_rect(w) && w > z ==> (rect_has(D as int, min_v, max_v, w) || (match bigmin {
                        Some(m) => w >= m,
                        None => false,
                    })),
            decreases bit,
        {
            let zb = (z >> bit) & 1;
            let ib = (min_v >> bit) & 1;
            let ab = (max_v >> bit) & 1;
            proof {
                assert((z >> bit) & 1 <= 1 && (min_v >> bit) & 1 <= 1 && (max_v >> bit) & 1
                    <= 1) by (bit_vector);
            }
            if ib == 1 {
                if zb == 0 {
                    // z is strictly before the rectangle on this axis: the
                    // lower corner is the least element, and it exceeds z.
                    proof {
                        assert forall|w: u64| #[trigger] self.in_rect(w) && w > z implies w
                            >= min_v by {
                            if rect_has(D as int, min_v, max_v, w) {
                                if D == 2 {
                                    lemma_step_retmin_2(z, min_v, max_v, bit, w);
                                } else {
                                    lemma_step_retmin_4(z, min_v, max_v, bit, w);
                                }
                            }
                        }
                        if D == 2 {
                            lemma_step_retmin_2(z, min_v, max_v, bit, min_v);
                        } else {
                            lemma_step_retmin_4(z, min_v, max_v, bit, min_v);
                        }
                    }
                    return Some(min_v);
                } else {
                    // both sides past the axis: nothing changes.
                    proof {
                        if D == 2 {
                            lemma_step_same_2(z, min_v, max_v, bit);
                        } else {
                            lemma_step_same_4(z, min_v, max_v, bit);
                        }
                    }
                }
            } else if ab == 0 {
                if zb == 1 {
                    // z is strictly after the rectangle on this axis: any
                    // answer was recorded earlier.
                    proof {
                        assert forall|w: u64| #[trigger] rect_has(D as int, min_v, max_v, w) implies w
                            < z by {
                            if D == 2 {
                                lemma_step_retbig_2(z, min_v, max_v, bit, w);
                            } else {
                                lemma_step_retbig_4(z, min_v, max_v, bit, w);
                            }
                        }
                    }
                    return bigmin;
                } else {
                    // both sides before the axis: nothing changes.
                    proof {
                        if D == 2 {
                            lemma_step_same_2(z, min_v, max_v, bit);
                        } else {
                            lemma_step_same_4(z, min_v, max_v, bit);
                        }
                    }
                }
            } else {
                // the rectangle straddles this bit's axis.
                if zb == 0 {
                    // record the least after-axis element as the candidate,
                    // then narrow the search to the before-axis half.
                    let cand = (min_v & load_mask) | (1u64 << bit);
                    let new_max = (max_v & load_mask) | load_ones;
                    proof {
                        if D == 2 {
                            lemma_step_split_2(z, min_v, max_v, bit, cand);
                        } else {
                            lemma_step_split_4(z, min_v, max_v, bit, cand);
                        }
                        assert(rect_has(D as int, min_v, max_v, cand));
                        assert(self.in_rect(cand));
                        assert forall|w: u64| #[trigger] rect_has(D as int, min_v, new_max, w) implies self.in_rect(
                            w,
                        ) && w < cand by {
                            if D == 2 {
                                lemma_step_split_2(z, min_v, max_v, bit, w);
                            } else {
                                lemma_step_split_4(z, min_v, max_v, bit, w);
                            }
                            assert(rect_has(D as int, min_v, max_v, w));
                        }
                        assert forall|w: u64| #[trigger] self.in_rect(w) && w > z implies (rect_has(
                            D as int,
                            min_v,
                            new_max,
                            w,
                        ) || w >= cand) by {
                            if rect_has(D as int, min_v, max_v, w) {
                                if D == 2 {
                                    lemma_step_split_2(z, min_v, max_v, bit, w);
                                } else {
                                    lemma_step_split_4(z, min_v, max_v, bit, w);
                                }
                                assert(rect_has(D as int, min_v, new_max, w) || w >= cand);
                            }
                        }
                    }
                    bigmin = Some(cand);
                    max_v = new_max;
                } else {
                    // narrow the search to the after-axis half; nothing there
                    // can be recorded, it would not exceed z.
                    let new_min = (min_v & load_mask) | (1u64 << bit);
                    proof {
                        if D == 2 {
                            lemma_step_raise_2(z, min_v, max_v, bit, new_min);
                        } else {
                            lemma_step_raise_4(z, min_v, max_v, bit, new_min);
                        }
                        assert forall|w: u64| #[trigger] rect_has(D as int, new_min, max_v, w) implies self.in_rect(
                            w,
                        ) && rect_has(D as int, min_v, max_v, w) by {
                            if D == 2 {
                                lemma_step_raise_2(z, min_v, max_v, bit, w);
                            } else {
                                lemma_step_raise_4(z, min_v, max_v, bit, w);
                            }
                            assert(rect_has(D as int, min_v, max_v, w));
                        }
                        assert forall|w: u64| #[trigger] self.in_rect(w) && w > z implies (rect_has(
                            D as int,
                            new_min,
                            max_v,
                            w,
                        ) || (match bigmin {
                            Some(m) => w >= m,
                            None => false,
                        })) by {
                            if rect_has(D as int, min_v, max_v, w) {
                                if D == 2 {
                                    lemma_step_raise_2(z, min_v, max_v, bit, w);
                                } else {
                                    lemma_step_raise_4(z, min_v, max_v, bit, w);
                                }
                            }
                        }
                    }
                    min_v = new_min;
                }
            }
            if bit == 0 {
                break ;
            }
            proof {
                if D == 2 {
                    lemma_load_update_2(bit);
                } else {
                    lemma_load_update_4(bit);
                }
                lemma_shift_down(z, min_v, bit);
                lemma_shift_down(z, max_v, bit);
            }
            load_ones = load_ones >> 1;
            load_mask = (load_mask >> 1) | 0x8000_0000_0000_0000;
            bit = bit - 1;
        }
        // every bit is processed: the search rectangle has collapsed onto z,
        // so the recorded candidate is the answer.
        proof {
            match bigmin {
                Some(m) => {
                    assert forall|w: u64| #[trigger] self.in_rect(w) && w > z implies w >= m by {
                        if rect_has(D as int, min_v, max_v, w) {
                            if D == 2 {
                                lemma_step_final_2(z, min_v, max_v, w);
                            } else {
                                lemma_step_final_4(z, min_v, max_v, w);
                            }
                        }
                    }
                },
                None => {
                    assert forall|w: u64| #[trigger] self.in_rect(w) implies w <= z by {
                        if w > z {
                            assert(rect_has(D as int, min_v, max_v, w));
                            if D == 2 {
                                lemma_step_final_2(z, min_v, max_v, w);
                            } else {
                                lemma_step_final_4(z, min_v, max_v, w);
                            }
                        }
                    }
                },
            }
        }
        bigmin
    }

    /// Every key of the rectangle, in ascending order, obtained by walking
    /// the successor function from the lower corner. The walk starts at the
    /// lower corner (always a member), each step strictly grows, and no
    /// member is skipped, so the rectangle is enumerated completely.
    pub fn enumerate_keys(&self) -> (r: Vec<u64>)
        requires
            self.wf(),
        ensures
            forall|i: int, j: int| 0 <= i < j < r@.len() ==> r@[i] < r@[j],
            forall|i: int| 0 <= i < r@.len() ==> self.in_rect(r@[i]),
            forall|w: u64| self.in_rect(w) ==> r@.contains(w),
    {
        let mut out: Vec<u64> = Vec::new();
        let lo = self.zbounds.0;
        out.push(lo);
        let mut cur: u64 = lo;
        proof {
            assert forall|w: u64| self.in_rect(w) && w <= cur implies out@.contains(w) by {
                self.lemma_in_rect_bounds(w);
                assert(out@[0] == w);
            }
        }
        loop
            invariant
                self.wf(),
                out@.len() >= 1,
                out@[out@.len() - 1] == cur,
                self.in_rect(cur),
                forall|i: int, j: int| 0 <= i < j < out@.len() ==> out@[i] < out@[j],
                forall|i: int| 0 <= i < out@.len() ==> out@[i] <= cur,
                forall|i: int| 0 <= i < out@.len() ==> self.in_rect(out@[i]),
                forall|w: u64| self.in_rect(w) && w <= cur ==> out@.contains(w),
            ensures
                forall|w: u64| self.in_rect(w) ==> out@.contains(w),
            decreases u64::MAX - cur,
        {
            match self.next_zorder_index(cur) {
                None => {
                    proof {
                        assert forall|w: u64| self.in_rect(w) implies out@.contains(w) by {}
                    }
                    break ;
                },
                Some(m) => {
                    let ghost prev = out@;
                    out.push(m);
                    proof {
                        assert(out@[out@.len() - 1] == m);
                        assert forall|w: u64| self.in_rect(w) && w <= m implies out@.contains(
                            w,
                        ) by {
                            if w <= cur {
                                assert(prev.contains(w));
                                let i = choose|i: int| 0 <= i < prev.len() && prev[i] == w;
                                assert(out@[i] == w);
                            } else {
                                assert(out@[out@.len() - 1] == w);
                            }
                        }
                    }
                    cur = m;
                },
            }
        }
        out
    }
}

impl ZOrderIndexer<2> {
    /// The Morton rectangle of a 2-lane coordinate rectangle.
    pub fn new(min: (u32, u32), max: (u32, u32)) -> (r: Self)
        requires
            min.0 <= max.0,
            min.1 <= max.1,
        ensures
            r.wf(),
            r.zbounds == (morton2(min.0, min.1), morton2(max.0, max.1)),
    {
        let lo = morton_2(min.0, min.1);
        let hi = morton_2(max.0, max.1);
        proof {
            lemma_morton2_roundtrip(min.0, min.1);
            lemma_morton2_roundtrip(max.0, max.1);
            lemma_morton2_lane_cmp(lo, hi);
            lemma_morton2_lane_cmp(lo, lo);
        }
        Self::from_morton(lo, hi)
    }
}

impl ZOrderIndexer<4> {
    /// The Morton rectangle of a 4-lane coordinate rectangle; each corner is
    /// given as a pair of coordinate pairs.
    pub fn new(min: ((u16, u16), (u16, u16)), max: ((u16, u16), (u16, u16))) -> (r: Self)
        requires
            min.0.0 <= max.0.0,
            min.0.1 <= max.0.1,
            min.1.0 <= max.1.0,
            min.1.1 <= max.1.1,
        ensures
            r.wf(),
            r.zbounds == (
                morton4(min.0.0, min.0.1, min.1.0, min.1.1),
                morton4(max.0.0, max.0.1, max.1.0, max.1.1),
            ),
    {
        let lo = morton_4(min.0.0, min.0.1, min.1.0, min.1.1);
        let hi = morton_4(max.0.0, max.0.1, max.1.0, max.1.1);
        proof {
            lemma_morton4_roundtrip(min.0.0, min.0.1, min.1.0, min.1.1);
            lemma_morton4_roundtrip(max.0.0, max.0.1, max.1.0, max.1.1);
            lemma_morton4_lane_cmp(lo, hi);
            lemma_morton4_lane_cmp(lo, lo);
        }
        Self::from_morton(lo, hi)
    }
}

} // verus!
