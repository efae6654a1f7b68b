//! View-dependent importance scoring of quadtree nodes.
//!
//! Each node is scored against the camera position: the score grows with the
//! node's side length and shrinks with the camera's distance to the node's
//! cell, so a larger on-screen projected size means a higher priority. Scores
//! are plain integers with a total order, so every camera position — however
//! far away — yields an ordered, comparable priority.

use vstd::prelude::*;
use core::cmp::Ordering;
use vstd::arithmetic::div_mod::lemma_div_is_ordered;
use vstd::arithmetic::div_mod::lemma_div_is_ordered_by_denominator;
use crate::vnode::VNode;
use crate::vnode::LEVEL_CELL_2CM;
use crate::vnode::ROOT_SIDE_LENGTH_CM;

verus! {

/// A camera position in world space, in whole centimeters on each axis.
/// World x points east, y up, and z south, with the origin at the reference
/// point on the planet surface.
#[derive(Clone, Copy, Debug, PartialEq, Eq, Structural, Hash)]
pub struct CameraPosition {
    pub x: i64,
    pub y: i64,
    pub z: i64,
}

/// The scale factor folded into every score: a node whose cell the camera
/// touches at distance equal to the node's own side length scores exactly
/// nine times the cutoff.
pub const PRIORITY_SCALE: u64 = 589824;

/// Score at and above which a node is worth displaying. With the scale above,
/// a node meets the cutoff exactly when the squared camera distance to its
/// cell is at most nine times its squared side length, that is, when the
/// camera is within three side lengths.
pub const PRIORITY_CUTOFF_KEY: u64 = 65536;

/// An importance score for one node: higher means more important to keep
/// resident and visible. Scores are totally ordered and have a least element
/// [`Priority::none`], used for nodes that were never scored.
#[derive(Clone, Copy, Debug, PartialEq, Eq, Structural, Hash)]
pub struct Priority {
    /// The raw score. A scaled ratio of squared node size to squared camera
    /// distance, saturated at `u64::MAX`.
    pub key: u64,
}

impl Priority {
    /// The least score: what lookups return for nodes that were never scored.
    pub fn none() -> (r: Priority)
        ensures
            r.key == 0,
    {
        Priority { key: 0 }
    }

    /// The display threshold: nodes scoring below this are not split further
    /// and are not rendered on their own.
    pub fn cutoff() -> (r: Priority)
        ensures
            r.key == PRIORITY_CUTOFF_KEY,
    {
        Priority { key: PRIORITY_CUTOFF_KEY }
    }

    /// The score as a plain integer.
    pub fn key(&self) -> (r: u64)
        ensures
            r == self.key,
    {
        self.key
    }
}

impl PartialOrd for Priority {
    fn partial_cmp(&self, other: &Priority) -> (r: Option<Ordering>) {
        if self.key < other.key {
            Some(Ordering::Less)
        } else if self.key == other.key {
            Some(Ordering::Equal)
        } else {
            Some(Ordering::Greater)
        }
    }
}

impl vstd::std_specs::cmp::PartialOrdSpecImpl for Priority {
    open spec fn obeys_partial_cmp_spec() -> bool {
        true
    }

    open spec fn partial_cmp_spec(&self, other: &Priority) -> Option<Ordering> {
        if self.key < other.key {
            Some(Ordering::Less)
        } else if self.key == other.key {
            Some(Ordering::Equal)
        } else {
            Some(Ordering::Greater)
        }
    }
}

/// A coordinate's gap to a sub-interval is at least its gap to the whole
/// interval, and gaps are never negative.
pub proof fn lemma_axis_gap_monotone(pmin: int, plen: nat, cmin: int, clen: nat, c: int)
    requires
        pmin <= cmin,
        cmin + clen <= pmin + plen,
    ensures
        0 <= axis_gap(pmin, plen, c),
        axis_gap(pmin, plen, c) <= axis_gap(cmin, clen, c),
{
}

/// Distance from coordinate `c` to the interval that starts at `min` and is
/// `len` long: zero inside the interval, the gap to the nearer end outside.
pub open spec fn axis_gap(min: int, len: nat, c: int) -> int {
    if c < min {
        min - c
    } else if c > min + len {
        c - (min + len)
    } else {
        0
    }
}

impl VNode {
    /// Squared distance, in square centimeters, from the camera to the
    /// nearest point of this node's cell (the cell lies at height zero).
    pub open spec fn spec_camera_dist2(self, camera: CameraPosition) -> int {
        let dx = axis_gap(self.spec_min_x_cm(), self.spec_side_length_cm(), camera.x as int);
        let dz = axis_gap(self.spec_min_z_cm(), self.spec_side_length_cm(), camera.z as int);
        let dy = if camera.y < 0 {
            -(camera.y as int)
        } else {
            camera.y as int
        };
        dx * dx + dy * dy + dz * dz
    }

    /// The score of this node for the given camera position: squared side
    /// length, scaled, divided by squared camera distance (clamped to at
    /// least one), saturated at `u64::MAX`.
    pub open spec fn spec_priority_key(self, camera: CameraPosition) -> u64 {
        let d2 = if self.spec_camera_dist2(camera) == 0 {
            1
        } else {
            self.spec_camera_dist2(camera)
        };
        let side = self.spec_side_length_cm() as int;
        let raw = (side * side * PRIORITY_SCALE) / d2;
        if raw > u64::MAX {
            u64::MAX
        } else {
            raw as u64
        }
    }

    /// Scores this node against a camera position. The score is a pure
    /// function of the node and the camera position alone, is defined for
    /// every camera position, and never panics.
    pub fn priority(&self, camera: CameraPosition) -> (r: Priority)
        requires
            self.wf(),
        ensures
            r.key == self.spec_priority_key(camera),
    {
        proof {
            self.lemma_extent_in_root();
        }
        let side: u64 = self.side_length_cm();
        let min_x: i64 = self.min_x_cm();
        let min_z: i64 = self.min_z_cm();
        let max_x: i64 = min_x + (side as i64);
        let max_z: i64 = min_z + (side as i64);
        let dx: i128 = if camera.x < min_x {
            (min_x as i128) - (camera.x as i128)
        } else if camera.x > max_x {
            (camera.x as i128) - (max_x as i128)
        } else {
            0
        };
        let dz: i128 = if camera.z < min_z {
            (min_z as i128) - (camera.z as i128)
        } else if camera.z > max_z {
            (camera.z as i128) - (max_z as i128)
        } else {
            0
        };
        let dy: i128 = if camera.y < 0 {
            -(camera.y as i128)
        } else {
            camera.y as i128
        };
        let dxu = dx as u128;
        let dyu = dy as u128;
        let dzu = dz as u128;
        proof {
            let bound: int = 0x8000000040000000i128 as int;
            assert(dxu <= bound && dyu <= bound && dzu <= bound);
            assert(dxu * dxu + dyu * dyu + dzu * dzu < u128::MAX) by (nonlinear_arith)
                requires
                    0 <= dxu <= 0x8000000040000000,
                    0 <= dyu <= 0x8000000040000000,
                    0 <= dzu <= 0x8000000040000000,
            ;
        }
        let d2: u128 = dxu * dxu + dyu * dyu + dzu * dzu;
        let d2c: u128 = if d2 == 0 {
            1
        } else {
            d2
        };
        proof {
            assert((side as u128) * (side as u128) * (PRIORITY_SCALE as u128) < u128::MAX)
                by (nonlinear_arith)
                requires
                    side <= 419430400,
            ;
        }
        let num: u128 = (side as u128) * (side as u128) * (PRIORITY_SCALE as u128);
        let raw: u128 = num / d2c;
        if raw > (u64::MAX as u128) {
            Priority { key: u64::MAX }
        } else {
            Priority { key: raw as u64 }
        }
    }
    /// The squared camera distance is never negative.
    pub proof fn lemma_camera_dist2_nonneg(self, camera: CameraPosition)
        ensures
            self.spec_camera_dist2(camera) >= 0,
    {
        let dx = axis_gap(self.spec_min_x_cm(), self.spec_side_length_cm(), camera.x as int);
        let dz = axis_gap(self.spec_min_z_cm(), self.spec_side_length_cm(), camera.z as int);
        let dy = if camera.y < 0 {
            -(camera.y as int)
        } else {
            camera.y as int
        };
        assert(dx * dx + dy * dy + dz * dz >= 0) by (nonlinear_arith);
    }

    /// For a fixed node, the score never grows as the camera moves farther
    /// away: a camera at a larger squared distance scores the node no higher.
    pub proof fn lemma_priority_monotone_in_distance(
        self,
        near: CameraPosition,
        far: CameraPosition,
    )
        requires
            self.wf(),
            self.spec_camera_dist2(near) <= self.spec_camera_dist2(far),
        ensures
            self.spec_priority_key(far) <= self.spec_priority_key(near),
    {
        self.lemma_camera_dist2_nonneg(near);
        let d2a = if self.spec_camera_dist2(near) == 0 {
            1
        } else {
            self.spec_camera_dist2(near)
        };
        let d2b = if self.spec_camera_dist2(far) == 0 {
            1
        } else {
            self.spec_camera_dist2(far)
        };
        let side = self.spec_side_length_cm() as int;
        assert(side * side * PRIORITY_SCALE >= 0) by (nonlinear_arith)
            requires
                side >= 0,
        ;
        lemma_div_is_ordered_by_denominator(side * side * PRIORITY_SCALE, d2a, d2b);
    }

    /// For a fixed camera distance, a larger node never scores below a
    /// smaller one.
    pub proof fn lemma_priority_monotone_in_size(
        small: VNode,
        large: VNode,
        camera: CameraPosition,
    )
        requires
            small.wf(),
            large.wf(),
            small.spec_camera_dist2(camera) == large.spec_camera_dist2(camera),
            small.spec_side_length_cm() <= large.spec_side_length_cm(),
        ensures
            small.spec_priority_key(camera) <= large.spec_priority_key(camera),
    {
        small.lemma_camera_dist2_nonneg(camera);
        let d2 = if small.spec_camera_dist2(camera) == 0 {
            1
        } else {
            small.spec_camera_dist2(camera)
        };
        let sa = small.spec_side_length_cm() as int;
        let sb = large.spec_side_length_cm() as int;
        assert(sa * sa * PRIORITY_SCALE <= sb * sb * PRIORITY_SCALE) by (nonlinear_arith)
            requires
                0 <= sa <= sb,
        ;
        lemma_div_is_ordered(sa * sa * PRIORITY_SCALE, sb * sb * PRIORITY_SCALE, d2);
    }

    /// What the cutoff means geometrically: a node meets it exactly when the
    /// squared camera distance to its cell is at most nine times its squared
    /// side length — the camera within three side lengths.
    pub proof fn lemma_cutoff_is_three_side_lengths(self, camera: CameraPosition)
        requires
            self.wf(),
        ensures
            self.spec_priority_key(camera) >= PRIORITY_CUTOFF_KEY <==> self.spec_camera_dist2(
                camera,
            ) <= 9 * self.spec_side_length_cm() * self.spec_side_length_cm(),
    {
        self.lemma_camera_dist2_nonneg(camera);
        vstd::arithmetic::power2::lemma_pow2_pos((LEVEL_CELL_2CM - self.level) as nat);
        let side = self.spec_side_length_cm() as int;
        let d2raw = self.spec_camera_dist2(camera);
        let d2 = if d2raw == 0 {
            1
        } else {
            d2raw
        };
        let num = side * side * PRIORITY_SCALE;
        assert(side >= 100);
        assert(num == 65536 * (9 * (side * side)) && num >= 5898240000) by (nonlinear_arith)
            requires
                side >= 100,
                num == side * side * PRIORITY_SCALE,
                PRIORITY_SCALE == 589824,
        ;
        assert(9 * side * side == 9 * (side * side)) by (nonlinear_arith);
        if d2raw == 0 {
            assert(num / 1 == num);
        } else {
            let raw = num / d2;
            if raw >= 65536 {
                vstd::arithmetic::div_mod::lemma_fundamental_div_mod(num, d2);
                assert(d2 * raw >= d2 * 65536) by (nonlinear_arith)
                    requires
                        raw >= 65536,
                        d2 > 0,
                ;
            }
            if num >= 65536 * d2 {
                vstd::arithmetic::div_mod::lemma_div_by_multiple(65536, d2);
                lemma_div_is_ordered(65536 * d2, num, d2);
            }
        }
    }

    /// A child's cell lies inside its parent's cell, so the camera is at
    /// least as far from the child as from the parent.
    pub proof fn lemma_child_dist2_ge(self, i: int, camera: CameraPosition)
        requires
            self.wf(),
            self.level < LEVEL_CELL_2CM,
            0 <= i < 4,
        ensures
            self.spec_child(i).spec_camera_dist2(camera) >= self.spec_camera_dist2(camera),
            self.spec_child(i).spec_side_length_cm() * 2 == self.spec_side_length_cm(),
    {
        self.lemma_children_wf();
        let c = self.spec_child(i);
        vstd::arithmetic::power2::lemma2_to64();
        vstd::arithmetic::power2::lemma_pow2_strictly_increases(
            self.level as nat,
            LEVEL_CELL_2CM as nat,
        );
        assert(c.x == 2 * self.x + i % 2 && c.y == 2 * self.y + i / 2);
        let lp = self.spec_side_length_cm() as int;
        let lc = c.spec_side_length_cm() as int;
        assert(lp == 2 * lc) by {
            vstd::arithmetic::power2::lemma_pow2_adds(
                1,
                (LEVEL_CELL_2CM - self.level - 1) as nat,
            );
            vstd::arithmetic::power2::lemma2_to64();
        }
        assert(c.spec_min_x_cm() == self.spec_min_x_cm() + (i % 2) * lc) by (nonlinear_arith)
            requires
                c.spec_min_x_cm() == (2 * self.x + i % 2) * lc - (ROOT_SIDE_LENGTH_CM / 2),
                self.spec_min_x_cm() == self.x * lp - (ROOT_SIDE_LENGTH_CM / 2),
                lp == 2 * lc,
        ;
        assert(c.spec_min_z_cm() == self.spec_min_z_cm() + (i / 2) * lc) by (nonlinear_arith)
            requires
                c.spec_min_z_cm() == (2 * self.y + i / 2) * lc - (ROOT_SIDE_LENGTH_CM / 2),
                self.spec_min_z_cm() == self.y * lp - (ROOT_SIDE_LENGTH_CM / 2),
                lp == 2 * lc,
        ;
        assert((i % 2) * lc >= 0 && (i % 2) * lc + lc <= 2 * lc && (i / 2) * lc >= 0 && (i / 2)
            * lc + lc <= 2 * lc) by (nonlinear_arith)
            requires
                0 <= i % 2 <= 1,
                0 <= i / 2 <= 1,
                lc >= 0,
        ;
        assert(self.spec_min_x_cm() <= c.spec_min_x_cm());
        assert(c.spec_min_x_cm() + c.spec_side_length_cm() <= self.spec_min_x_cm()
            + self.spec_side_length_cm());
        assert(self.spec_min_z_cm() <= c.spec_min_z_cm());
        assert(c.spec_min_z_cm() + c.spec_side_length_cm() <= self.spec_min_z_cm()
            + self.spec_side_length_cm());
        lemma_axis_gap_monotone(
            self.spec_min_x_cm(),
            self.spec_side_length_cm(),
            c.spec_min_x_cm(),
            c.spec_side_length_cm(),
            camera.x as int,
        );
        lemma_axis_gap_monotone(
            self.spec_min_z_cm(),
            self.spec_side_length_cm(),
            c.spec_min_z_cm(),
            c.spec_side_length_cm(),
            camera.z as int,
        );
        let gxp = axis_gap(self.spec_min_x_cm(), self.spec_side_length_cm(), camera.x as int);
        let gxc = axis_gap(c.spec_min_x_cm(), c.spec_side_length_cm(), camera.x as int);
        let gzp = axis_gap(self.spec_min_z_cm(), self.spec_side_length_cm(), camera.z as int);
        let gzc = axis_gap(c.spec_min_z_cm(), c.spec_side_length_cm(), camera.z as int);
        let dy = if camera.y < 0 {
            -(camera.y as int)
        } else {
            camera.y as int
        };
        assert(0 <= gxp <= gxc && 0 <= gzp <= gzc);
        assert(gxc * gxc + dy * dy + gzc * gzc >= gxp * gxp + dy * dy + gzp * gzp)
            by (nonlinear_arith)
            requires
                0 <= gxp <= gxc,
                0 <= gzp <= gzc,
        ;
    }

    /// A finer node never outranks its parent: for every camera position the
    /// child's score is at most the parent's.
    pub proof fn lemma_child_never_outranks_parent(self, i: int, camera: CameraPosition)
        requires
            self.wf(),
            self.level < LEVEL_CELL_2CM,
            0 <= i < 4,
        ensures
            self.spec_child(i).spec_priority_key(camera) <= self.spec_priority_key(camera),
    {
        self.lemma_children_wf();
        self.lemma_child_dist2_ge(i, camera);
        let c = self.spec_child(i);
        assert(c.spec_priority_key(camera) <= self.spec_priority_key(camera)) by {
            self.lemma_camera_dist2_nonneg(camera);
            c.lemma_camera_dist2_nonneg(camera);
            let d2p = if self.spec_camera_dist2(camera) == 0 {
                1
            } else {
                self.spec_camera_dist2(camera)
            };
            let d2c = if c.spec_camera_dist2(camera) == 0 {
                1
            } else {
                c.spec_camera_dist2(camera)
            };
            let sp = self.spec_side_length_cm() as int;
            let sc = c.spec_side_length_cm() as int;
            assert(0 <= sc * sc * PRIORITY_SCALE <= sp * sp * PRIORITY_SCALE)
                by (nonlinear_arith)
                requires
                    0 <= sc,
                    sc * 2 == sp,
            ;
            lemma_div_is_ordered_by_denominator(sc * sc * PRIORITY_SCALE, d2p, d2c);
            lemma_div_is_ordered(sc * sc * PRIORITY_SCALE, sp * sp * PRIORITY_SCALE, d2p);
        }
    }
}

} // verus!
