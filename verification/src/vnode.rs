//! Compact addressing of quadtree cells.
//!
//! A [`VNode`] names one cell of a complete quaternary tree: `level` 0 is the
//! single root cell covering the whole rendered square, and each node at
//! level `L` has exactly four children at level `L + 1` whose areas tile its
//! own. Nodes are immutable values; traversal derives new ones.

use vstd::prelude::*;
use vstd::arithmetic::power2::pow2;
use vstd::arithmetic::power2::lemma2_to64;
use vstd::arithmetic::power2::lemma_pow2_adds;
use vstd::arithmetic::power2::lemma_pow2_strictly_increases;
use vstd::arithmetic::power2::lemma_pow2_pos;
use vstd::arithmetic::div_mod::lemma_div_denominator;
use vstd::arithmetic::div_mod::lemma_div_multiples_vanish_fancy;
use vstd::arithmetic::div_mod::lemma_multiply_divide_lt;
use vstd::arithmetic::div_mod::lemma_fundamental_div_mod;

verus! {

/// The deepest subdivision level. A node at this level spans one meter of
/// ground, so a grid cell inside it is on the order of two centimeters.
pub const LEVEL_CELL_2CM: u8 = 22;

/// Side length of the level-0 (root) node, in centimeters. It is
/// `100 * 2^22`, so halving it once per level keeps every side length a
/// whole number of centimeters down to the deepest level.
pub const ROOT_SIDE_LENGTH_CM: u64 = 419430400;

/// Identifies one cell of the quadtree: a subdivision level together with a
/// column (`x`) and row (`y`) index inside that level's grid. The cell grid
/// at level `L` is `2^L` columns by `2^L` rows.
#[derive(Clone, Copy, Debug, PartialEq, Eq, Hash, Structural)]
pub struct VNode {
    /// Subdivision level; 0 is the root, larger is finer.
    pub level: u8,
    /// Column index inside the level's grid, counted from the west edge.
    pub x: u32,
    /// Row index inside the level's grid, counted from the north edge.
    pub y: u32,
}

impl VNode {
    /// A node is well formed when its level does not exceed the deepest
    /// supported level and its grid position lies inside that level's grid.
    pub open spec fn wf(self) -> bool {
        &&& self.level <= LEVEL_CELL_2CM
        &&& (self.x as nat) < pow2(self.level as nat)
        &&& (self.y as nat) < pow2(self.level as nat)
    }

    pub open spec fn spec_level(&self) -> u8 {
        self.level
    }

    pub open spec fn spec_x(&self) -> u32 {
        self.x
    }

    pub open spec fn spec_y(&self) -> u32 {
        self.y
    }

    /// The root node: level 0, covering the whole rendered square.
    pub fn root() -> (r: VNode)
        ensures
            r == VNode::spec_root(),
    {
        proof {
            vstd::arithmetic::power2::lemma2_to64();
        }
        VNode { level: 0, x: 0, y: 0 }
    }

    pub open spec fn spec_root() -> VNode {
        VNode { level: 0, x: 0, y: 0 }
    }

    /// Builds the node at `level` with grid position `(x, y)`, or `None`
    /// when the position does not name a cell of the tree.
    pub fn new(level: u8, x: u32, y: u32) -> (r: Option<VNode>)
        ensures
            (r is Some) <==> (VNode { level, x, y }).wf(),
            (r is Some) ==> r->Some_0 == (VNode { level, x, y }),
    {
        let n = VNode { level, x, y };
        if level <= LEVEL_CELL_2CM && x < grid_width(level) && y < grid_width(level) {
            Some(n)
        } else {
            None
        }
    }

    #[verifier::when_used_as_spec(spec_level)]
    pub fn level(&self) -> (r: u8)
        ensures
            r == self.level,
    {
        self.level
    }

    #[verifier::when_used_as_spec(spec_x)]
    pub fn x(&self) -> (r: u32)
        ensures
            r == self.x,
    {
        self.x
    }

    #[verifier::when_used_as_spec(spec_y)]
    pub fn y(&self) -> (r: u32)
        ensures
            r == self.y,
    {
        self.y
    }
}

impl VNode {
    /// Side length of this node's cell, in centimeters: the root side halved
    /// once per level.
    pub open spec fn spec_side_length_cm(self) -> nat
        recommends
            self.level <= LEVEL_CELL_2CM,
    {
        100 * pow2((LEVEL_CELL_2CM - self.level) as nat)
    }

    /// Side length of this node's cell in centimeters.
    pub fn side_length_cm(&self) -> (r: u64)
        requires
            self.wf(),
        ensures
            r == self.spec_side_length_cm(),
            r >= 100,
    {
        proof {
            lemma2_to64();
            lemma_pow2_adds(self.level as nat, (LEVEL_CELL_2CM - self.level) as nat);
            vstd::bits::lemma_u64_shr_is_div(ROOT_SIDE_LENGTH_CM, self.level as u64);
            lemma_pow2_pos(self.level as nat);
            lemma_pow2_pos((LEVEL_CELL_2CM - self.level) as nat);
            let p = pow2(self.level as nat) as int;
            let q = pow2((LEVEL_CELL_2CM - self.level) as nat) as int;
            assert(ROOT_SIDE_LENGTH_CM as int == (100 * q) * p) by (nonlinear_arith)
                requires
                    ROOT_SIDE_LENGTH_CM as int == 100 * (p * q),
            ;
            vstd::arithmetic::div_mod::lemma_div_by_multiple(100 * q, p);
        }
        ROOT_SIDE_LENGTH_CM >> (self.level as u64)
    }

    /// World x coordinate of this node's west edge, in centimeters. World
    /// space is centered on the reference point, so the root spans
    /// `[-ROOT_SIDE_LENGTH_CM / 2, ROOT_SIDE_LENGTH_CM / 2]` on each axis.
    pub open spec fn spec_min_x_cm(self) -> int {
        self.x * self.spec_side_length_cm() - (ROOT_SIDE_LENGTH_CM / 2)
    }

    /// World z coordinate of this node's north edge, in centimeters.
    pub open spec fn spec_min_z_cm(self) -> int {
        self.y * self.spec_side_length_cm() - (ROOT_SIDE_LENGTH_CM / 2)
    }

    /// Proves that a well-formed node's cell lies inside the root square.
    pub proof fn lemma_extent_in_root(self)
        requires
            self.wf(),
        ensures
            -(ROOT_SIDE_LENGTH_CM as int) / 2 <= self.spec_min_x_cm(),
            self.spec_min_x_cm() + self.spec_side_length_cm() <= ROOT_SIDE_LENGTH_CM / 2,
            -(ROOT_SIDE_LENGTH_CM as int) / 2 <= self.spec_min_z_cm(),
            self.spec_min_z_cm() + self.spec_side_length_cm() <= ROOT_SIDE_LENGTH_CM / 2,
    {
        lemma2_to64();
        lemma_pow2_adds(self.level as nat, (LEVEL_CELL_2CM - self.level) as nat);
        lemma_pow2_pos((LEVEL_CELL_2CM - self.level) as nat);
        let p = pow2(self.level as nat) as int;
        let q = pow2((LEVEL_CELL_2CM - self.level) as nat) as int;
        let side = self.spec_side_length_cm() as int;
        assert(self.x * side >= 0 && self.x * side + side <= ROOT_SIDE_LENGTH_CM
            && self.y * side >= 0 && self.y * side + side <= ROOT_SIDE_LENGTH_CM)
            by (nonlinear_arith)
            requires
                0 <= self.x < p,
                0 <= self.y < p,
                q > 0,
                side == 100 * q,
                ROOT_SIDE_LENGTH_CM as int == 100 * (p * q),
        ;
    }

    /// World x coordinate of this node's west edge, in centimeters.
    pub fn min_x_cm(&self) -> (r: i64)
        requires
            self.wf(),
        ensures
            r == self.spec_min_x_cm(),
    {
        proof {
            self.lemma_extent_in_root();
        }
        let side = self.side_length_cm();
        (self.x as i64) * (side as i64) - ((ROOT_SIDE_LENGTH_CM / 2) as i64)
    }

    /// World z coordinate of this node's north edge, in centimeters.
    pub fn min_z_cm(&self) -> (r: i64)
        requires
            self.wf(),
        ensures
            r == self.spec_min_z_cm(),
    {
        proof {
            self.lemma_extent_in_root();
        }
        let side = self.side_length_cm();
        (self.y as i64) * (side as i64) - ((ROOT_SIDE_LENGTH_CM / 2) as i64)
    }
}

impl VNode {
    /// Child `i` of this node, for `i` in `0..4`. Children are ordered
    /// west-to-east, then north-to-south: child 0 is the north-west quarter,
    /// child 1 north-east, child 2 south-west, child 3 south-east. The bit
    /// positions of the partial-visibility masks depend on this order.
    pub open spec fn spec_child(self, i: int) -> VNode
        recommends
            self.wf(),
            self.level < LEVEL_CELL_2CM,
            0 <= i < 4,
    {
        VNode {
            level: (self.level + 1) as u8,
            x: (2 * self.x + i % 2) as u32,
            y: (2 * self.y + i / 2) as u32,
        }
    }

    /// Parent of a node below the root: one level coarser, at the halved
    /// grid position.
    pub open spec fn spec_parent(self) -> VNode
        recommends
            self.wf(),
            self.level > 0,
    {
        VNode { level: (self.level - 1) as u8, x: self.x / 2, y: self.y / 2 }
    }

    /// The four children of this node, in the fixed order documented on
    /// [`VNode::spec_child`].
    pub fn children(&self) -> (r: [VNode; 4])
        requires
            self.wf(),
            self.level < LEVEL_CELL_2CM,
        ensures
            forall|i: int| 0 <= i < 4 ==> r@[i] == self.spec_child(i),
            forall|i: int| 0 <= i < 4 ==> (#[trigger] r@[i]).wf(),
    {
        proof {
            lemma2_to64();
            lemma_pow2_strictly_increases(self.level as nat, LEVEL_CELL_2CM as nat);
            self.lemma_children_wf();
        }
        let l = self.level + 1;
        [
            VNode { level: l, x: 2 * self.x, y: 2 * self.y },
            VNode { level: l, x: 2 * self.x + 1, y: 2 * self.y },
            VNode { level: l, x: 2 * self.x, y: 2 * self.y + 1 },
            VNode { level: l, x: 2 * self.x + 1, y: 2 * self.y + 1 },
        ]
    }

    /// Proves that the children of a well-formed node are well formed and lie
    /// one level deeper.
    pub proof fn lemma_children_wf(self)
        requires
            self.wf(),
            self.level < LEVEL_CELL_2CM,
        ensures
            forall|i: int| 0 <= i < 4 ==> (#[trigger] self.spec_child(i)).wf(),
            forall|i: int|
                0 <= i < 4 ==> (#[trigger] self.spec_child(i)).level == self.level + 1,
    {
        lemma2_to64();
        assert(pow2((self.level + 1) as nat) == 2 * pow2(self.level as nat)) by {
            lemma_pow2_adds(1, self.level as nat);
        }
        lemma_pow2_strictly_increases(self.level as nat, LEVEL_CELL_2CM as nat);
        assert forall|i: int| 0 <= i < 4 implies (#[trigger] self.spec_child(i)).wf() by {
            assert(2 * self.x + i % 2 < 2 * pow2(self.level as nat));
            assert(2 * self.y + i / 2 < 2 * pow2(self.level as nat));
        }
    }

    /// Parent of this node, or `None` for the root.
    pub fn parent(&self) -> (r: Option<VNode>)
        requires
            self.wf(),
        ensures
            self.level == 0 ==> r is None,
            self.level > 0 ==> r == Some(self.spec_parent()),
    {
        if self.level == 0 {
            None
        } else {
            Some(VNode { level: self.level - 1, x: self.x / 2, y: self.y / 2 })
        }
    }

    /// Packs level and grid position into one integer, so that distinct
    /// well-formed nodes get distinct codes (see
    /// [`VNode::lemma_code_injective`]). The level sits in the high bits and
    /// the two grid indices in separate 24-bit fields.
    pub open spec fn spec_code(self) -> u64 {
        ((self.level as u64) << 48) | ((self.x as u64) << 24) | (self.y as u64)
    }

    /// The packed integer code of this node.
    pub fn code(&self) -> (r: u64)
        requires
            self.wf(),
        ensures
            r == self.spec_code(),
    {
        ((self.level as u64) << 48) | ((self.x as u64) << 24) | (self.y as u64)
    }

    /// Distinct well-formed nodes have distinct packed codes.
    pub proof fn lemma_code_injective(a: VNode, b: VNode)
        requires
            a.wf(),
            b.wf(),
            a.spec_code() == b.spec_code(),
        ensures
            a == b,
    {
        lemma2_to64();
        if a.level < LEVEL_CELL_2CM {
            lemma_pow2_strictly_increases(a.level as nat, LEVEL_CELL_2CM as nat);
        }
        if b.level < LEVEL_CELL_2CM {
            lemma_pow2_strictly_increases(b.level as nat, LEVEL_CELL_2CM as nat);
        }
        let l1 = a.level as u64;
        let x1 = a.x as u64;
        let y1 = a.y as u64;
        let l2 = b.level as u64;
        let x2 = b.x as u64;
        let y2 = b.y as u64;
        assert((l1 <= 22 && x1 < 0x400000 && y1 < 0x400000 && l2 <= 22 && x2 < 0x400000 && y2
            < 0x400000 && ((l1 << 48) | (x1 << 24) | y1) == ((l2 << 48) | (x2 << 24) | y2)) ==> (l1
            == l2 && x1 == x2 && y1 == y2)) by (bit_vector);
    }
}

impl VNode {
    /// The neighboring cell one column west, or `None` on the west edge.
    pub fn neighbor_west(&self) -> (r: Option<VNode>)
        requires
            self.wf(),
        ensures
            self.x == 0 ==> r is None,
            self.x > 0 ==> r == Some(VNode { x: (self.x - 1) as u32, ..*self }),
            r is Some ==> r->Some_0.wf(),
    {
        if self.x == 0 {
            None
        } else {
            Some(VNode { level: self.level, x: self.x - 1, y: self.y })
        }
    }

    /// The neighboring cell one column east, or `None` on the east edge.
    pub fn neighbor_east(&self) -> (r: Option<VNode>)
        requires
            self.wf(),
        ensures
            self.x + 1 == pow2(self.level as nat) ==> r is None,
            self.x + 1 < pow2(self.level as nat) ==> r == Some(
                VNode { x: (self.x + 1) as u32, ..*self },
            ),
            r is Some ==> r->Some_0.wf(),
    {
        let w = grid_width(self.level);
        if self.x + 1 == w {
            None
        } else {
            Some(VNode { level: self.level, x: self.x + 1, y: self.y })
        }
    }

    /// The neighboring cell one row north, or `None` on the north edge.
    pub fn neighbor_north(&self) -> (r: Option<VNode>)
        requires
            self.wf(),
        ensures
            self.y == 0 ==> r is None,
            self.y > 0 ==> r == Some(VNode { y: (self.y - 1) as u32, ..*self }),
            r is Some ==> r->Some_0.wf(),
    {
        if self.y == 0 {
            None
        } else {
            Some(VNode { level: self.level, x: self.x, y: self.y - 1 })
        }
    }

    /// The neighboring cell one row south, or `None` on the south edge.
    pub fn neighbor_south(&self) -> (r: Option<VNode>)
        requires
            self.wf(),
        ensures
            self.y + 1 == pow2(self.level as nat) ==> r is None,
            self.y + 1 < pow2(self.level as nat) ==> r == Some(
                VNode { y: (self.y + 1) as u32, ..*self },
            ),
            r is Some ==> r->Some_0.wf(),
    {
        let w = grid_width(self.level);
        if self.y + 1 == w {
            None
        } else {
            Some(VNode { level: self.level, x: self.x, y: self.y + 1 })
        }
    }
}

impl VNode {
    /// The ancestor of this node at level `l`: the cell at that coarser level
    /// whose area contains this node's area.
    pub open spec fn ancestor_at(self, l: nat) -> VNode
        recommends
            self.wf(),
            l <= self.level,
    {
        VNode {
            level: l as u8,
            x: ((self.x as nat) / pow2((self.level - l) as nat)) as u32,
            y: ((self.y as nat) / pow2((self.level - l) as nat)) as u32,
        }
    }

    /// `a` covers `n` when `n`'s cell lies inside `a`'s cell, that is, when
    /// `a` is `n` itself or an ancestor of it.
    pub open spec fn covers(self, n: VNode) -> bool {
        &&& self.level <= n.level
        &&& n.ancestor_at(self.level as nat) == self
    }

    /// Every node is its own ancestor at its own level.
    pub proof fn lemma_ancestor_at_own_level(self)
        requires
            self.wf(),
        ensures
            self.ancestor_at(self.level as nat) == self,
            self.covers(self),
    {
        lemma2_to64();
        assert((self.x as nat) / pow2(0) == self.x);
        assert((self.y as nat) / pow2(0) == self.y);
    }

    /// The ancestor of any well-formed node at level zero is the root.
    pub proof fn lemma_ancestor_at_zero(self)
        requires
            self.wf(),
        ensures
            self.ancestor_at(0) == VNode::spec_root(),
    {
        vstd::arithmetic::div_mod::lemma_basic_div(self.x as int, pow2(self.level as nat) as int);
        vstd::arithmetic::div_mod::lemma_basic_div(self.y as int, pow2(self.level as nat) as int);
    }

    /// Ancestors of well-formed nodes are well formed.
    pub proof fn lemma_ancestor_wf(self, l: nat)
        requires
            self.wf(),
            l <= self.level,
        ensures
            self.ancestor_at(l).wf(),
            self.ancestor_at(l).level == l,
    {
        let k = (self.level - l) as nat;
        lemma_pow2_pos(k);
        lemma_pow2_adds(k, l);
        lemma_multiply_divide_lt(self.x as int, pow2(k) as int, pow2(l) as int);
        lemma_multiply_divide_lt(self.y as int, pow2(k) as int, pow2(l) as int);
        vstd::arithmetic::div_mod::lemma_div_pos_is_pos(self.x as int, pow2(k) as int);
        vstd::arithmetic::div_mod::lemma_div_pos_is_pos(self.y as int, pow2(k) as int);
    }

    /// Taking an ancestor of an ancestor is the same as taking the deeper
    /// ancestor directly.
    pub proof fn lemma_ancestor_compose(self, l1: nat, l2: nat)
        requires
            self.wf(),
            l1 <= l2 <= self.level,
        ensures
            self.ancestor_at(l2).ancestor_at(l1) == self.ancestor_at(l1),
    {
        let a = (self.level - l2) as nat;
        let b = (l2 - l1) as nat;
        lemma_pow2_pos(a);
        lemma_pow2_pos(b);
        lemma_pow2_adds(a, b);
        lemma_div_denominator(self.x as int, pow2(a) as int, pow2(b) as int);
        lemma_div_denominator(self.y as int, pow2(a) as int, pow2(b) as int);
        vstd::arithmetic::div_mod::lemma_div_pos_is_pos(self.x as int, pow2(a) as int);
        vstd::arithmetic::div_mod::lemma_div_pos_is_pos(self.y as int, pow2(a) as int);
    }

    /// A child's ancestor at its parent's level is the parent.
    pub proof fn lemma_child_ancestor(self, i: int)
        requires
            self.wf(),
            self.level < LEVEL_CELL_2CM,
            0 <= i < 4,
        ensures
            self.spec_child(i).ancestor_at(self.level as nat) == self,
            self.covers(self.spec_child(i)),
    {
        self.lemma_children_wf();
        lemma2_to64();
        let c = self.spec_child(i);
        lemma_div_multiples_vanish_fancy(self.x as int, i % 2, 2);
        lemma_div_multiples_vanish_fancy(self.y as int, i / 2, 2);
        assert((c.x as nat) / pow2(1) == self.x as nat);
        assert((c.y as nat) / pow2(1) == self.y as nat);
    }

    /// A node below the root is a child of its own ancestor one level up,
    /// and the child index is determined by the parity of its position.
    pub proof fn lemma_parent_child(self)
        requires
            self.wf(),
            self.level > 0,
        ensures
            self.ancestor_at((self.level - 1) as nat) == self.spec_parent(),
            self.spec_parent().wf(),
            self.spec_parent().level < LEVEL_CELL_2CM,
            self == self.spec_parent().spec_child((self.x % 2) + 2 * (self.y % 2)),
    {
        lemma2_to64();
        self.lemma_ancestor_wf((self.level - 1) as nat);
        assert((self.x as nat) / pow2(1) == self.x as nat / 2);
        assert((self.y as nat) / pow2(1) == self.y as nat / 2);
        lemma_fundamental_div_mod(self.x as int, 2);
        lemma_fundamental_div_mod(self.y as int, 2);
        let i = (self.x % 2) + 2 * (self.y % 2);
        assert(i % 2 == self.x % 2 && i / 2 == self.y % 2) by (nonlinear_arith)
            requires
                i == (self.x % 2) + 2 * (self.y % 2),
                0 <= self.x % 2 < 2,
                0 <= self.y % 2 < 2,
        ;
    }

    /// If `a` strictly covers `n`, then exactly one of `a`'s children covers
    /// `n` as well: the ancestor of `n` one level below `a`.
    pub proof fn lemma_covers_step(self, n: VNode)
        requires
            self.wf(),
            n.wf(),
            self.covers(n),
            self != n,
        ensures
            self.level < n.level,
            self.level < LEVEL_CELL_2CM,
            n.ancestor_at((self.level + 1) as nat).wf(),
            self.covers(n.ancestor_at((self.level + 1) as nat)),
            n.ancestor_at((self.level + 1) as nat).covers(n),
            exists|i: int|
                0 <= i < 4 && n.ancestor_at((self.level + 1) as nat) == self.spec_child(i),
    {
        if self.level == n.level {
            n.lemma_ancestor_at_own_level();
            assert(false);
        }
        let m = n.ancestor_at((self.level + 1) as nat);
        n.lemma_ancestor_wf((self.level + 1) as nat);
        n.lemma_ancestor_compose(self.level as nat, (self.level + 1) as nat);
        m.lemma_parent_child();
        assert(m.ancestor_at(self.level as nat) == m.spec_parent());
        let i = (m.x % 2) + 2 * (m.y % 2);
        assert(m == self.spec_child(i));
    }

    /// Two nodes that both cover a third are ordered: the coarser one covers
    /// the finer one.
    pub proof fn lemma_covers_comparable(a: VNode, b: VNode, n: VNode)
        requires
            a.wf(),
            b.wf(),
            n.wf(),
            a.covers(n),
            b.covers(n),
            a.level <= b.level,
        ensures
            a.covers(b),
    {
        n.lemma_ancestor_compose(a.level as nat, b.level as nat);
    }

    /// Covering is transitive.
    pub proof fn lemma_covers_trans(a: VNode, b: VNode, c: VNode)
        requires
            a.wf(),
            b.wf(),
            c.wf(),
            a.covers(b),
            b.covers(c),
        ensures
            a.covers(c),
    {
        c.lemma_ancestor_compose(a.level as nat, b.level as nat);
    }
}

/// A node appears somewhere in a visit record.
pub open spec fn visit_recorded(vis: Seq<(VNode, bool)>, n: VNode) -> bool {
    exists|j: int| 0 <= j < vis.len() && (#[trigger] vis[j]).0 == n
}

/// Extending a visit record keeps every recorded node recorded.
proof fn lemma_recorded_extend(vis: Seq<(VNode, bool)>, ext: Seq<(VNode, bool)>, n: VNode)
    requires
        visit_recorded(vis, n),
    ensures
        visit_recorded(vis + ext, n),
{
    let w = choose|w: int| 0 <= w < vis.len() && (#[trigger] vis[w]).0 == n;
    assert((vis + ext)[w].0 == n);
}

/// Extending a visit record keeps every recorded pair contained.
proof fn lemma_pair_contains_extend(vis: Seq<(VNode, bool)>, ext: Seq<(VNode, bool)>, p: (VNode, bool))
    requires
        vis.contains(p),
    ensures
        (vis + ext).contains(p),
{
    let w = choose|w: int| 0 <= w < vis.len() && vis[w] == p;
    assert((vis + ext)[w] == p);
}

impl VNode {
    /// Walks the conceptual infinite quadtree breadth first, calling `visit`
    /// on each node: all nodes of one level, in a stable west-to-east,
    /// north-to-south order, before any node of the next. A node's four
    /// children are visited exactly when `visit` returns true for it and the
    /// node lies above the deepest level — so the walk terminates, and only
    /// ever visits well-formed nodes, even when `visit` always asks to
    /// descend. Returns the record of the walk: each visited node, in visit
    /// order, paired with the answer `visit` gave for it.
    #[verifier::rlimit(60)]
    pub fn breadth_first<F: Fn(VNode) -> bool>(visit: F) -> (visited: Ghost<Seq<(VNode, bool)>>)
        requires
            forall|n: VNode| n.wf() ==> #[trigger] call_requires(visit, (n,)),
        ensures
            visited@.len() > 0,
            visited@[0].0 == VNode::spec_root(),
            forall|i: int| 0 <= i < visited@.len() ==> (#[trigger] visited@[i]).0.wf(),
            forall|i: int|
                0 <= i < visited@.len() ==> call_ensures(
                    visit,
                    ((#[trigger] visited@[i]).0,),
                    visited@[i].1,
                ),
            forall|i1: int, i2: int|
                0 <= i1 < i2 < visited@.len() ==> visited@[i1].0.level <= visited@[i2].0.level,
            forall|i1: int, i2: int|
                0 <= i1 < i2 < visited@.len() ==> visited@[i1].0 != visited@[i2].0,
            forall|i: int, k: int|
                #![trigger visited@[i].0.spec_child(k)]
                0 <= i < visited@.len() && visited@[i].1 && visited@[i].0.level < LEVEL_CELL_2CM
                    && 0 <= k < 4 ==> visit_recorded(visited@, visited@[i].0.spec_child(k)),
            forall|i: int|
                0 <= i < visited@.len() && (#[trigger] visited@[i]).0.level > 0
                    ==> visited@.contains((visited@[i].0.spec_parent(), true)),
    {
        let ghost mut vis: Seq<(VNode, bool)> = Seq::empty();
        let mut row: Vec<VNode> = Vec::new();
        row.push(VNode::root());
        let mut lev: u8 = 0;
        proof {
            lemma2_to64();
            assert(VNode::spec_root().wf());
        }
        while lev <= LEVEL_CELL_2CM
            invariant
                lev <= LEVEL_CELL_2CM + 1,
                forall|n: VNode| n.wf() ==> #[trigger] call_requires(visit, (n,)),
                forall|k: int|
                    0 <= k < row@.len() ==> (#[trigger] row@[k]).wf() && row@[k].level == lev,
                row@.no_duplicates(),
                lev == 0 ==> row@ == seq![VNode::spec_root()] && vis.len() == 0,
                lev > 0 ==> vis.len() > 0,
                vis.len() > 0 ==> vis[0].0 == VNode::spec_root(),
                forall|k: int|
                    0 <= k < row@.len() && (#[trigger] row@[k]).level > 0 ==> vis.contains(
                        (row@[k].spec_parent(), true),
                    ),
                forall|i: int|
                    0 <= i < vis.len() ==> (#[trigger] vis[i]).0.wf() && vis[i].0.level < lev,
                forall|i: int|
                    0 <= i < vis.len() ==> call_ensures(
                        visit,
                        ((#[trigger] vis[i]).0,),
                        vis[i].1,
                    ),
                forall|i1: int, i2: int|
                    0 <= i1 < i2 < vis.len() ==> vis[i1].0.level <= vis[i2].0.level,
                forall|i1: int, i2: int| 0 <= i1 < i2 < vis.len() ==> vis[i1].0 != vis[i2].0,
                forall|i: int|
                    0 <= i < vis.len() && (#[trigger] vis[i]).0.level > 0 ==> vis.contains(
                        (vis[i].0.spec_parent(), true),
                    ),
                forall|i: int, k: int|
                    #![trigger vis[i].0.spec_child(k)]
                    0 <= i < vis.len() && vis[i].1 && vis[i].0.level < LEVEL_CELL_2CM && 0 <= k
                        < 4 && vis[i].0.level + 1 < lev ==> visit_recorded(
                        vis,
                        vis[i].0.spec_child(k),
                    ),
                forall|i: int, k: int|
                    #![trigger vis[i].0.spec_child(k)]
                    0 <= i < vis.len() && vis[i].1 && vis[i].0.level < LEVEL_CELL_2CM && 0 <= k
                        < 4 && vis[i].0.level + 1 == lev ==> row@.contains(
                        vis[i].0.spec_child(k),
                    ),
            decreases LEVEL_CELL_2CM + 1 - lev,
        {
            let mut next: Vec<VNode> = Vec::new();
            let mut j: usize = 0;
            while j < row.len()
                invariant
                    j <= row@.len(),
                    lev <= LEVEL_CELL_2CM,
                    forall|n: VNode| n.wf() ==> #[trigger] call_requires(visit, (n,)),
                    forall|k: int|
                        0 <= k < row@.len() ==> (#[trigger] row@[k]).wf() && row@[k].level == lev,
                    row@.no_duplicates(),
                    lev == 0 ==> row@ == seq![VNode::spec_root()],
                    vis.len() == 0 ==> lev == 0 && j == 0,
                    vis.len() > 0 ==> vis[0].0 == VNode::spec_root(),
                    forall|k: int|
                        0 <= k < row@.len() && (#[trigger] row@[k]).level > 0 ==> vis.contains(
                            (row@[k].spec_parent(), true),
                        ),
                    forall|k: int| 0 <= k < j ==> visit_recorded(vis, (#[trigger] row@[k])),
                    forall|i: int|
                        0 <= i < vis.len() ==> (#[trigger] vis[i]).0.wf() && vis[i].0.level
                            <= lev,
                    forall|i: int|
                        0 <= i < vis.len() && (#[trigger] vis[i]).0.level == lev
                            ==> row@.take(j as int).contains(vis[i].0),
                    forall|i: int|
                        0 <= i < vis.len() ==> call_ensures(
                            visit,
                            ((#[trigger] vis[i]).0,),
                            vis[i].1,
                        ),
                    forall|i1: int, i2: int|
                        0 <= i1 < i2 < vis.len() ==> vis[i1].0.level <= vis[i2].0.level,
                    forall|i1: int, i2: int| 0 <= i1 < i2 < vis.len() ==> vis[i1].0 != vis[i2].0,
                    forall|i: int|
                        0 <= i < vis.len() && (#[trigger] vis[i]).0.level > 0 ==> vis.contains(
                            (vis[i].0.spec_parent(), true),
                        ),
                    forall|k: int|
                        0 <= k < next@.len() ==> (#[trigger] next@[k]).wf() && next@[k].level
                            == lev + 1,
                    next@.no_duplicates(),
                    forall|k: int|
                        0 <= k < next@.len() ==> row@.take(j as int).contains(
                            (#[trigger] next@[k]).spec_parent(),
                        ),
                    forall|k: int|
                        0 <= k < next@.len() ==> vis.contains(
                            ((#[trigger] next@[k]).spec_parent(), true),
                        ),
                    forall|i: int, k: int|
                        #![trigger vis[i].0.spec_child(k)]
                        0 <= i < vis.len() && vis[i].1 && vis[i].0.level < LEVEL_CELL_2CM && 0
                            <= k < 4 && vis[i].0.level + 1 < lev ==> visit_recorded(
                            vis,
                            vis[i].0.spec_child(k),
                        ),
                    forall|i: int, k: int|
                        #![trigger vis[i].0.spec_child(k)]
                        0 <= i < vis.len() && vis[i].1 && vis[i].0.level < LEVEL_CELL_2CM && 0
                            <= k < 4 && vis[i].0.level + 1 == lev ==> row@.contains(
                            vis[i].0.spec_child(k),
                        ),
                    forall|i: int, k: int|
                        #![trigger vis[i].0.spec_child(k)]
                        0 <= i < vis.len() && vis[i].1 && vis[i].0.level < LEVEL_CELL_2CM && 0
                            <= k < 4 && vis[i].0.level == lev ==> next@.contains(
                            vis[i].0.spec_child(k),
                        ),
                decreases row@.len() - j,
            {
                let node = row[j];
                let descend = visit(node);
                let ghost vis0 = vis;
                let ghost pair = (node, descend);
                proof {
                    vis = vis + seq![pair];
                    assert(vis[vis.len() - 1] == pair);
                    assert(vis.contains(pair));
                    if vis0.len() == 0 {
                        assert(node == VNode::spec_root());
                    }
                    assert(!row@.take(j as int).contains(node)) by {
                        if row@.take(j as int).contains(node) {
                            let w = choose|w: int|
                                0 <= w < j && row@.take(j as int)[w] == node;
                            assert(row@[w] == row@[j as int]);
                        }
                    }
                    assert forall|i: int| 0 <= i < vis0.len() implies vis0[i].0 != node by {
                        if vis0[i].0.level == lev {
                            assert(row@.take(j as int).contains(vis0[i].0));
                        }
                    }
                    assert forall|p: (VNode, bool)| vis0.contains(p) implies vis.contains(
                        p,
                    ) by {
                        lemma_pair_contains_extend(vis0, seq![pair], p);
                    }
                    assert forall|m: VNode| visit_recorded(vis0, m) implies visit_recorded(
                        vis,
                        m,
                    ) by {
                        lemma_recorded_extend(vis0, seq![pair], m);
                    }
                    assert(visit_recorded(vis, node)) by {
                        assert(vis[vis.len() - 1].0 == node);
                    }
                }
                if descend && node.level() < LEVEL_CELL_2CM {
                    let ghost next0 = next@;
                    let kids = node.children();
                    proof {
                        lemma_children_distinct(node);
                        node.lemma_child_parent_roundtrip(0);
                        node.lemma_child_parent_roundtrip(1);
                        node.lemma_child_parent_roundtrip(2);
                        node.lemma_child_parent_roundtrip(3);
                        assert forall|w: int, i: int|
                            0 <= w < next0.len() && 0 <= i < 4 implies next0[w]
                            != node.spec_child(i) by {
                            if next0[w] == node.spec_child(i) {
                                assert(row@.take(j as int).contains(node));
                            }
                        }
                    }
                    next.push(kids[0]);
                    next.push(kids[1]);
                    next.push(kids[2]);
                    next.push(kids[3]);
                    proof {
                        assert(next@ =~= next0 + seq![
                            node.spec_child(0),
                            node.spec_child(1),
                            node.spec_child(2),
                            node.spec_child(3),
                        ]);
                        assert forall|w1: int, w2: int|
                            0 <= w1 < w2 < next@.len() implies next@[w1] != next@[w2] by {
                            if w2 >= next0.len() && w1 >= next0.len() {
                                assert(next@[w1] == node.spec_child(w1 - next0.len()));
                                assert(next@[w2] == node.spec_child(w2 - next0.len()));
                            } else if w2 >= next0.len() {
                                assert(next@[w1] == next0[w1]);
                                assert(next@[w2] == node.spec_child(w2 - next0.len()));
                            }
                        }
                        assert(next@.no_duplicates());
                        assert forall|i: int, k: int|
                            #![trigger vis[i].0.spec_child(k)]
                            0 <= i < vis.len() && vis[i].1 && vis[i].0.level < LEVEL_CELL_2CM
                                && 0 <= k < 4 && vis[i].0.level == lev implies next@.contains(
                            vis[i].0.spec_child(k),
                        ) by {
                            if vis[i].0 == node {
                                assert(next@[next0.len() + k] == node.spec_child(k));
                            } else {
                                assert(row@.take(j as int).contains(vis[i].0));
                                assert(next0.contains(vis[i].0.spec_child(k)));
                                let w = choose|w: int|
                                    0 <= w < next0.len() && next0[w] == vis[i].0.spec_child(k);
                                assert(next@[w] == vis[i].0.spec_child(k));
                            }
                        }
                    }
                }
                j = j + 1;
                proof {
                    assert(row@.take(j as int)[j as int - 1] == node);
                    assert forall|i: int|
                        0 <= i < vis.len() && (#[trigger] vis[i]).0.level == lev
                            implies row@.take(j as int).contains(vis[i].0) by {
                        if vis[i].0 != node {
                            assert(row@.take(j as int - 1).contains(vis[i].0));
                            let prev = row@.take(j as int - 1);
                            let w = choose|w: int|
                                0 <= w < prev.len() && #[trigger] prev[w] == vis[i].0;
                            assert(row@.take(j as int)[w] == vis[i].0);
                        }
                    }
                }
            }
            proof {
                assert(row@.take(row@.len() as int) == row@);
                assert forall|i: int, k: int|
                    #![trigger vis[i].0.spec_child(k)]
                    0 <= i < vis.len() && vis[i].1 && vis[i].0.level < LEVEL_CELL_2CM && 0 <= k
                        < 4 && vis[i].0.level + 1 < lev + 1 implies visit_recorded(
                    vis,
                    vis[i].0.spec_child(k),
                ) by {
                    if vis[i].0.level + 1 == lev {
                        assert(row@.contains(vis[i].0.spec_child(k)));
                        let w = choose|w: int|
                            0 <= w < row@.len() && row@[w] == vis[i].0.spec_child(k);
                        assert(visit_recorded(vis, row@[w]));
                    }
                }
                assert(lev == 0 ==> row@.len() > 0);
            }
            row = next;
            lev = lev + 1;
        }
        Ghost(vis)
    }
}

/// The four children of a node are pairwise distinct, and each knows its
/// parent: children of distinct same-level parents never collide.
pub proof fn lemma_children_distinct(node: VNode)
    requires
        node.wf(),
        node.level < LEVEL_CELL_2CM,
    ensures
        forall|i: int, k: int|
            0 <= i < 4 && 0 <= k < 4 && i != k ==> node.spec_child(i) != node.spec_child(k),
{
    assert forall|i: int, k: int|
        0 <= i < 4 && 0 <= k < 4 && i != k implies node.spec_child(i) != node.spec_child(k) by {
        lemma2_to64();
        lemma_pow2_strictly_increases(node.level as nat, LEVEL_CELL_2CM as nat);
        assert(node.spec_child(i).x == 2 * node.x + i % 2);
        assert(node.spec_child(i).y == 2 * node.y + i / 2);
        assert(node.spec_child(k).x == 2 * node.x + k % 2);
        assert(node.spec_child(k).y == 2 * node.y + k / 2);
        assert(i % 2 != k % 2 || i / 2 != k / 2);
    }
}

impl VNode {
    /// The parent of any child of a node is that node itself.
    pub proof fn lemma_child_parent_roundtrip(self, i: int)
        requires
            self.wf(),
            self.level < LEVEL_CELL_2CM,
            0 <= i < 4,
        ensures
            self.spec_child(i).wf(),
            self.spec_child(i).level == self.level + 1,
            self.spec_child(i).spec_parent() == self,
    {
        self.lemma_children_wf();
        let c = self.spec_child(i);
        self.lemma_child_ancestor(i);
        c.lemma_parent_child();
        assert(c.ancestor_at((c.level - 1) as nat) == c.spec_parent());
        assert(c.ancestor_at(self.level as nat) == self);
    }
}

/// Number of cells along one side of the grid at `level`: `2^level`.
/// Well-formed levels never exceed `LEVEL_CELL_2CM`, so the result fits
/// comfortably in a `u32`.
pub fn grid_width(level: u8) -> (r: u32)
    requires
        level <= LEVEL_CELL_2CM,
    ensures
        r as nat == pow2(level as nat),
{
    proof {
        vstd::arithmetic::power2::lemma2_to64();
        vstd::arithmetic::power2::lemma_pow2_strictly_increases(level as nat, 32);
        assert((1u32 << level) as nat == pow2(level as nat)) by {
            vstd::bits::lemma_u32_shl_is_mul(1u32, level as u32);
        }
    }
    1u32 << level
}

} // verus!
