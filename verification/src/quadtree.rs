//! The per-frame controller of the level-of-detail quadtree.
//!
//! Each frame the caller reports the camera position through
//! [`QuadTree::update_priorities`], which rescores every node reachable
//! through an unbroken chain of above-cutoff ancestors, and then calls
//! [`QuadTree::update_visibility`], which collapses the scored tree into the
//! ordered lists of fully and partially visible nodes that the renderer
//! consumes.

use vstd::prelude::*;
use std::collections::HashMap;
use crate::vnode::VNode;
use crate::vnode::LEVEL_CELL_2CM;
use crate::vnode::lemma_children_distinct;
use crate::priority::CameraPosition;
use crate::priority::Priority;
use crate::priority::PRIORITY_CUTOFF_KEY;

verus! {

broadcast use vstd::std_specs::hash::group_hash_axioms;

/// The kinds of per-node data layers the external tile cache can hold.
#[derive(Clone, Copy, Debug, PartialEq, Eq, Structural, Hash)]
pub enum LayerType {
    /// Mesh displacement data.
    Displacements,
    /// Raw height samples.
    Heights,
}

/// Residency oracle supplied by the external tile cache: a non-blocking
/// query for whether a node's data of a given layer is resident. The
/// quadtree never blocks on tile loads.
pub trait TileCache {
    /// Reports whether the cache currently holds `layer` data for `node`.
    fn contains(&self, node: VNode, layer: LayerType) -> bool;
}

/// Ancillary per-node render bookkeeping, one entry per visible node.
#[derive(Clone, Copy, Debug, PartialEq, Eq, Structural)]
pub struct NodeState {
    /// The visible node this entry belongs to.
    pub node: VNode,
}

/// A node is scored for a camera position when every proper ancestor meets
/// the display cutoff for that camera: the per-frame rescoring walk descends
/// into a node's children only while the node itself scores at or above the
/// cutoff, so descendants of a below-cutoff node are never assigned a
/// priority.
pub open spec fn scored(camera: CameraPosition, n: VNode) -> bool {
    &&& n.wf()
    &&& forall|l: nat|
        l < n.level ==> (#[trigger] n.ancestor_at(l)).spec_priority_key(camera)
            >= PRIORITY_CUTOFF_KEY
}

/// Per-frame quadtree state: the priority map rebuilt whenever the camera
/// moves, and the visible-node lists rebuilt by every visibility pass.
#[derive(Debug)]
pub struct QuadTree {
    /// Nodes selected for full-resolution rendering this frame, in
    /// breadth-first order.
    pub visible_nodes: Vec<VNode>,
    /// Nodes whose four children have mixed visibility, with a 4-bit mask
    /// whose bit `i` is set when child `i` is *not* separately visible and
    /// the parent must render that region instead.
    pub partially_visible_nodes: Vec<(VNode, u8)>,
    /// Samples along one side of a rendered node's height grid.
    pub heights_resolution: u32,
    /// Render bookkeeping sized by the current visible-node count.
    pub node_states: Vec<NodeState>,
    /// Priority of every scored node, keyed by the node's packed code.
    pub node_priorities: HashMap<u64, Priority>,
    /// The camera position of the last rescoring, as its cache key: a
    /// repeated position skips the walk entirely.
    pub last_camera_position: Option<CameraPosition>,
}

impl QuadTree {
    /// The priority this tree currently assigns to `n`: the stored score, or
    /// the least score for any node absent from the map.
    pub open spec fn spec_node_priority_key(self, n: VNode) -> u64 {
        if self.node_priorities@.contains_key(n.spec_code()) {
            self.node_priorities@[n.spec_code()].key
        } else {
            0
        }
    }

    /// The transient visibility flag of a node: the root is always visible,
    /// any other node is visible exactly when its stored priority meets the
    /// cutoff.
    pub open spec fn spec_node_visible(self, n: VNode) -> bool {
        n.level == 0 || self.spec_node_priority_key(n) >= PRIORITY_CUTOFF_KEY
    }

    /// A fresh quadtree with no scored nodes and no visible nodes.
    pub fn new(heights_resolution: u32) -> (r: QuadTree)
        ensures
            r.visible_nodes@.len() == 0,
            r.partially_visible_nodes@.len() == 0,
            r.node_states@.len() == 0,
            r.heights_resolution == heights_resolution,
            r.node_priorities@ == Map::<u64, Priority>::empty(),
            r.last_camera_position is None,
    {
        QuadTree {
            visible_nodes: Vec::new(),
            partially_visible_nodes: Vec::new(),
            node_states: Vec::new(),
            heights_resolution,
            node_priorities: HashMap::new(),
            last_camera_position: None,
        }
    }

    /// Looks up the priority of `node`, returning the least score for nodes
    /// that are absent from the map — pruned branches are not errors.
    pub fn node_priority(&self, node: VNode) -> (r: Priority)
        requires
            node.wf(),
        ensures
            r.key == self.spec_node_priority_key(node),
    {
        match self.node_priorities.get(&node.code()) {
            Some(p) => *p,
            None => Priority::none(),
        }
    }

    /// Number of per-node render state entries: one per visible node.
    pub fn node_buffer_length(&self) -> (r: usize)
        ensures
            r == self.node_states@.len(),
    {
        self.node_states.len()
    }

    /// The nodes selected for full-resolution rendering, in breadth-first
    /// order.
    pub fn visible_nodes(&self) -> (r: &Vec<VNode>)
        ensures
            r@ == self.visible_nodes@,
    {
        &self.visible_nodes
    }

    /// The nodes with mixed child visibility and their 4-bit masks, in
    /// breadth-first order.
    pub fn partially_visible_nodes(&self) -> (r: &Vec<(VNode, u8)>)
        ensures
            r@ == self.partially_visible_nodes@,
    {
        &self.partially_visible_nodes
    }

    /// Rescores the tree for a camera position. When the camera has not
    /// moved since the last call — exact equality, a deliberate optimization
    /// — the tree is left untouched. Otherwise the old scores are dropped
    /// and every node reachable through an unbroken chain of above-cutoff
    /// ancestors is scored afresh, so that afterwards the map holds exactly
    /// the scored nodes, each at its own priority. Rescoring is idempotent
    /// per camera position: a second call with the same position finds it
    /// recorded and leaves the whole tree unchanged.
    pub fn update_priorities(&mut self, camera: CameraPosition)
        ensures
            old(self).last_camera_position == Some(camera) ==> *final(self) == *old(self),
            old(self).last_camera_position != Some(camera) ==> {
                &&& final(self).last_camera_position == Some(camera)
                &&& final(self).visible_nodes == old(self).visible_nodes
                &&& final(self).partially_visible_nodes == old(self).partially_visible_nodes
                &&& final(self).node_states == old(self).node_states
                &&& final(self).heights_resolution == old(self).heights_resolution
                &&& forall|n: VNode|
                    n.wf() ==> (final(self).node_priorities@.contains_key(n.spec_code())
                        <==> scored(camera, n))
                &&& forall|n: VNode|
                    n.wf() && scored(camera, n)
                        ==> (#[trigger] final(self).node_priorities@[n.spec_code()]).key
                        == n.spec_priority_key(camera)
                &&& forall|c: u64|
                    final(self).node_priorities@.contains_key(c) ==> exists|n: VNode|
                        n.wf() && n.spec_code() == c
            },
    {
        let same = match self.last_camera_position {
            Some(p) => p == camera,
            None => false,
        };
        if same {
            return ;
        }
        let mut pri: HashMap<u64, Priority> = HashMap::new();
        let mut row: Vec<VNode> = Vec::new();
        row.push(VNode::root());
        let mut lev: u8 = 0;
        proof {
            vstd::arithmetic::power2::lemma2_to64();
            assert(VNode::spec_root().wf());
            assert forall|n: VNode| n.wf() && #[trigger] scored(camera, n) && n.level
                >= 0 implies row@.contains(n.ancestor_at(0)) by {
                n.lemma_ancestor_at_zero();
                assert(row@[0] == VNode::spec_root());
            }
        }
        while lev <= LEVEL_CELL_2CM
            invariant
                lev <= LEVEL_CELL_2CM + 1,
                holds_scores(pri@, camera),
                row_holds(row@, camera, lev as int),
                forall|n: VNode|
                    n.wf() && #[trigger] scored(camera, n) && n.level < lev
                        ==> pri@.contains_key(n.spec_code()),
                forall|n: VNode|
                    n.wf() && #[trigger] scored(camera, n) && n.level >= lev ==> row@.contains(
                        n.ancestor_at(lev as nat),
                    ),
            decreases LEVEL_CELL_2CM + 1 - lev,
        {
            let mut next: Vec<VNode> = Vec::new();
            let mut j: usize = 0;
            while j < row.len()
                invariant
                    lev <= LEVEL_CELL_2CM,
                    j <= row@.len(),
                    holds_scores(pri@, camera),
                    row_holds(row@, camera, lev as int),
                    row_holds(next@, camera, lev as int + 1),
                    forall|n: VNode|
                        n.wf() && #[trigger] scored(camera, n) && n.level < lev
                            ==> pri@.contains_key(n.spec_code()),
                    forall|n: VNode|
                        n.wf() && #[trigger] scored(camera, n) && n.level == lev
                            && row@.take(j as int).contains(n) ==> pri@.contains_key(
                            n.spec_code(),
                        ),
                    forall|n: VNode|
                        n.wf() && #[trigger] scored(camera, n) && n.level > lev
                            && row@.take(j as int).contains(n.ancestor_at(lev as nat))
                            ==> next@.contains(n.ancestor_at((lev + 1) as nat)),
                decreases row@.len() - j,
            {
                let node = row[j];
                let pr = node.priority(camera);
                let code = node.code();
                proof {
                    lemma_insert_keeps_scores(pri@, camera, node, pr);
                }
                pri.insert(code, pr);
                let ghost next0 = next@;
                let descended = pr >= Priority::cutoff() && node.level() < LEVEL_CELL_2CM;
                if descended {
                    proof {
                        lemma_scored_children(camera, node);
                    }
                    let kids = node.children();
                    next.push(kids[0]);
                    next.push(kids[1]);
                    next.push(kids[2]);
                    next.push(kids[3]);
                    proof {
                        assert(next@ =~= next0 + seq![
                            node.spec_child(0),
                            node.spec_child(1),
                            node.spec_child(2),
                            node.spec_child(3),
                        ]);
                    }
                }
                proof {
                    lemma_next_complete_step(
                        camera,
                        lev,
                        node,
                        row@,
                        j as int,
                        next0,
                        next@,
                        descended,
                    );
                }
                j = j + 1;
                proof {
                    assert forall|n: VNode|
                        n.wf() && #[trigger] scored(camera, n) && n.level == lev
                            && row@.take(j as int).contains(n) implies pri@.contains_key(
                        n.spec_code(),
                    ) by {
                        if !row@.take(j as int - 1).contains(n) {
                            assert(row@.take(j as int)[j as int - 1] == node);
                            assert(n == node);
                        }
                    }
                }
            }
            proof {
                assert(row@.take(row@.len() as int) == row@);
                assert forall|n: VNode|
                    n.wf() && #[trigger] scored(camera, n) && n.level < lev + 1
                        implies pri@.contains_key(n.spec_code()) by {
                    if n.level == lev {
                        n.lemma_ancestor_at_own_level();
                        assert(row@.contains(n));
                    }
                }
                assert forall|n: VNode|
                    n.wf() && #[trigger] scored(camera, n) && n.level >= lev + 1
                        implies next@.contains(n.ancestor_at((lev + 1) as nat)) by {
                    assert(row@.contains(n.ancestor_at(lev as nat)));
                }
            }
            row = next;
            lev = lev + 1;
        }
        self.last_camera_position = Some(camera);
        self.node_priorities = pri;
        proof {
            assert forall|n: VNode| n.wf() && #[trigger] scored(camera, n)
                implies self.node_priorities@.contains_key(n.spec_code()) by {
                assert(n.level < lev);
            }
        }
    }
}

impl QuadTree {
    /// Collapses the scored tree into the final render set, in breadth-first
    /// order. A visible node whose four children are all invisible joins
    /// `visible_nodes` and the walk stops below it; one with mixed child
    /// visibility joins `partially_visible_nodes` with its 4-bit mask and the
    /// walk goes on below it, so the visible children render themselves while
    /// the parent fills the masked regions. The tile cache is the caller's
    /// residency oracle; the current policy folds residency into priorities
    /// alone, so a node whose data is missing is simply not visible this
    /// frame and the collapsed parent covers it.
    #[allow(unused_variables)]
    #[verifier::rlimit(60)]
    pub fn update_visibility<T: TileCache>(&mut self, tile_cache: &T)
        ensures
            final(self).node_priorities == old(self).node_priorities,
            final(self).last_camera_position == old(self).last_camera_position,
            final(self).heights_resolution == old(self).heights_resolution,
            forall|n: VNode|
                final(self).visible_nodes@.contains(n) <==> old(self).spec_reaches(n) && old(self).spec_emits_visible(n),
            final(self).visible_nodes@.no_duplicates(),
            forall|i1: int, i2: int|
                0 <= i1 < i2 < final(self).visible_nodes@.len() ==> final(self).visible_nodes@[i1].level <= final(self).visible_nodes@[i2].level,
            forall|p: (VNode, u8)|
                final(self).partially_visible_nodes@.contains(p) <==> old(self).spec_reaches(p.0)
                    && old(self).spec_emits_partial(p.0) && p.1 as int == old(self).spec_child_mask(p.0),
            forall|i1: int, i2: int|
                0 <= i1 < i2 < final(self).partially_visible_nodes@.len() ==> final(self).partially_visible_nodes@[i1].0 != final(self).partially_visible_nodes@[i2].0,
            forall|i1: int, i2: int|
                0 <= i1 < i2 < final(self).partially_visible_nodes@.len() ==> final(self).partially_visible_nodes@[i1].0.level <= final(self).partially_visible_nodes@[i2].0.level,
            final(self).visible_nodes@ == old(self).visible_list_upto(LEVEL_CELL_2CM as nat),
            final(self).partially_visible_nodes@ == old(self).partial_list_upto(
                LEVEL_CELL_2CM as nat,
            ),
            final(self).node_states@.len() == final(self).visible_nodes@.len(),
            forall|i: int|
                0 <= i < final(self).node_states@.len() ==> (#[trigger] final(self).node_states@[i]).node == final(self).visible_nodes@[i],
    {
        let mut vis_l: Vec<VNode> = Vec::new();
        let mut par_l: Vec<(VNode, u8)> = Vec::new();
        let mut row: Vec<VNode> = Vec::new();
        row.push(VNode::root());
        let mut lev: u8 = 0;
        proof {
            vstd::arithmetic::power2::lemma2_to64();
            assert(VNode::spec_root().wf());
            assert forall|n: VNode| n.wf() && #[trigger] self.spec_reaches(n) && n.level
                >= 0 implies row@.contains(n.ancestor_at(0)) by {
                n.lemma_ancestor_at_zero();
                assert(row@[0] == VNode::spec_root());
            }
            assert(row@ =~= seq![VNode::spec_root()]);
            assert(row@ == self.vis_row(0)) by {
                reveal(QuadTree::vis_row);
            }
        }
        while lev <= LEVEL_CELL_2CM
            invariant
                lev <= LEVEL_CELL_2CM + 1,
                *self == *old(self),
                vis_row_holds(*self, row@, lev as int),
                row@.no_duplicates(),
                row@ == self.vis_row(lev as nat),
                vis_l@ == (if lev == 0 {
                    Seq::<VNode>::empty()
                } else {
                    self.visible_list_upto((lev - 1) as nat)
                }),
                par_l@ == (if lev == 0 {
                    Seq::<(VNode, u8)>::empty()
                } else {
                    self.partial_list_upto((lev - 1) as nat)
                }),
                forall|n: VNode|
                    n.wf() && #[trigger] self.spec_reaches(n) && n.level >= lev ==> row@.contains(
                        n.ancestor_at(lev as nat),
                    ),
                forall|i: int|
                    0 <= i < vis_l@.len() ==> self.spec_reaches(#[trigger] vis_l@[i])
                        && self.spec_emits_visible(vis_l@[i]) && vis_l@[i].level < lev,
                forall|n: VNode|
                    n.wf() && #[trigger] self.spec_reaches(n) && self.spec_emits_visible(n)
                        && n.level < lev ==> vis_l@.contains(n),
                vis_l@.no_duplicates(),
                forall|i1: int, i2: int|
                    0 <= i1 < i2 < vis_l@.len() ==> vis_l@[i1].level <= vis_l@[i2].level,
                forall|i: int|
                    0 <= i < par_l@.len() ==> self.spec_reaches((#[trigger] par_l@[i]).0)
                        && self.spec_emits_partial(par_l@[i].0) && par_l@[i].1 as int
                        == self.spec_child_mask(par_l@[i].0) && par_l@[i].0.level < lev,
                forall|n: VNode|
                    n.wf() && #[trigger] self.spec_reaches(n) && self.spec_emits_partial(n)
                        && n.level < lev ==> par_l@.contains(
                        (n, self.spec_child_mask(n) as u8),
                    ),
                forall|i1: int, i2: int|
                    0 <= i1 < i2 < par_l@.len() ==> par_l@[i1].0 != par_l@[i2].0,
                forall|i1: int, i2: int|
                    0 <= i1 < i2 < par_l@.len() ==> par_l@[i1].0.level <= par_l@[i2].0.level,
            decreases LEVEL_CELL_2CM + 1 - lev,
        {
            let mut next: Vec<VNode> = Vec::new();
            let mut j: usize = 0;
            proof {
                lemma_vis_lists_level_start(
                    *self,
                    row@,
                    (if lev == 0 {
                        Seq::<VNode>::empty()
                    } else {
                        self.visible_list_upto((lev - 1) as nat)
                    }),
                    (if lev == 0 {
                        Seq::<(VNode, u8)>::empty()
                    } else {
                        self.partial_list_upto((lev - 1) as nat)
                    }),
                );
            }
            while j < row.len()
                invariant
                    lev <= LEVEL_CELL_2CM,
                    j <= row@.len(),
                    *self == *old(self),
                    vis_row_holds(*self, row@, lev as int),
                    row@.no_duplicates(),
                    vis_row_holds(*self, next@, lev as int + 1),
                    next@.no_duplicates(),
                    row@ == self.vis_row(lev as nat),
                    next@ == self.vis_expand(row@.take(j as int)),
                    vis_l@ == (if lev == 0 {
                        Seq::<VNode>::empty()
                    } else {
                        self.visible_list_upto((lev - 1) as nat)
                    }) + self.emitted_visible_of(row@.take(j as int)),
                    par_l@ == (if lev == 0 {
                        Seq::<(VNode, u8)>::empty()
                    } else {
                        self.partial_list_upto((lev - 1) as nat)
                    }) + self.emitted_partial_of(row@.take(j as int)),
                    forall|k: int|
                        0 <= k < next@.len() ==> row@.take(j as int).contains(
                            (#[trigger] next@[k]).ancestor_at(lev as nat),
                        ),
                    forall|n: VNode|
                        n.wf() && #[trigger] self.spec_reaches(n) && n.level > lev
                            && row@.take(j as int).contains(n.ancestor_at(lev as nat))
                            ==> next@.contains(n.ancestor_at((lev + 1) as nat)),
                    forall|i: int|
                        0 <= i < vis_l@.len() ==> self.spec_reaches(#[trigger] vis_l@[i])
                            && self.spec_emits_visible(vis_l@[i]) && vis_l@[i].level <= lev,
                    forall|i: int|
                        0 <= i < vis_l@.len() ==> ((#[trigger] vis_l@[i]).level == lev
                            ==> row@.take(j as int).contains(vis_l@[i])),
                    forall|n: VNode|
                        n.wf() && #[trigger] self.spec_reaches(n) && self.spec_emits_visible(n)
                            && (n.level < lev || (n.level == lev && row@.take(
                            j as int,
                        ).contains(n))) ==> vis_l@.contains(n),
                    vis_l@.no_duplicates(),
                    forall|i1: int, i2: int|
                        0 <= i1 < i2 < vis_l@.len() ==> vis_l@[i1].level <= vis_l@[i2].level,
                    forall|i: int|
                        0 <= i < par_l@.len() ==> self.spec_reaches((#[trigger] par_l@[i]).0)
                            && self.spec_emits_partial(par_l@[i].0) && par_l@[i].1 as int
                            == self.spec_child_mask(par_l@[i].0) && par_l@[i].0.level <= lev,
                    forall|i: int|
                        0 <= i < par_l@.len() ==> ((#[trigger] par_l@[i]).0.level == lev
                            ==> row@.take(j as int).contains(par_l@[i].0)),
                    forall|n: VNode|
                        n.wf() && #[trigger] self.spec_reaches(n) && self.spec_emits_partial(n)
                            && (n.level < lev || (n.level == lev && row@.take(
                            j as int,
                        ).contains(n))) ==> par_l@.contains((n, self.spec_child_mask(n) as u8)),
                    forall|i1: int, i2: int|
                        0 <= i1 < i2 < par_l@.len() ==> par_l@[i1].0 != par_l@[i2].0,
                    forall|i1: int, i2: int|
                        0 <= i1 < i2 < par_l@.len() ==> par_l@[i1].0.level <= par_l@[i2].0.level,
                decreases row@.len() - j,
            {
                let node = row[j];
                let visible = self.node_visible(node);
                let ghost next0 = next@;
                let ghost vis0 = vis_l@;
                let ghost par0 = par_l@;
                let mut descended = false;
                proof {
                    assert(row@.take(j as int + 1)[j as int] == node);
                    assert(row@.take(j as int + 1).contains(node));
                    assert(!row@.take(j as int).contains(node));
                }
                if node.level() < LEVEL_CELL_2CM && visible {
                    let kids = node.children();
                    let mut mask: u8 = 0;
                    if !self.node_visible(kids[0]) {
                        mask = mask + 1;
                    }
                    if !self.node_visible(kids[1]) {
                        mask = mask + 2;
                    }
                    if !self.node_visible(kids[2]) {
                        mask = mask + 4;
                    }
                    if !self.node_visible(kids[3]) {
                        mask = mask + 8;
                    }
                    proof {
                        assert(mask as int == self.spec_child_mask(node));
                    }
                    if mask == 15 {
                        vis_l.push(node);
                        proof {
                            assert(vis_l@ =~= vis0 + seq![node]);
                        }
                    } else if mask > 0 {
                        par_l.push((node, mask));
                        proof {
                            assert(mask == self.spec_child_mask(node) as u8);
                            assert(par_l@ =~= par0 + seq![(node, self.spec_child_mask(node) as u8)]);
                        }
                    }
                    if mask < 15 {
                        proof {
                            lemma_reaches_children(*self, node);
                            lemma_children_distinct(node);
                            assert forall|k: int| 0 <= k < next0.len() implies next0[k]
                                != node.spec_child(0) && next0[k] != node.spec_child(1)
                                && next0[k] != node.spec_child(2) && next0[k] != node.spec_child(
                                3,
                            ) by {
                                assert forall|i: int| 0 <= i < 4 implies next0[k]
                                    != node.spec_child(i) by {
                                    if next0[k] == node.spec_child(i) {
                                        node.lemma_child_ancestor(i);
                                        assert(row@.take(j as int).contains(node));
                                    }
                                }
                            }
                        }
                        next.push(kids[0]);
                        next.push(kids[1]);
                        next.push(kids[2]);
                        next.push(kids[3]);
                        descended = true;
                        proof {
                            assert(next@ =~= next0 + seq![
                                node.spec_child(0),
                                node.spec_child(1),
                                node.spec_child(2),
                                node.spec_child(3),
                            ]);
                            node.lemma_child_ancestor(0);
                            node.lemma_child_ancestor(1);
                            node.lemma_child_ancestor(2);
                            node.lemma_child_ancestor(3);
                        }
                    }
                } else if visible {
                    vis_l.push(node);
                    proof {
                        assert(vis_l@ =~= vis0 + seq![node]);
                    }
                }
                proof {
                    lemma_vis_next_complete_step(
                        *self,
                        lev,
                        node,
                        row@,
                        j as int,
                        next0,
                        next@,
                        descended,
                    );
                }
                proof {
                    assert(descended == self.spec_descends(node));
                    lemma_vis_lists_step(
                        *self,
                        row@,
                        j as int,
                        node,
                        next0,
                        next@,
                        (if lev == 0 {
                            Seq::<VNode>::empty()
                        } else {
                            self.visible_list_upto((lev - 1) as nat)
                        }),
                        vis0,
                        vis_l@,
                        (if lev == 0 {
                            Seq::<(VNode, u8)>::empty()
                        } else {
                            self.partial_list_upto((lev - 1) as nat)
                        }),
                        par0,
                        par_l@,
                        descended,
                    );
                }
                j = j + 1;
                proof {
                    assert forall|n: VNode|
                        n.wf() && #[trigger] self.spec_reaches(n) && self.spec_emits_visible(n)
                            && (n.level < lev || (n.level == lev && row@.take(
                            j as int,
                        ).contains(n))) implies vis_l@.contains(n) by {
                        if n.level == lev && !row@.take(j as int - 1).contains(n) {
                            assert(row@.take(j as int)[j as int - 1] == node);
                            assert(n == node);
                            assert(vis_l@.last() == node || vis0.contains(n));
                        }
                        if vis0.contains(n) {
                            let w = choose|w: int| 0 <= w < vis0.len() && vis0[w] == n;
                            assert(vis_l@[w] == n);
                        }
                    }
                    assert forall|n: VNode|
                        n.wf() && #[trigger] self.spec_reaches(n) && self.spec_emits_partial(n)
                            && (n.level < lev || (n.level == lev && row@.take(
                            j as int,
                        ).contains(n))) implies par_l@.contains(
                        (n, self.spec_child_mask(n) as u8),
                    ) by {
                        if n.level == lev && !row@.take(j as int - 1).contains(n) {
                            assert(row@.take(j as int)[j as int - 1] == node);
                            assert(n == node);
                            assert(par_l@.last() == (n, self.spec_child_mask(n) as u8)
                                || par0.contains((n, self.spec_child_mask(n) as u8)));
                        }
                        if par0.contains((n, self.spec_child_mask(n) as u8)) {
                            let w = choose|w: int|
                                0 <= w < par0.len() && par0[w] == (
                                n,
                                self.spec_child_mask(n) as u8,
                                );
                            assert(par_l@[w] == (n, self.spec_child_mask(n) as u8));
                        }
                    }
                }
            }
            proof {
                assert(row@.take(row@.len() as int) == row@);
                assert forall|n: VNode|
                    n.wf() && #[trigger] self.spec_reaches(n) && self.spec_emits_visible(n)
                        && n.level < lev + 1 implies vis_l@.contains(n) by {
                    if n.level == lev {
                        n.lemma_ancestor_at_own_level();
                        assert(row@.contains(n));
                    }
                }
                assert forall|n: VNode|
                    n.wf() && #[trigger] self.spec_reaches(n) && self.spec_emits_partial(n)
                        && n.level < lev + 1 implies par_l@.contains(
                    (n, self.spec_child_mask(n) as u8),
                ) by {
                    if n.level == lev {
                        n.lemma_ancestor_at_own_level();
                        assert(row@.contains(n));
                    }
                }
                assert forall|n: VNode|
                    n.wf() && #[trigger] self.spec_reaches(n) && n.level >= lev + 1
                        implies next@.contains(n.ancestor_at((lev + 1) as nat)) by {
                    assert(row@.contains(n.ancestor_at(lev as nat)));
                }
                lemma_vis_lists_rollover(*self, lev, row@, next@, vis_l@, par_l@);
            }
            row = next;
            lev = lev + 1;
        }
        proof {
            assert forall|n: VNode|
                n.wf() && #[trigger] self.spec_reaches(n) && self.spec_emits_visible(n)
                    implies vis_l@.contains(n) by {
                assert(n.level < lev);
            }
            assert forall|n: VNode|
                n.wf() && #[trigger] self.spec_reaches(n) && self.spec_emits_partial(n)
                    implies par_l@.contains((n, self.spec_child_mask(n) as u8)) by {
                assert(n.level < lev);
            }
        }
        let mut states: Vec<NodeState> = Vec::new();
        let mut k: usize = 0;
        while k < vis_l.len()
            invariant
                k <= vis_l@.len(),
                states@.len() == k,
                forall|i: int| 0 <= i < k ==> (#[trigger] states@[i]).node == vis_l@[i],
            decreases vis_l@.len() - k,
        {
            states.push(NodeState { node: vis_l[k] });
            k = k + 1;
        }
        proof {
            assert forall|p: (VNode, u8)| par_l@.contains(p) implies self.spec_reaches(p.0)
                && self.spec_emits_partial(p.0) && p.1 as int == self.spec_child_mask(p.0) by {
                let w = choose|w: int| 0 <= w < par_l@.len() && par_l@[w] == p;
                assert(par_l@[w] == p);
            }
            assert forall|p: (VNode, u8)|
                self.spec_reaches(p.0) && self.spec_emits_partial(p.0) && p.1 as int
                    == self.spec_child_mask(p.0) implies par_l@.contains(p) by {
                assert(0 < self.spec_child_mask(p.0) < 15);
                assert(p.1 == self.spec_child_mask(p.0) as u8);
                assert(p == (p.0, self.spec_child_mask(p.0) as u8));
                assert(par_l@.contains((p.0, self.spec_child_mask(p.0) as u8)));
            }
            assert forall|n: VNode| vis_l@.contains(n) implies self.spec_reaches(n)
                && self.spec_emits_visible(n) by {
                let w = choose|w: int| 0 <= w < vis_l@.len() && vis_l@[w] == n;
                assert(vis_l@[w] == n);
            }
        }
        self.visible_nodes = vis_l;
        self.partially_visible_nodes = par_l;
        self.node_states = states;
    }
}

impl QuadTree {
    /// The children the visibility walk enqueues below `n`: its four
    /// children in the documented order when the walk descends, nothing
    /// otherwise.
    pub open spec fn vis_kids(self, n: VNode) -> Seq<VNode> {
        if self.spec_descends(n) {
            seq![n.spec_child(0), n.spec_child(1), n.spec_child(2), n.spec_child(3)]
        } else {
            Seq::empty()
        }
    }

    /// One step of the walk: the next level's nodes below a row segment, in
    /// order.
    #[verifier::opaque]
    pub open spec fn vis_expand(self, s: Seq<VNode>) -> Seq<VNode>
        decreases s.len(),
    {
        if s.len() == 0 {
            Seq::empty()
        } else {
            self.vis_expand(s.drop_last()) + self.vis_kids(s.last())
        }
    }

    /// The nodes the visibility walk visits at level `l`, in visit order:
    /// the root alone at level zero, then each visited node's enqueued
    /// children, parents' order first and the documented child order within
    /// one parent.
    #[verifier::opaque]
    pub open spec fn vis_row(self, l: nat) -> Seq<VNode>
        decreases l,
    {
        if l == 0 {
            seq![VNode::spec_root()]
        } else {
            self.vis_expand(self.vis_row((l - 1) as nat))
        }
    }

    /// The fully visible nodes among a row segment, in order.
    #[verifier::opaque]
    pub open spec fn emitted_visible_of(self, s: Seq<VNode>) -> Seq<VNode>
        decreases s.len(),
    {
        if s.len() == 0 {
            Seq::empty()
        } else {
            self.emitted_visible_of(s.drop_last()) + (if self.spec_emits_visible(s.last()) {
                seq![s.last()]
            } else {
                Seq::empty()
            })
        }
    }

    /// The partially visible entries among a row segment, in order.
    #[verifier::opaque]
    pub open spec fn emitted_partial_of(self, s: Seq<VNode>) -> Seq<(VNode, u8)>
        decreases s.len(),
    {
        if s.len() == 0 {
            Seq::empty()
        } else {
            self.emitted_partial_of(s.drop_last()) + (if self.spec_emits_partial(s.last()) {
                seq![(s.last(), self.spec_child_mask(s.last()) as u8)]
            } else {
                Seq::empty()
            })
        }
    }

    /// All fully visible nodes of levels zero through `l`, in breadth-first
    /// order: the exact sequence the visibility pass produces.
    #[verifier::opaque]
    pub open spec fn visible_list_upto(self, l: nat) -> Seq<VNode>
        decreases l,
    {
        if l == 0 {
            self.emitted_visible_of(self.vis_row(0))
        } else {
            self.visible_list_upto((l - 1) as nat) + self.emitted_visible_of(self.vis_row(l))
        }
    }

    /// All partially visible entries of levels zero through `l`, in
    /// breadth-first order: the exact sequence the visibility pass produces.
    #[verifier::opaque]
    pub open spec fn partial_list_upto(self, l: nat) -> Seq<(VNode, u8)>
        decreases l,
    {
        if l == 0 {
            self.emitted_partial_of(self.vis_row(0))
        } else {
            self.partial_list_upto((l - 1) as nat) + self.emitted_partial_of(self.vis_row(l))
        }
    }
}

/// Handling one more entry of a row segment extends each derived sequence by
/// exactly that entry's contribution.
pub proof fn lemma_segment_step(qt: QuadTree, s: Seq<VNode>, j: int)
    requires
        0 <= j < s.len(),
    ensures
        qt.vis_expand(s.take(j + 1)) == qt.vis_expand(s.take(j)) + qt.vis_kids(s[j]),
        qt.emitted_visible_of(s.take(j + 1)) == qt.emitted_visible_of(s.take(j)) + (
        if qt.spec_emits_visible(s[j]) {
            seq![s[j]]
        } else {
            Seq::<VNode>::empty()
        }),
        qt.emitted_partial_of(s.take(j + 1)) == qt.emitted_partial_of(s.take(j)) + (
        if qt.spec_emits_partial(s[j]) {
            seq![(s[j], qt.spec_child_mask(s[j]) as u8)]
        } else {
            Seq::<(VNode, u8)>::empty()
        }),
{
    reveal(QuadTree::vis_expand);
    reveal(QuadTree::emitted_visible_of);
    reveal(QuadTree::emitted_partial_of);
    assert(s.take(j + 1).drop_last() =~= s.take(j));
    assert(s.take(j + 1).last() == s[j]);
}

/// Handling one row entry of the visibility walk extends the output lists
/// and the next row by exactly that entry's contribution.
pub proof fn lemma_vis_lists_step(
    qt: QuadTree,
    row: Seq<VNode>,
    j: int,
    node: VNode,
    next0: Seq<VNode>,
    next1: Seq<VNode>,
    pre_vis: Seq<VNode>,
    vis0: Seq<VNode>,
    vis1: Seq<VNode>,
    pre_par: Seq<(VNode, u8)>,
    par0: Seq<(VNode, u8)>,
    par1: Seq<(VNode, u8)>,
    descended: bool,
)
    requires
        0 <= j < row.len(),
        row[j] == node,
        descended == qt.spec_descends(node),
        descended ==> next1 == next0 + seq![
            node.spec_child(0),
            node.spec_child(1),
            node.spec_child(2),
            node.spec_child(3),
        ],
        !descended ==> next1 == next0,
        qt.spec_emits_visible(node) ==> vis1 == vis0 + seq![node],
        !qt.spec_emits_visible(node) ==> vis1 == vis0,
        qt.spec_emits_partial(node) ==> par1 == par0 + seq![
            (node, qt.spec_child_mask(node) as u8),
        ],
        !qt.spec_emits_partial(node) ==> par1 == par0,
        next0 == qt.vis_expand(row.take(j)),
        vis0 == pre_vis + qt.emitted_visible_of(row.take(j)),
        par0 == pre_par + qt.emitted_partial_of(row.take(j)),
    ensures
        next1 == qt.vis_expand(row.take(j + 1)),
        vis1 == pre_vis + qt.emitted_visible_of(row.take(j + 1)),
        par1 == pre_par + qt.emitted_partial_of(row.take(j + 1)),
{
    lemma_segment_step(qt, row, j);
    if descended {
        assert(qt.vis_kids(node) =~= seq![
            node.spec_child(0),
            node.spec_child(1),
            node.spec_child(2),
            node.spec_child(3),
        ]);
    } else {
        assert(qt.vis_kids(node) =~= Seq::<VNode>::empty());
    }
    assert(next1 =~= qt.vis_expand(row.take(j + 1)));
    assert(vis1 =~= pre_vis + qt.emitted_visible_of(row.take(j + 1)));
    assert(par1 =~= pre_par + qt.emitted_partial_of(row.take(j + 1)));
}

/// At the start of one level of the visibility walk, nothing of the level
/// has been handled yet: the handled segment is empty and contributes
/// nothing.
pub proof fn lemma_vis_lists_level_start(
    qt: QuadTree,
    row: Seq<VNode>,
    pre_vis: Seq<VNode>,
    pre_par: Seq<(VNode, u8)>,
)
    ensures
        qt.vis_expand(row.take(0)) == Seq::<VNode>::empty(),
        pre_vis + qt.emitted_visible_of(row.take(0)) == pre_vis,
        pre_par + qt.emitted_partial_of(row.take(0)) == pre_par,
{
    reveal(QuadTree::vis_expand);
    reveal(QuadTree::emitted_visible_of);
    reveal(QuadTree::emitted_partial_of);
    assert(row.take(0) =~= Seq::<VNode>::empty());
    assert(qt.vis_expand(row.take(0)) =~= Seq::<VNode>::empty());
    assert(pre_vis + qt.emitted_visible_of(row.take(0)) =~= pre_vis);
    assert(pre_par + qt.emitted_partial_of(row.take(0)) =~= pre_par);
}

/// Finishing one level of the visibility walk makes the next row the next
/// level's row and the output lists the lists up to the finished level.
pub proof fn lemma_vis_lists_rollover(
    qt: QuadTree,
    lev: u8,
    row: Seq<VNode>,
    next: Seq<VNode>,
    vis_l: Seq<VNode>,
    par_l: Seq<(VNode, u8)>,
)
    requires
        row == qt.vis_row(lev as nat),
        next == qt.vis_expand(row.take(row.len() as int)),
        vis_l == (if lev == 0 {
            Seq::<VNode>::empty()
        } else {
            qt.visible_list_upto((lev - 1) as nat)
        }) + qt.emitted_visible_of(row.take(row.len() as int)),
        par_l == (if lev == 0 {
            Seq::<(VNode, u8)>::empty()
        } else {
            qt.partial_list_upto((lev - 1) as nat)
        }) + qt.emitted_partial_of(row.take(row.len() as int)),
    ensures
        next == qt.vis_row((lev + 1) as nat),
        vis_l == qt.visible_list_upto(lev as nat),
        par_l == qt.partial_list_upto(lev as nat),
{
    reveal(QuadTree::vis_row);
    reveal(QuadTree::visible_list_upto);
    reveal(QuadTree::partial_list_upto);
    assert(row.take(row.len() as int) =~= row);
    assert(qt.vis_row((lev + 1) as nat) == qt.vis_expand(qt.vis_row(lev as nat)));
    if lev == 0 {
        assert(vis_l =~= qt.emitted_visible_of(qt.vis_row(0)));
        assert(par_l =~= qt.emitted_partial_of(qt.vis_row(0)));
    }
}

impl QuadTree {
    /// One rendered piece of terrain: either a node of the fully visible
    /// list, or the region of a partially visible node that stands in for
    /// one of its invisible children. Together these are exactly what the
    /// renderer draws after [`QuadTree::update_visibility`].
    pub open spec fn spec_is_piece(self, p: VNode) -> bool {
        ||| (self.spec_reaches(p) && self.spec_emits_visible(p))
        ||| (p.level > 0 && self.spec_reaches(p) && !self.spec_node_visible(p)
            && self.spec_emits_partial(p.spec_parent()))
    }

    /// Below any reached visible node, some rendered piece covers the given
    /// deepest-level cell.
    proof fn lemma_piece_covering_cell(self, a: VNode, c: VNode)
        requires
            a.wf(),
            c.wf(),
            c.level == LEVEL_CELL_2CM,
            a.covers(c),
            self.spec_reaches(a),
            self.spec_node_visible(a),
        ensures
            exists|p: VNode| #[trigger] self.spec_is_piece(p) && p.covers(c),
        decreases LEVEL_CELL_2CM - a.level,
    {
        if a.level == LEVEL_CELL_2CM {
            c.lemma_ancestor_at_own_level();
            assert(a == c);
            assert(self.spec_is_piece(a) && a.covers(c));
        } else if self.spec_child_mask(a) == 15 {
            assert(self.spec_emits_visible(a));
            assert(self.spec_is_piece(a) && a.covers(c));
        } else {
            a.lemma_covers_step(c);
            let m = c.ancestor_at((a.level + 1) as nat);
            let i = choose|i: int| 0 <= i < 4 && m == a.spec_child(i);
            assert(self.spec_descends(a));
            lemma_reaches_children(self, a);
            if self.spec_node_visible(m) {
                self.lemma_piece_covering_cell(m, c);
            } else {
                m.lemma_parent_child();
                a.lemma_child_ancestor(i);
                assert(m.ancestor_at(a.level as nat) == a);
                assert(m.spec_parent() == a);
                assert(self.spec_child_mask(a) > 0);
                assert(self.spec_emits_partial(a));
                assert(self.spec_is_piece(m) && m.covers(c));
            }
        }
    }

    /// No rendered piece lies inside another: a piece that covers a piece is
    /// that piece itself.
    proof fn lemma_pieces_form_antichain(self, p1: VNode, p2: VNode)
        requires
            p1.wf(),
            p2.wf(),
            self.spec_is_piece(p1),
            self.spec_is_piece(p2),
            p1.covers(p2),
        ensures
            p1 == p2,
    {
        if p1 != p2 {
            if p1.level == p2.level {
                p2.lemma_ancestor_at_own_level();
                assert(false);
            }
            assert(self.spec_descends(p2.ancestor_at(p1.level as nat)));
            assert(self.spec_descends(p1));
            assert(false);
        }
    }

    /// The rendered pieces tile the root exactly: every deepest-level cell
    /// lies under exactly one piece — full coverage with no gaps, and no two
    /// distinct pieces overlap anywhere. The pieces are the nodes of the
    /// fully visible list together with, for every partially visible node,
    /// the children its mask marks as not separately visible.
    pub proof fn lemma_render_set_tiles_root(self)
        ensures
            forall|c: VNode|
                c.wf() && c.level == LEVEL_CELL_2CM ==> exists|p: VNode|
                    #[trigger] self.spec_is_piece(p) && p.covers(c),
            forall|p1: VNode, p2: VNode, c: VNode|
                #![trigger p1.covers(c), p2.covers(c), self.spec_is_piece(p1)]
                p1.wf() && p2.wf() && c.wf() && self.spec_is_piece(p1) && self.spec_is_piece(p2)
                    && p1.covers(c) && p2.covers(c) ==> p1 == p2,
    {
        assert forall|c: VNode| c.wf() && c.level == LEVEL_CELL_2CM implies exists|p: VNode|
            #[trigger] self.spec_is_piece(p) && p.covers(c) by {
            vstd::arithmetic::power2::lemma2_to64();
            c.lemma_ancestor_at_zero();
            assert(VNode::spec_root().covers(c));
            assert(self.spec_reaches(VNode::spec_root()));
            self.lemma_piece_covering_cell(VNode::spec_root(), c);
        }
        assert forall|p1: VNode, p2: VNode, c: VNode|
            p1.wf() && p2.wf() && c.wf() && self.spec_is_piece(p1) && self.spec_is_piece(p2) && (
            #[trigger] p1.covers(c)) && (#[trigger] p2.covers(c)) implies p1 == p2 by {
            if p1.level <= p2.level {
                VNode::lemma_covers_comparable(p1, p2, c);
                self.lemma_pieces_form_antichain(p1, p2);
            } else {
                VNode::lemma_covers_comparable(p2, p1, c);
                self.lemma_pieces_form_antichain(p2, p1);
            }
        }
    }
}

/// All entries of one traversal row are well formed, scored, and sit at the
/// row's level.
pub open spec fn row_holds(row: Seq<VNode>, camera: CameraPosition, lev: int) -> bool {
    forall|j: int|
        0 <= j < row.len() ==> (#[trigger] row[j]).wf() && scored(camera, row[j]) && row[j].level
            == lev
}

/// One scoring step keeps the next row complete: after handling one more row
/// entry, every scored node below any handled entry still has its ancestor in
/// the next row.
pub proof fn lemma_next_complete_step(
    camera: CameraPosition,
    lev: u8,
    node: VNode,
    row: Seq<VNode>,
    j: int,
    next0: Seq<VNode>,
    next1: Seq<VNode>,
    descended: bool,
)
    requires
        lev <= LEVEL_CELL_2CM,
        0 <= j < row.len(),
        row[j] == node,
        node.wf(),
        node.level == lev,
        scored(camera, node),
        descended <==> (node.spec_priority_key(camera) >= PRIORITY_CUTOFF_KEY && node.level
            < LEVEL_CELL_2CM),
        descended ==> next1 == next0 + seq![
            node.spec_child(0),
            node.spec_child(1),
            node.spec_child(2),
            node.spec_child(3),
        ],
        !descended ==> next1 == next0,
        forall|n: VNode|
            n.wf() && #[trigger] scored(camera, n) && n.level > lev && row.take(j).contains(
                n.ancestor_at(lev as nat),
            ) ==> next0.contains(n.ancestor_at((lev + 1) as nat)),
    ensures
        forall|n: VNode|
            n.wf() && #[trigger] scored(camera, n) && n.level > lev && row.take(j + 1).contains(
                n.ancestor_at(lev as nat),
            ) ==> next1.contains(n.ancestor_at((lev + 1) as nat)),
{
    assert forall|n: VNode|
        n.wf() && #[trigger] scored(camera, n) && n.level > lev && row.take(j + 1).contains(
            n.ancestor_at(lev as nat),
        ) implies next1.contains(n.ancestor_at((lev + 1) as nat)) by {
        let a = n.ancestor_at(lev as nat);
        if row.take(j).contains(a) {
            let w = choose|w: int|
                0 <= w < next0.len() && next0[w] == n.ancestor_at((lev + 1) as nat);
            assert(next1[w] == n.ancestor_at((lev + 1) as nat));
        } else {
            assert(row.take(j + 1)[j] == node);
            assert(a == node);
            lemma_step_child_witness(camera, node, n);
            if descended {
                let i = choose|i: int|
                    0 <= i < 4 && n.ancestor_at((node.level + 1) as nat) == node.spec_child(i);
                assert(next1[next0.len() + i] == node.spec_child(i));
            } else {
                assert(false);
            }
        }
    }
}

/// All entries of one visibility row are well formed, reached by the
/// visibility walk, and sit at the row's level.
pub open spec fn vis_row_holds(qt: QuadTree, row: Seq<VNode>, lev: int) -> bool {
    forall|j: int|
        0 <= j < row.len() ==> (#[trigger] row[j]).wf() && qt.spec_reaches(row[j])
            && row[j].level == lev
}

impl QuadTree {
    /// The 4-bit mask of a node below the deepest level: bit `i` is set
    /// exactly when child `i` is *not* visible, so mask 15 means no child can
    /// stand on its own and mask 0 means all four can.
    pub open spec fn spec_child_mask(self, n: VNode) -> int
        recommends
            n.wf(),
            n.level < LEVEL_CELL_2CM,
    {
        (if !self.spec_node_visible(n.spec_child(0)) {
            1int
        } else {
            0int
        }) + (if !self.spec_node_visible(n.spec_child(1)) {
            2int
        } else {
            0int
        }) + (if !self.spec_node_visible(n.spec_child(2)) {
            4int
        } else {
            0int
        }) + (if !self.spec_node_visible(n.spec_child(3)) {
            8int
        } else {
            0int
        })
    }

    /// The visibility walk descends below a node exactly when the node is
    /// visible, lies above the deepest level, and at least one of its
    /// children is visible on its own.
    pub open spec fn spec_descends(self, n: VNode) -> bool {
        &&& n.level < LEVEL_CELL_2CM
        &&& self.spec_node_visible(n)
        &&& self.spec_child_mask(n) < 15
    }

    /// The visibility walk reaches a node when it descends below every
    /// proper ancestor of it.
    pub open spec fn spec_reaches(self, n: VNode) -> bool {
        &&& n.wf()
        &&& forall|l: nat| l < n.level ==> self.spec_descends(#[trigger] n.ancestor_at(l))
    }

    /// A reached node joins the fully visible list when it is visible and
    /// either sits at the deepest level or none of its children is visible
    /// on its own.
    pub open spec fn spec_emits_visible(self, n: VNode) -> bool {
        if n.level < LEVEL_CELL_2CM && self.spec_node_visible(n) {
            self.spec_child_mask(n) == 15
        } else {
            self.spec_node_visible(n)
        }
    }

    /// A reached node joins the partially visible list when it is visible
    /// and its four children have mixed visibility.
    pub open spec fn spec_emits_partial(self, n: VNode) -> bool {
        &&& n.level < LEVEL_CELL_2CM
        &&& self.spec_node_visible(n)
        &&& 0 < self.spec_child_mask(n) < 15
    }

    /// Reports whether a node is visible this frame: the root always is, any
    /// other node is visible exactly when its stored priority meets the
    /// cutoff.
    pub fn node_visible(&self, n: VNode) -> (r: bool)
        requires
            n.wf(),
        ensures
            r == self.spec_node_visible(n),
    {
        n.level() == 0 || self.node_priority(n) >= Priority::cutoff()
    }
}

/// The walk descends below every proper ancestor of a node whose parent it
/// descends below, so the children of a reached node that the walk splits
/// are reached as well.
pub proof fn lemma_reaches_children(qt: QuadTree, node: VNode)
    requires
        node.wf(),
        node.level < LEVEL_CELL_2CM,
        qt.spec_reaches(node),
        qt.spec_descends(node),
    ensures
        forall|i: int|
            0 <= i < 4 ==> qt.spec_reaches(node.spec_child(i)) && (#[trigger] node.spec_child(
                i,
            )).wf() && node.spec_child(i).level == node.level + 1,
{
    assert forall|i: int| 0 <= i < 4 implies qt.spec_reaches(node.spec_child(i)) && (
    #[trigger] node.spec_child(i)).wf() && node.spec_child(i).level == node.level + 1 by {
        let c = node.spec_child(i);
        node.lemma_children_wf();
        node.lemma_child_ancestor(i);
        node.lemma_ancestor_at_own_level();
        assert forall|l: nat| l < c.level implies qt.spec_descends(
            #[trigger] c.ancestor_at(l),
        ) by {
            if l < node.level {
                c.lemma_ancestor_compose(l, node.level as nat);
                assert(c.ancestor_at(l) == node.ancestor_at(l));
            } else {
                assert(c.ancestor_at(l) == node);
            }
        }
    }
}

/// A reached strict descendant of a node forces the walk to descend below
/// that node, and points at the one child that stays on the path down.
pub proof fn lemma_vis_step_child_witness(qt: QuadTree, node: VNode, n: VNode)
    requires
        node.wf(),
        n.wf(),
        qt.spec_reaches(n),
        n.level > node.level,
        n.ancestor_at(node.level as nat) == node,
    ensures
        qt.spec_descends(node),
        node.level < LEVEL_CELL_2CM,
        n.ancestor_at((node.level + 1) as nat).wf(),
        exists|i: int|
            0 <= i < 4 && n.ancestor_at((node.level + 1) as nat) == node.spec_child(i),
{
    assert(node.covers(n));
    node.lemma_covers_step(n);
    n.lemma_ancestor_wf((node.level + 1) as nat);
    assert(qt.spec_descends(n.ancestor_at(node.level as nat)));
}

/// One visibility step keeps the next row complete: after handling one more
/// row entry, every reached node below any handled entry still has its
/// ancestor in the next row.
pub proof fn lemma_vis_next_complete_step(
    qt: QuadTree,
    lev: u8,
    node: VNode,
    row: Seq<VNode>,
    j: int,
    next0: Seq<VNode>,
    next1: Seq<VNode>,
    descended: bool,
)
    requires
        lev <= LEVEL_CELL_2CM,
        0 <= j < row.len(),
        row[j] == node,
        node.wf(),
        node.level == lev,
        qt.spec_reaches(node),
        descended <==> qt.spec_descends(node),
        descended ==> next1 == next0 + seq![
            node.spec_child(0),
            node.spec_child(1),
            node.spec_child(2),
            node.spec_child(3),
        ],
        !descended ==> next1 == next0,
        forall|n: VNode|
            n.wf() && #[trigger] qt.spec_reaches(n) && n.level > lev && row.take(j).contains(
                n.ancestor_at(lev as nat),
            ) ==> next0.contains(n.ancestor_at((lev + 1) as nat)),
    ensures
        forall|n: VNode|
            n.wf() && #[trigger] qt.spec_reaches(n) && n.level > lev && row.take(j + 1).contains(
                n.ancestor_at(lev as nat),
            ) ==> next1.contains(n.ancestor_at((lev + 1) as nat)),
{
    assert forall|n: VNode|
        n.wf() && #[trigger] qt.spec_reaches(n) && n.level > lev && row.take(j + 1).contains(
            n.ancestor_at(lev as nat),
        ) implies next1.contains(n.ancestor_at((lev + 1) as nat)) by {
        let a = n.ancestor_at(lev as nat);
        if row.take(j).contains(a) {
            let w = choose|w: int|
                0 <= w < next0.len() && next0[w] == n.ancestor_at((lev + 1) as nat);
            assert(next1[w] == n.ancestor_at((lev + 1) as nat));
        } else {
            assert(row.take(j + 1)[j] == node);
            assert(a == node);
            lemma_vis_step_child_witness(qt, node, n);
            if descended {
                let i = choose|i: int|
                    0 <= i < 4 && n.ancestor_at((node.level + 1) as nat) == node.spec_child(i);
                assert(next1[next0.len() + i] == node.spec_child(i));
            } else {
                assert(false);
            }
        }
    }
}

/// The score map is sound: every key is the packed code of some well-formed
/// node, and the entry of a well-formed node's code is that node's own score,
/// stored only when the node is scored for `camera`.
pub open spec fn holds_scores(m: Map<u64, Priority>, camera: CameraPosition) -> bool {
    &&& forall|n: VNode|
        n.wf() && #[trigger] m.contains_key(n.spec_code()) ==> scored(camera, n) && m[
            n.spec_code()
        ].key == n.spec_priority_key(camera)
    &&& forall|c: u64|
        #[trigger] m.contains_key(c) ==> exists|n: VNode| n.wf() && n.spec_code() == c
}

/// Storing a scored node's own score keeps the score map sound.
pub proof fn lemma_insert_keeps_scores(
    m: Map<u64, Priority>,
    camera: CameraPosition,
    node: VNode,
    pr: Priority,
)
    requires
        holds_scores(m, camera),
        node.wf(),
        scored(camera, node),
        pr.key == node.spec_priority_key(camera),
    ensures
        holds_scores(m.insert(node.spec_code(), pr), camera),
{
    let m1 = m.insert(node.spec_code(), pr);
    assert forall|n: VNode| n.wf() && #[trigger] m1.contains_key(n.spec_code()) implies scored(
        camera,
        n,
    ) && m1[n.spec_code()].key == n.spec_priority_key(camera) by {
        if n.spec_code() == node.spec_code() {
            VNode::lemma_code_injective(n, node);
        }
    }
    assert forall|c: u64| #[trigger] m1.contains_key(c) implies exists|n: VNode|
        n.wf() && n.spec_code() == c by {
        if c == node.spec_code() {
            assert(node.wf() && node.spec_code() == c);
        }
    }
}

/// The children of a scored node that meets the cutoff are scored as well.
pub proof fn lemma_scored_children(camera: CameraPosition, node: VNode)
    requires
        node.wf(),
        node.level < LEVEL_CELL_2CM,
        scored(camera, node),
        node.spec_priority_key(camera) >= PRIORITY_CUTOFF_KEY,
    ensures
        forall|i: int|
            0 <= i < 4 ==> scored(camera, node.spec_child(i)) && (#[trigger] node.spec_child(
                i,
            )).wf() && node.spec_child(i).level == node.level + 1,
{
    assert forall|i: int| 0 <= i < 4 implies scored(camera, node.spec_child(i)) && (
    #[trigger] node.spec_child(i)).wf() && node.spec_child(i).level == node.level + 1 by {
        let c = node.spec_child(i);
        node.lemma_children_wf();
        node.lemma_child_ancestor(i);
        node.lemma_ancestor_at_own_level();
        assert forall|l: nat| l < c.level implies (#[trigger] c.ancestor_at(
            l,
        )).spec_priority_key(camera) >= PRIORITY_CUTOFF_KEY by {
            if l < node.level {
                c.lemma_ancestor_compose(l, node.level as nat);
                assert(c.ancestor_at(l) == node.ancestor_at(l));
            } else {
                assert(c.ancestor_at(l) == node);
            }
        }
    }
}

/// A scored strict descendant of a node forces the node itself above the
/// cutoff and below the deepest level, and points at the one child that
/// stays on the path down to the descendant.
pub proof fn lemma_step_child_witness(camera: CameraPosition, node: VNode, n: VNode)
    requires
        node.wf(),
        n.wf(),
        scored(camera, n),
        n.level > node.level,
        n.ancestor_at(node.level as nat) == node,
    ensures
        node.spec_priority_key(camera) >= PRIORITY_CUTOFF_KEY,
        node.level < LEVEL_CELL_2CM,
        n.ancestor_at((node.level + 1) as nat).wf(),
        exists|i: int|
            0 <= i < 4 && n.ancestor_at((node.level + 1) as nat) == node.spec_child(i),
{
    assert(node.covers(n));
    node.lemma_covers_step(n);
    n.lemma_ancestor_wf((node.level + 1) as nat);
    assert(n.ancestor_at(node.level as nat).spec_priority_key(camera) >= PRIORITY_CUTOFF_KEY);
}

} // verus!
