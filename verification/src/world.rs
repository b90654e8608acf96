//! The scene: its primitives, the bounding-volume hierarchy built over them,
//! the closest-hit query and the path integrator.
//!
//! The tree is a flat array in binary-heap order (children of `i` at `2i+1`
//! and `2i+2`).  The closest-hit query traverses the tree but its contract is
//! the plain left-to-right fold over the primitive list: pruning by boxes is
//! proved to lose no hit.

use vstd::prelude::*;
use vstd::arithmetic::power2::pow2;
use crate::fixed::{tdiv, SCALE, div_trunc, lemma_tdiv_bound};
use crate::vec3::{Vec3, in_range, raw_norm2, normalize_s, normalized, axis, lemma_mul_bound,
    PLIM, DLIM};
use crate::ray::Ray;
use crate::aabb::{Aabb, box_contains_box, ray_point_in_box, aabb_wf, surrounding_box,
    lemma_point_meets, lemma_meets_monotone, TLIM};
use crate::material::{color_wf, scatter_s, add_s};
use crate::hitable::{Hitable, HitRecord, hitable_wf, hitable_bbox_s, hitable_candidate,
    hitable_record_s};
use crate::rng::Rng;

verus! {

/// The shadow-acne offset, about a thousandth of a unit: scattered rays
/// ignore hits closer than this, so a bounce cannot re-strike its own
/// starting surface through rounding.
pub const T_EPS: i128 = 66;

/// The far limit of a walk's hit query, well past any scene the coordinate
/// range admits.
pub const T_MAX: i128 = 0x1000_0000_0000;

/// Bounces simulated before a walk is cut off.
pub const MAX_DEPTH: usize = 50;

/// Most primitives a scene may hold.
pub const MAX_ENTITIES: usize = 0x10_0000;

/// Counters of the work a render performed.
#[derive(Clone, Copy, Debug, PartialEq, Eq, Structural)]
pub struct Stats {
    pub first_rays: u64,
    pub bounce_rays: u64,
    pub miss_rays: u64,
    pub entity_hit: u64,
    pub entity_miss: u64,
    pub aabb_hit: u64,
    pub aabb_miss: u64,
}

impl Stats {
    /// All counters at zero.
    pub fn new() -> (r: Stats)
        ensures
            r == (Stats {
                first_rays: 0,
                bounce_rays: 0,
                miss_rays: 0,
                entity_hit: 0,
                entity_miss: 0,
                aabb_hit: 0,
                aabb_miss: 0,
            }),
    {
        Stats {
            first_rays: 0,
            bounce_rays: 0,
            miss_rays: 0,
            entity_hit: 0,
            entity_miss: 0,
            aabb_hit: 0,
            aabb_miss: 0,
        }
    }
}

/// Step a counter, saturating at the top instead of wrapping.
fn bump(c: &mut u64)
    ensures
        *final(c) == if *old(c) == u64::MAX {
            u64::MAX
        } else {
            (*old(c) + 1) as u64
        },
{
    if *c < u64::MAX {
        *c = *c + 1;
    }
}

/// A node of the flat tree.
#[derive(Clone, Copy, Debug, PartialEq, Eq, Structural)]
pub enum BvhNode {
    Branch { bbox: Aabb },
    Leaf { entity: usize },
    Empty,
}

/// `j` lies in the subtree rooted at `a` of the implicit binary heap.
pub open spec fn is_desc(a: int, j: int) -> bool
    decreases j,
{
    if j < 0 {
        false
    } else if j == a {
        true
    } else if j == 0 {
        false
    } else {
        is_desc(a, (j - 1) / 2)
    }
}

/// A descendant never has a smaller index than its root.
pub proof fn lemma_desc_ge(a: int, j: int)
    requires
        is_desc(a, j),
        a >= 0,
    ensures
        j >= a,
    decreases j,
{
    if j != a && j > 0 {
        lemma_desc_ge(a, (j - 1) / 2);
    }
}

/// Children of a subtree member are subtree members.
pub proof fn lemma_desc_child(a: int, j: int)
    requires
        is_desc(a, j),
        a >= 0,
    ensures
        is_desc(a, 2 * j + 1),
        is_desc(a, 2 * j + 2),
{
    lemma_desc_ge(a, j);
    assert((2 * j + 1 - 1) / 2 == j);
    assert((2 * j + 2 - 1) / 2 == j);
}

/// The two subtrees under a node share no member.
pub proof fn lemma_desc_disjoint(i: int, j: int)
    requires
        i >= 0,
        is_desc(2 * i + 1, j),
    ensures
        !is_desc(2 * i + 2, j),
    decreases j,
{
    lemma_desc_ge(2 * i + 1, j);
    if is_desc(2 * i + 2, j) {
        lemma_desc_ge(2 * i + 2, j);
        // j is above both children, so walk its parent chain down.
        if j == 2 * i + 2 {
            assert(is_desc(2 * i + 1, (2 * i + 2 - 1) / 2));
            lemma_desc_ge(2 * i + 1, i);
        } else {
            lemma_desc_disjoint(i, (j - 1) / 2);
        }
    }
}

/// The subtree at `i` is fully built: within bounds, leaves name real
/// primitives, no `Empty` cell is reachable, and every branch box contains
/// the boxes of both children.
pub open spec fn wf_node(bvh: Seq<BvhNode>, ents: Seq<Hitable>, i: int) -> bool
    decreases bvh.len() - i,
{
    0 <= i < bvh.len() && match bvh[i] {
        BvhNode::Leaf { entity } => entity < ents.len(),
        BvhNode::Branch { bbox } => 2 * i + 2 < bvh.len() && aabb_wf(bbox) && wf_node(
            bvh,
            ents,
            2 * i + 1,
        ) && wf_node(bvh, ents, 2 * i + 2) && box_contains_box(
            bbox,
            node_box(bvh, ents, 2 * i + 1),
        ) && box_contains_box(bbox, node_box(bvh, ents, 2 * i + 2)),
        BvhNode::Empty => false,
    }
}

/// The box a node stands for: its own for a branch, its primitive's for a
/// leaf.
pub open spec fn node_box(bvh: Seq<BvhNode>, ents: Seq<Hitable>, i: int) -> Aabb {
    match bvh[i] {
        BvhNode::Branch { bbox } => bbox,
        BvhNode::Leaf { entity } => hitable_bbox_s(ents[entity as int]),
        BvhNode::Empty => Aabb { min: Vec3(0, 0, 0), max: Vec3(0, 0, 0) },
    }
}

/// Primitive `e` is named by some leaf of the subtree at `i`.
pub open spec fn in_leaves(bvh: Seq<BvhNode>, i: int, e: int) -> bool
    decreases bvh.len() - i,
{
    0 <= i < bvh.len() && match bvh[i] {
        BvhNode::Leaf { entity } => entity == e,
        BvhNode::Branch { bbox } => 2 * i + 2 < bvh.len() && (in_leaves(bvh, 2 * i + 1, e)
            || in_leaves(bvh, 2 * i + 2, e)),
        BvhNode::Empty => false,
    }
}

/// A well-formed subtree reads only its own cells: equal cells give equal
/// structure, box and leaves.
pub proof fn lemma_tree_frame(b1: Seq<BvhNode>, b2: Seq<BvhNode>, ents: Seq<Hitable>, i: int)
    requires
        wf_node(b1, ents, i),
        b2.len() >= b1.len(),
        forall |j: int| 0 <= j < b1.len() && is_desc(i, j) ==> b2[j] == b1[j],
    ensures
        wf_node(b2, ents, i),
        node_box(b2, ents, i) == node_box(b1, ents, i),
        forall |e: int| in_leaves(b2, i, e) == in_leaves(b1, i, e),
    decreases b1.len() - i,
{
    assert(is_desc(i, i));
    assert(b2[i] == b1[i]);
    match b1[i] {
        BvhNode::Branch { bbox } => {
            lemma_desc_child(i, i);
            assert forall |j: int|
                0 <= j < b1.len() && is_desc(2 * i + 1, j) implies b2[j] == b1[j] by {
                lemma_desc_prepend(i, 2 * i + 1, j);
            }
            assert forall |j: int|
                0 <= j < b1.len() && is_desc(2 * i + 2, j) implies b2[j] == b1[j] by {
                lemma_desc_prepend(i, 2 * i + 2, j);
            }
            lemma_tree_frame(b1, b2, ents, 2 * i + 1);
            lemma_tree_frame(b1, b2, ents, 2 * i + 2);
            assert forall |e: int| in_leaves(b2, i, e) == in_leaves(b1, i, e) by {
                assert(in_leaves(b2, 2 * i + 1, e) == in_leaves(b1, 2 * i + 1, e));
                assert(in_leaves(b2, 2 * i + 2, e) == in_leaves(b1, 2 * i + 2, e));
            }
        },
        _ => {},
    }
}

/// A member of a child's subtree is a member of the parent's.
pub proof fn lemma_desc_prepend(i: int, c: int, j: int)
    requires
        i >= 0,
        is_desc(i, c),
        is_desc(c, j),
    ensures
        is_desc(i, j),
    decreases j,
{
    lemma_desc_ge(i, c);
    if j != c {
        lemma_desc_ge(c, j);
        lemma_desc_prepend(i, c, (j - 1) / 2);
    }
}

/// The box a well-formed node stands for is itself well-formed.
pub proof fn lemma_node_box_wf(bvh: Seq<BvhNode>, ents: Seq<Hitable>, i: int)
    requires
        wf_node(bvh, ents, i),
        forall |j: int| 0 <= j < ents.len() ==> hitable_wf(ents[j]),
    ensures
        aabb_wf(node_box(bvh, ents, i)),
{
    match bvh[i] {
        BvhNode::Leaf { entity } => {
            lemma_hitable_bbox_wf(ents[entity as int]);
        },
        _ => {},
    }
}

/// A well-formed primitive has a well-formed box.
pub proof fn lemma_hitable_bbox_wf(h: Hitable)
    requires
        hitable_wf(h),
    ensures
        aabb_wf(hitable_bbox_s(h)),
{
}

/// Every leaf's box sits inside every ancestor's box, up the whole subtree.
pub proof fn lemma_leaf_box(bvh: Seq<BvhNode>, ents: Seq<Hitable>, i: int, e: int)
    requires
        wf_node(bvh, ents, i),
        in_leaves(bvh, i, e),
    ensures
        box_contains_box(node_box(bvh, ents, i), hitable_bbox_s(ents[e])),
    decreases bvh.len() - i,
{
    match bvh[i] {
        BvhNode::Branch { bbox } => {
            if in_leaves(bvh, 2 * i + 1, e) {
                lemma_leaf_box(bvh, ents, 2 * i + 1, e);
            } else {
                lemma_leaf_box(bvh, ents, 2 * i + 2, e);
            }
        },
        _ => {},
    }
}

/// The number of reachable cells of the subtree at `i` (used as a measure).
pub open spec fn tsize(bvh: Seq<BvhNode>, i: int) -> nat
    decreases bvh.len() - i,
{
    if !(0 <= i < bvh.len()) {
        0
    } else {
        match bvh[i] {
            BvhNode::Branch { bbox } => if 2 * i + 2 < bvh.len() {
                1 + tsize(bvh, 2 * i + 1) + tsize(bvh, 2 * i + 2)
            } else {
                1
            },
            _ => 1,
        }
    }
}

/// The summed sizes of the subtrees a stack of nodes still has to visit.
pub open spec fn smeasure(bvh: Seq<BvhNode>, st: Seq<usize>) -> nat
    decreases st.len(),
{
    if st.len() == 0 {
        0
    } else {
        tsize(bvh, st.last() as int) + smeasure(bvh, st.drop_last())
    }
}

/// Pushing a node adds its subtree to the measure.
pub proof fn lemma_smeasure_push(bvh: Seq<BvhNode>, st: Seq<usize>, x: usize)
    ensures
        smeasure(bvh, st.push(x)) == smeasure(bvh, st) + tsize(bvh, x as int),
{
    assert(st.push(x).last() == x);
    assert(st.push(x).drop_last() =~= st);
}

/// The key primitives are ordered by during a split: the box's low corner
/// along the chosen axis.
pub open spec fn key_s(ents: Seq<Hitable>, ax: int, id: int) -> int {
    axis(hitable_bbox_s(ents[id]).min, ax)
}

/// The executable key of one primitive.
fn key_of(ents: &Vec<Hitable>, ax: usize, id: usize) -> (k: i128)
    requires
        ax < 3,
        id < ents.len(),
        hitable_wf(ents@[id as int]),
    ensures
        k as int == key_s(ents@, ax as int, id as int),
{
    let b = match ents[id].bbox() {
        Some(b) => b,
        None => Aabb { min: Vec3(0, 0, 0), max: Vec3(0, 0, 0) },
    };
    b.min.get(ax)
}

/// Value `e` occurs among `s[lo..hi]`.
pub open spec fn in_ids(s: Seq<usize>, lo: int, hi: int, e: int) -> bool {
    exists |k: int| lo <= k <= hi - 1 && s[k] == e
}

/// Sort `ids[lo..hi]` by the box key along `ax`, in place.
fn sort_range(ids: &mut Vec<usize>, lo: usize, hi: usize, ents: &Vec<Hitable>, ax: usize)
    requires
        lo <= hi <= old(ids).len(),
        ax < 3,
        forall |k: int| lo <= k < hi ==> old(ids)@[k] < ents.len(),
        forall |j: int| 0 <= j < ents.len() ==> hitable_wf(ents@[j]),
    ensures
        final(ids)@.len() == old(ids)@.len(),
        forall |k: int|
            0 <= k < final(ids)@.len() && !(lo <= k < hi) ==> final(ids)@[k] == old(ids)@[k],
        forall |k: int| lo <= k < hi ==> final(ids)@[k] < ents.len(),
        forall |e: int| in_ids(final(ids)@, lo as int, hi as int, e) == in_ids(
            old(ids)@,
            lo as int,
            hi as int,
            e,
        ),
        forall |p: int, q: int|
            lo <= p < q < hi ==> key_s(ents@, ax as int, #[trigger] final(ids)@[p] as int) <= key_s(
                ents@,
                ax as int,
                #[trigger] final(ids)@[q] as int,
            ),
{
    if hi <= lo {
        return ;
    }
    let ghost orig = ids@;
    let mut i: usize = lo + 1;
    while i < hi
        invariant
            lo < i <= hi <= ids@.len(),
            ax < 3,
            forall |j: int| 0 <= j < ents@.len() ==> hitable_wf(ents@[j]),
            ids@.len() == orig.len(),
            forall |k: int| 0 <= k < ids@.len() && !(lo <= k < hi) ==> ids@[k] == orig[k],
            forall |k: int| lo <= k < hi ==> ids@[k] < ents@.len(),
            forall |e: int| in_ids(ids@, lo as int, hi as int, e) == in_ids(
                orig,
                lo as int,
                hi as int,
                e,
            ),
            forall |p: int, q: int|
                lo <= p < q < i ==> key_s(ents@, ax as int, #[trigger] ids@[p] as int) <= key_s(
                    ents@,
                    ax as int,
                    #[trigger] ids@[q] as int,
                ),
        decreases hi - i,
    {
        let mut j: usize = i;
        while j > lo && key_of(ents, ax, ids[j - 1]) > key_of(ents, ax, ids[j])
            invariant
                lo <= j <= i < hi <= ids@.len(),
                ax < 3,
                forall |jj: int| 0 <= jj < ents@.len() ==> hitable_wf(ents@[jj]),
                ids@.len() == orig.len(),
                forall |k: int| 0 <= k < ids@.len() && !(lo <= k < hi) ==> ids@[k] == orig[k],
                forall |k: int| lo <= k < hi ==> ids@[k] < ents@.len(),
                forall |e: int| in_ids(ids@, lo as int, hi as int, e) == in_ids(
                    orig,
                    lo as int,
                    hi as int,
                    e,
                ),
                forall |p: int, q: int|
                    lo <= p < q <= i as int && q != j ==> key_s(
                        ents@,
                        ax as int,
                        #[trigger] ids@[p] as int,
                    ) <= key_s(ents@, ax as int, #[trigger] ids@[q] as int),
            decreases j,
        {
            let a = ids[j - 1];
            let b = ids[j];
            let ghost before = ids@;
            ids.set(j - 1, b);
            ids.set(j, a);
            proof {
                assert forall |e: int|
                    in_ids(ids@, lo as int, hi as int, e) == in_ids(
                        before,
                        lo as int,
                        hi as int,
                        e,
                    ) by {
                    if in_ids(before, lo as int, hi as int, e) {
                        let k = choose |k: int|
                            lo <= k <= hi - 1 && before[k] == e;
                        if k == j - 1 {
                            assert(ids@[j as int] == e);
                        } else if k == j {
                            assert(ids@[j - 1] == e);
                        } else {
                            assert(ids@[k] == e);
                        }
                    }
                    if in_ids(ids@, lo as int, hi as int, e) {
                        let k = choose |k: int|
                            lo <= k <= hi - 1 && ids@[k] == e;
                        if k == j - 1 {
                            assert(before[j as int] == e);
                        } else if k == j {
                            assert(before[j - 1] == e);
                        } else {
                            assert(before[k] == e);
                        }
                    }
                }
            }
            j = j - 1;
        }
        i = i + 1;
    }
}

/// Read the box a node stands for, if its cell has been filled in.
fn bvh_bbox(bvh: &Vec<BvhNode>, ents: &Vec<Hitable>, node_id: usize) -> (res: Option<Aabb>)
    requires
        node_id < bvh@.len(),
        forall |j: int| 0 <= j < ents@.len() ==> hitable_wf(ents@[j]),
        match bvh@[node_id as int] {
            BvhNode::Leaf { entity } => entity < ents@.len(),
            _ => true,
        },
    ensures
        res == if bvh@[node_id as int] is Empty {
            None::<Aabb>
        } else {
            Some(node_box(bvh@, ents@, node_id as int))
        },
{
    match bvh[node_id] {
        BvhNode::Branch { bbox } => Some(bbox),
        BvhNode::Leaf { entity } => ents[entity].bbox(),
        BvhNode::Empty => None,
    }
}

/// Build the subtree at `node_id` over the primitives named by
/// `ids[lo..hi]`: sort them along a randomly drawn axis, split in half,
/// recurse, and store the union of the children's boxes.  One primitive is
/// duplicated into both children; two get one leaf each.
///
/// The ghost budget `e` bounds the slice by `pow2(e)` and thereby every
/// touched cell index.
#[verifier::rlimit(60)]
fn build_bvh(
    bvh: &mut Vec<BvhNode>,
    ents: &Vec<Hitable>,
    node_id: usize,
    ids: &mut Vec<usize>,
    lo: usize,
    hi: usize,
    rng: &mut Rng,
    Ghost(e): Ghost<nat>,
)
    requires
        lo < hi <= old(ids)@.len(),
        forall |k: int| lo <= k < hi ==> old(ids)@[k] < ents@.len(),
        forall |j: int| 0 <= j < ents@.len() ==> hitable_wf(ents@[j]),
        hi - lo <= pow2(e),
        (node_id + 2) * pow2(e) <= 0x4000_0000,
    ensures
        final(ids)@.len() == old(ids)@.len(),
        forall |k: int|
            0 <= k < final(ids)@.len() && !(lo <= k < hi) ==> final(ids)@[k] == old(ids)@[k],
        forall |k: int| lo <= k < hi ==> final(ids)@[k] < ents@.len(),
        forall |v: int| in_ids(final(ids)@, lo as int, hi as int, v) == in_ids(
            old(ids)@,
            lo as int,
            hi as int,
            v,
        ),
        final(bvh)@.len() >= old(bvh)@.len(),
        final(bvh)@.len() <= old(bvh)@.len() || final(bvh)@.len() <= 0x8000_0003,
        forall |j: int|
            0 <= j < final(bvh)@.len() && !is_desc(node_id as int, j) ==> final(bvh)@[j] == (
            if j < old(bvh)@.len() {
                old(bvh)@[j]
            } else {
                BvhNode::Empty
            }),
        wf_node(final(bvh)@, ents@, node_id as int),
        forall |k: int|
            lo <= k < hi ==> in_leaves(final(bvh)@, node_id as int, final(ids)@[k] as int),
    decreases hi - lo,
{
    let ghost pre_ids = ids@;
    let ghost pre_bvh = bvh@;
    proof {
        vstd::arithmetic::power2::lemma_pow2_pos(e);
        assert(node_id + 2 <= 0x4000_0000) by (nonlinear_arith)
            requires
                (node_id + 2) * pow2(e) <= 0x4000_0000,
                pow2(e) >= 1,
        ;
    }
    let ax = rng.below(3) as usize;
    sort_range(ids, lo, hi, ents, ax);
    let ghost ids_sorted = ids@;
    let node_left = 2 * node_id + 1;
    let node_right = 2 * node_id + 2;
    let target = 2 * node_id + 3;
    while bvh.len() < target
        invariant
            bvh@.len() >= pre_bvh.len(),
            bvh@.len() <= pre_bvh.len() || bvh@.len() <= target,
            target <= 0x8000_0000,
            forall |j: int|
                0 <= j < bvh@.len() ==> bvh@[j] == (if j < pre_bvh.len() {
                    pre_bvh[j]
                } else {
                    BvhNode::Empty
                }),
        decreases target - bvh.len(),
    {
        bvh.push(BvhNode::Empty);
    }
    let ghost b1 = bvh@;
    let ghost mut ids2 = ids@;
    let m = hi - lo;
    if m <= 2 {
        let ida = ids[lo];
        let idb = if m == 2 {
            ids[lo + 1]
        } else {
            ids[lo]
        };
        bvh.set(node_left, BvhNode::Leaf { entity: ida });
        bvh.set(node_right, BvhNode::Leaf { entity: idb });
        proof {
            lemma_desc_ge_self(node_id as int, node_left as int, node_right as int);
        }
    } else {
        let mid = lo + m / 2;
        proof {
            if e < 2 {
                vstd::arithmetic::power2::lemma2_to64();
                if e == 0 {
                    assert(pow2(0) == 1);
                } else {
                    assert(pow2(1) == 2);
                }
                assert(false);
            }
            vstd::arithmetic::power2::lemma_pow2_unfold(e);
            assert((node_left + 2) * pow2((e - 1) as nat) <= 0x4000_0000 && (node_right + 2)
                * pow2((e - 1) as nat) <= 0x4000_0000) by (nonlinear_arith)
                requires
                    (node_id + 2) * pow2(e) <= 0x4000_0000,
                    pow2(e) == 2 * pow2((e - 1) as nat),
                    pow2((e - 1) as nat) >= 0,
                    node_left == 2 * node_id + 1,
                    node_right == 2 * node_id + 2,
            ;
        }
        build_bvh(bvh, ents, node_left, ids, lo, mid, rng, Ghost((e - 1) as nat));
        let ghost b2 = bvh@;
        proof {
            ids2 = ids@;
        }
        build_bvh(bvh, ents, node_right, ids, mid, hi, rng, Ghost((e - 1) as nat));
        proof {
            // The right build left the whole left subtree alone.
            assert forall |j: int|
                0 <= j < b2.len() && is_desc(node_left as int, j) implies bvh@[j] == b2[j] by {
                lemma_desc_disjoint(node_id as int, j);
            }
            lemma_tree_frame(b2, bvh@, ents@, node_left as int);
        }
    }
    let ghost b3 = bvh@;
    let ghost ids3 = ids@;
    let lb = match bvh_bbox(bvh, ents, node_left) {
        Some(b) => b,
        None => vstd::pervasive::unreached(),
    };
    let rb = match bvh_bbox(bvh, ents, node_right) {
        Some(b) => b,
        None => vstd::pervasive::unreached(),
    };
    let sb = surrounding_box(&lb, &rb);
    bvh.set(node_id, BvhNode::Branch { bbox: sb });
    proof {
        // Writing the parent cell does not touch either child subtree.
        assert forall |j: int|
            0 <= j < b3.len() && is_desc(node_left as int, j) implies bvh@[j] == b3[j] by {
            if j == node_id {
                lemma_desc_ge(node_left as int, j);
            }
        }
        assert forall |j: int|
            0 <= j < b3.len() && is_desc(node_right as int, j) implies bvh@[j] == b3[j] by {
            if j == node_id {
                lemma_desc_ge(node_right as int, j);
            }
        }
        lemma_tree_frame(b3, bvh@, ents@, node_left as int);
        lemma_tree_frame(b3, bvh@, ents@, node_right as int);
        lemma_node_box_wf(b3, ents@, node_left as int);
        lemma_node_box_wf(b3, ents@, node_right as int);
        lemma_desc_child(node_id as int, node_id as int);
        // Frame: anything outside this subtree reads as it did on entry.
        assert forall |j: int|
            0 <= j < bvh@.len() && !is_desc(node_id as int, j) implies bvh@[j] == (
        if j < pre_bvh.len() {
            pre_bvh[j]
        } else {
            BvhNode::Empty
        }) by {
            lemma_desc_prepend_not(node_id as int, node_left as int, node_right as int, j);
        }
        if hi - lo > 2 {
            let mid = lo as int + (hi - lo) as int / 2;
            assert forall |v: int|
                in_ids(ids@, lo as int, hi as int, v) == in_ids(
                    pre_ids,
                    lo as int,
                    hi as int,
                    v,
                ) by {
                lemma_in_ids_split(ids@, lo as int, mid, hi as int, v);
                lemma_in_ids_frame(ids@, ids2, lo as int, mid, v);
                lemma_in_ids_split(ids2, lo as int, mid, hi as int, v);
                lemma_in_ids_frame(ids2, ids_sorted, mid, hi as int, v);
                lemma_in_ids_split(ids_sorted, lo as int, mid, hi as int, v);
            }
        }
        // Every slice member is covered by a leaf below this node.
        assert forall |k: int|
            lo <= k < hi implies in_leaves(bvh@, node_id as int, ids@[k] as int) by {
            if hi - lo <= 2 {
                assert(in_leaves(bvh@, node_left as int, ids@[lo as int] as int));
                if hi - lo == 2 {
                    assert(in_leaves(bvh@, node_right as int, ids@[lo + 1] as int));
                }
            }
        }
    }
}

/// Occurrence in a range splits at any midpoint.
proof fn lemma_in_ids_split(s: Seq<usize>, lo: int, mid: int, hi: int, v: int)
    requires
        lo <= mid <= hi,
    ensures
        in_ids(s, lo, hi, v) == (in_ids(s, lo, mid, v) || in_ids(s, mid, hi, v)),
{
    if in_ids(s, lo, hi, v) {
        let k = choose |k: int| lo <= k <= hi - 1 && s[k] == v;
        if k < mid {
            assert(lo <= k <= mid - 1 && s[k] == v);
        } else {
            assert(mid <= k <= hi - 1 && s[k] == v);
        }
    }
    if in_ids(s, lo, mid, v) {
        let k = choose |k: int| lo <= k <= mid - 1 && s[k] == v;
        assert(lo <= k <= hi - 1 && s[k] == v);
    }
    if in_ids(s, mid, hi, v) {
        let k = choose |k: int| mid <= k <= hi - 1 && s[k] == v;
        assert(lo <= k <= hi - 1 && s[k] == v);
    }
}

/// Occurrence in a range reads only that range.
proof fn lemma_in_ids_frame(s1: Seq<usize>, s2: Seq<usize>, lo: int, hi: int, v: int)
    requires
        0 <= lo,
        hi <= s1.len(),
        hi <= s2.len(),
        forall |k: int| lo <= k < hi ==> s1[k] == s2[k],
    ensures
        in_ids(s1, lo, hi, v) == in_ids(s2, lo, hi, v),
{
    if in_ids(s1, lo, hi, v) {
        let k = choose |k: int| lo <= k <= hi - 1 && s1[k] == v;
        assert(s2[k] == v);
    }
    if in_ids(s2, lo, hi, v) {
        let k = choose |k: int| lo <= k <= hi - 1 && s2[k] == v;
        assert(s1[k] == v);
    }
}

/// Neither child is an ancestor-or-self of the parent cell.
proof fn lemma_desc_ge_self(node_id: int, node_left: int, node_right: int)
    requires
        node_id >= 0,
        node_left == 2 * node_id + 1,
        node_right == 2 * node_id + 2,
    ensures
        !is_desc(node_left, node_id),
        !is_desc(node_right, node_id),
        is_desc(node_id, node_left),
        is_desc(node_id, node_right),
{
    if is_desc(node_left, node_id) {
        lemma_desc_ge(node_left, node_id);
    }
    if is_desc(node_right, node_id) {
        lemma_desc_ge(node_right, node_id);
    }
    lemma_desc_child(node_id, node_id);
}

/// A cell outside the subtree at `node_id` is outside both child subtrees
/// and is not the node itself.
proof fn lemma_desc_prepend_not(node_id: int, node_left: int, node_right: int, j: int)
    requires
        node_id >= 0,
        node_left == 2 * node_id + 1,
        node_right == 2 * node_id + 2,
        !is_desc(node_id, j),
    ensures
        !is_desc(node_left, j),
        !is_desc(node_right, j),
        j != node_id,
{
    lemma_desc_child(node_id, node_id);
    if is_desc(node_left, j) {
        lemma_desc_prepend(node_id, node_left, j);
    }
    if is_desc(node_right, j) {
        lemma_desc_prepend(node_id, node_right, j);
    }
}

/// The closest-hit fold over the first `n` primitives: the least parameter
/// any of them reports below `t0`, with the least index that reports it.
pub open spec fn hit_upto(ents: Seq<Hitable>, r: Ray, t_min: int, t0: int, n: int) -> (int, Option<
    int,
>)
    decreases n,
{
    if n <= 0 {
        (t0, None)
    } else {
        let (m, e) = hit_upto(ents, r, t_min, t0, n - 1);
        match hitable_candidate(ents[n - 1], r, t_min) {
            Some(t) => if t < m {
                (t, Some(n - 1))
            } else {
                (m, e)
            },
            None => (m, e),
        }
    }
}

/// What the fold returns: the minimum over all reported parameters, held by
/// the least index that attains it, or the untouched window end.
pub proof fn lemma_hit_upto_char(ents: Seq<Hitable>, r: Ray, t_min: int, t0: int, n: int)
    ensures
        ({
            let (m, e) = hit_upto(ents, r, t_min, t0, n);
            &&& m <= t0
            &&& match e {
                Some(i) => {
                    &&& 0 <= i < n
                    &&& hitable_candidate(ents[i], r, t_min) == Some(m)
                    &&& m < t0
                    &&& forall |j: int|
                        0 <= j < n ==> match #[trigger] hitable_candidate(ents[j], r, t_min) {
                            Some(t) => t > m || (t == m && j >= i),
                            None => true,
                        }
                },
                None => m == t0 && forall |j: int|
                    0 <= j < n ==> match #[trigger] hitable_candidate(ents[j], r, t_min) {
                        Some(t) => t >= t0,
                        None => true,
                    },
            }
        }),
    decreases n,
{
    if n > 0 {
        lemma_hit_upto_char(ents, r, t_min, t0, n - 1);
    }
}

/// A state that no primitive can improve is exactly what the fold returns.
proof fn lemma_fold_agrees(
    ents: Seq<Hitable>,
    r: Ray,
    t_min: int,
    t0: int,
    n: int,
    m: int,
    found: bool,
    best: int,
)
    requires
        m <= t0,
        !found ==> m == t0,
        found ==> 0 <= best < n && hitable_candidate(ents[best], r, t_min) == Some(m) && m < t0,
        forall |i: int|
            0 <= i < n ==> match #[trigger] hitable_candidate(ents[i], r, t_min) {
                Some(t) => !(t < m || (found && t == m && i < best)),
                None => true,
            },
    ensures
        hit_upto(ents, r, t_min, t0, n) == (m, if found {
            Some(best)
        } else {
            None::<int>
        }),
    decreases n,
{
    if n <= 0 {
    } else if found && best == n - 1 {
        lemma_fold_above(ents, r, t_min, t0, n - 1, m);
    } else {
        lemma_fold_agrees(ents, r, t_min, t0, n - 1, m, found, best);
    }
}

/// If every prefix member reports strictly above a bound (and the window end
/// lies strictly above it too), so does the fold.
proof fn lemma_fold_above(ents: Seq<Hitable>, r: Ray, t_min: int, t0: int, k: int, bound: int)
    requires
        t0 > bound,
        forall |i: int|
            0 <= i < k ==> match #[trigger] hitable_candidate(ents[i], r, t_min) {
                Some(t) => t > bound,
                None => true,
            },
    ensures
        hit_upto(ents, r, t_min, t0, k).0 > bound,
        hit_upto(ents, r, t_min, t0, k).1 matches Some(i) ==> 0 <= i < k,
    decreases k,
{
    if k > 0 {
        lemma_fold_above(ents, r, t_min, t0, k - 1, bound);
    }
}

/// A reported parameter clears `t_min` and reaches into the primitive's box.
proof fn lemma_candidate_some(h: Hitable, r: Ray, t_min: int)
    ensures
        match hitable_candidate(h, r, t_min) {
            Some(t) => t > t_min && ray_point_in_box(hitable_bbox_s(h), r.point, r.direction, t),
            None => true,
        },
{
}

/// Primitive `i` could still improve the running state `(m, found, best)`.
pub open spec fn pending(
    ents: Seq<Hitable>,
    r: Ray,
    t_min: int,
    i: int,
    m: int,
    found: bool,
    best: int,
) -> bool {
    match hitable_candidate(ents[i], r, t_min) {
        Some(t) => t < m || (found && t == m && i < best),
        None => false,
    }
}

/// Primitive `i` is reachable from a node still on the stack.
pub open spec fn covered(bvh: Seq<BvhNode>, st: Seq<usize>, i: int) -> bool {
    exists |k: int| 0 <= k < st.len() && in_leaves(bvh, #[trigger] st[k] as int, i)
}

/// The scene: the primitive list and the tree built over it.
pub struct World {
    pub entities: Vec<Hitable>,
    pub bvh: Vec<BvhNode>,
}

impl World {
    /// The scene is fully built: primitives well-formed, the tree complete,
    /// and every primitive reachable from the root.
    pub closed spec fn wf(&self) -> bool {
        &&& 1 <= self.entities@.len() <= MAX_ENTITIES
        &&& forall |j: int| 0 <= j < self.entities@.len() ==> hitable_wf(self.entities@[j])
        &&& self.bvh@.len() <= 0x8000_0003
        &&& wf_node(self.bvh@, self.entities@, 0)
        &&& forall |v: int| 0 <= v < self.entities@.len() ==> in_leaves(self.bvh@, 0, v)
    }

    /// Build a scene over a non-empty primitive list: the tree is built once,
    /// here; the world is read-only afterwards.
    pub fn new(entities: Vec<Hitable>, rng: &mut Rng) -> (w: World)
        requires
            1 <= entities@.len() <= MAX_ENTITIES,
            forall |j: int| 0 <= j < entities@.len() ==> hitable_wf(entities@[j]),
        ensures
            w.wf(),
            w.entities@ == entities@,
    {
        let n = entities.len();
        let mut ids: Vec<usize> = Vec::new();
        let mut i: usize = 0;
        while i < n
            invariant
                i <= n,
                ids@.len() == i,
                forall |k: int| 0 <= k < i ==> ids@[k] == k,
            decreases n - i,
        {
            ids.push(i);
            i = i + 1;
        }
        let ghost ids0 = ids@;
        let mut bvh: Vec<BvhNode> = Vec::new();
        proof {
            vstd::arithmetic::power2::lemma2_to64();
            assert(pow2(20) == 0x100000);
        }
        build_bvh(&mut bvh, &entities, 0, &mut ids, 0, n, rng, Ghost(20));
        proof {
            assert forall |v: int| 0 <= v < entities@.len() implies in_leaves(bvh@, 0, v) by {
                assert(ids0[v] == v);
                assert(in_ids(ids0, 0, n as int, v));
                assert(in_ids(ids@, 0, n as int, v));
                let k = choose |k: int| 0 <= k <= n - 1 && ids@[k] == v;
                assert(in_leaves(bvh@, 0, ids@[k] as int));
            }
        }
        World { entities, bvh }
    }

    /// The closest hit by a plain scan over the primitive list.
    ///
    /// On an improvement `t_max` shrinks to the least reported parameter and
    /// `entity` names the least index reporting it; otherwise both are left
    /// alone.
    #[verifier::loop_isolation(false)]
    pub fn hit_linear(
        &self,
        r: &Ray,
        t_min: i128,
        t_max: &mut i128,
        entity: &mut usize,
        stats: &mut Stats,
    )
        requires
            self.wf(),
            in_range(r.point, PLIM as int),
            in_range(r.direction, DLIM as int),
            -TLIM <= t_min <= TLIM,
            t_min <= *old(t_max) <= TLIM,
        ensures
            ({
                let (m, e) = hit_upto(
                    self.entities@,
                    *r,
                    t_min as int,
                    *old(t_max) as int,
                    self.entities@.len() as int,
                );
                &&& *final(t_max) as int == m
                &&& match e {
                    Some(i) => *final(entity) as int == i,
                    None => *final(entity) == *old(entity) && *final(t_max) == *old(t_max),
                }
            }),
    {
        let ghost t0 = *t_max as int;
        let ghost e0 = *entity;
        let n = self.entities.len();
        let mut i: usize = 0;
        while i < n
            invariant
                i <= n,
                t_min <= *t_max <= *old(t_max),
                ({
                    let (m, e) = hit_upto(self.entities@, *r, t_min as int, t0, i as int);
                    &&& *t_max as int == m
                    &&& match e {
                        Some(j) => *entity as int == j,
                        None => *entity == e0 && *t_max as int == t0,
                    }
                }),
            decreases n - i,
        {
            let c = self.entities[i].candidate(r, t_min);
            match c {
                Some(t) => {
                    if t < *t_max {
                        *t_max = t;
                        *entity = i;
                        bump(&mut stats.entity_hit);
                    } else {
                        bump(&mut stats.entity_miss);
                    }
                },
                None => {
                    bump(&mut stats.entity_miss);
                },
            }
            i = i + 1;
        }
    }

    /// The closest hit, found through the tree.
    ///
    /// The contract is the one of `hit_linear`: pruning subtrees whose boxes
    /// the ray cannot reach inside the open window loses no hit, because a
    /// reported parameter always reaches into its primitive's box and every
    /// ancestor box contains it.
    #[verifier::loop_isolation(false)]
    #[verifier::rlimit(60)]
    pub fn hit(
        &self,
        r: &Ray,
        t_min: i128,
        t_max: &mut i128,
        entity: &mut usize,
        stats: &mut Stats,
    )
        requires
            self.wf(),
            in_range(r.point, PLIM as int),
            in_range(r.direction, DLIM as int),
            -TLIM <= t_min <= TLIM,
            t_min <= *old(t_max) <= TLIM,
        ensures
            ({
                let (m, e) = hit_upto(
                    self.entities@,
                    *r,
                    t_min as int,
                    *old(t_max) as int,
                    self.entities@.len() as int,
                );
                &&& *final(t_max) as int == m
                &&& match e {
                    Some(i) => *final(entity) as int == i,
                    None => *final(entity) == *old(entity) && *final(t_max) == *old(t_max),
                }
            }),
    {
        let ghost ents = self.entities@;
        let ghost t0 = *t_max as int;
        let n = self.entities.len();
        let mut m: i128 = *t_max;
        let mut found: bool = false;
        let mut best: usize = 0;
        let mut stack: Vec<usize> = Vec::new();
        stack.push(0);
        proof {
            assert(stack@[0] == 0usize);
            assert forall |i: int|
                0 <= i < n && pending(ents, *r, t_min as int, i, m as int, found, best as int)
                    implies covered(self.bvh@, stack@, i) by {
                assert(in_leaves(self.bvh@, stack@[0] as int, i));
            }
            assert forall |k: int| 0 <= k < stack@.len() implies wf_node(
                self.bvh@,
                ents,
                #[trigger] stack@[k] as int,
            ) by {
                assert(stack@[k] == 0usize);
            }
        }
        while stack.len() > 0
            invariant
                forall |k: int|
                    0 <= k < stack@.len() ==> wf_node(
                        self.bvh@,
                        ents,
                        #[trigger] stack@[k] as int,
                    ),
                t_min <= m <= *old(t_max),
                !found ==> m as int == t0,
                found ==> 0 <= (best as int) < n && hitable_candidate(ents[best as int], *r, t_min as int)
                    == Some(m as int) && (m as int) < t0,
                forall |i: int|
                    0 <= i < n && pending(ents, *r, t_min as int, i, m as int, found, best as int)
                        ==> covered(self.bvh@, stack@, i),
            decreases smeasure(self.bvh@, stack@),
        {
            let ghost st_old = stack@;
            let v = match stack.pop() {
                Some(v) => v,
                None => vstd::pervasive::unreached(),
            };
            let ghost st_pop = stack@;
            proof {
                assert(st_old[st_old.len() - 1] == v);
                assert(st_pop =~= st_old.drop_last());
                assert(wf_node(self.bvh@, ents, v as int));
                assert(smeasure(self.bvh@, st_old) == tsize(self.bvh@, v as int) + smeasure(
                    self.bvh@,
                    st_pop,
                ));
                assert forall |k: int| 0 <= k < st_pop.len() implies st_pop[k] == st_old[k] by {}
            }
            match self.bvh[v] {
                BvhNode::Branch { bbox } => {
                    proof {
                        assert(2 * (v as int) + 2 < self.bvh@.len());
                    }
                    let node_left = 2 * v + 1;
                    let node_right = 2 * v + 2;
                    if bbox.hit(r, t_min, m) {
                        bump(&mut stats.aabb_hit);
                        stack.push(node_right);
                        stack.push(node_left);
                        proof {
                            let ghost st1 = st_pop.push(node_right);
                            assert(stack@ =~= st1.push(node_left));
                            lemma_smeasure_push(self.bvh@, st1, node_left);
                            lemma_smeasure_push(self.bvh@, st_pop, node_right);
                            assert(2 * (v as int) + 2 < self.bvh@.len());
                            assert(tsize(self.bvh@, v as int) == 1 + tsize(
                                self.bvh@,
                                node_left as int,
                            ) + tsize(self.bvh@, node_right as int));
                            assert forall |i: int|
                                0 <= i < n && pending(
                                    ents,
                                    *r,
                                    t_min as int,
                                    i,
                                    m as int,
                                    found,
                                    best as int,
                                ) implies covered(self.bvh@, stack@, i) by {
                                assert(covered(self.bvh@, st_old, i));
                                let k = choose |k: int|
                                    0 <= k < st_old.len() && in_leaves(
                                        self.bvh@,
                                        #[trigger] st_old[k] as int,
                                        i,
                                    );
                                if k == st_old.len() - 1 {
                                    assert(in_leaves(self.bvh@, v as int, i));
                                    if in_leaves(self.bvh@, node_left as int, i) {
                                        assert(stack@[stack@.len() - 1] == node_left);
                                        assert(covered(self.bvh@, stack@, i));
                                    } else {
                                        assert(in_leaves(self.bvh@, node_right as int, i));
                                        assert(stack@[stack@.len() - 2] == node_right);
                                        assert(covered(self.bvh@, stack@, i));
                                    }
                                } else {
                                    assert(stack@[k] == st_pop.push(node_right).push(
                                        node_left,
                                    )[k]);
                                    assert(stack@[k] == st_old[k]);
                                    assert(covered(self.bvh@, stack@, i));
                                }
                            }
                        }
                    } else {
                        bump(&mut stats.aabb_miss);
                        proof {
                            assert forall |i: int|
                                0 <= i < n && pending(
                                    ents,
                                    *r,
                                    t_min as int,
                                    i,
                                    m as int,
                                    found,
                                    best as int,
                                ) implies covered(self.bvh@, stack@, i) by {
                                assert(covered(self.bvh@, st_old, i));
                                let k = choose |k: int|
                                    0 <= k < st_old.len() && in_leaves(
                                        self.bvh@,
                                        #[trigger] st_old[k] as int,
                                        i,
                                    );
                                if k == st_old.len() - 1 {
                                    // The pruned box would have been reported hit.
                                    lemma_candidate_some(ents[i], *r, t_min as int);
                                    let t = hitable_candidate(ents[i], *r, t_min as int)->Some_0;
                                    lemma_point_meets(
                                        hitable_bbox_s(ents[i]),
                                        r.point,
                                        r.direction,
                                        t_min as int,
                                        m as int,
                                        t,
                                    );
                                    lemma_leaf_box(self.bvh@, ents, v as int, i);
                                    lemma_meets_monotone(
                                        bbox,
                                        hitable_bbox_s(ents[i]),
                                        r.point,
                                        r.direction,
                                        t_min as int,
                                        m as int,
                                    );
                                    assert(false);
                                } else {
                                    assert(stack@[k] == st_old[k]);
                                    assert(covered(self.bvh@, stack@, i));
                                }
                            }
                        }
                    }
                },
                BvhNode::Leaf { entity: en } => {
                    let ghost m_old = m as int;
                    let ghost found_old = found;
                    let ghost best_old = best as int;
                    let c = self.entities[en].candidate(r, t_min);
                    match c {
                        Some(t) => {
                            if t < m {
                                m = t;
                                found = true;
                                best = en;
                                bump(&mut stats.entity_hit);
                            } else if found && t == m && en < best {
                                best = en;
                                bump(&mut stats.entity_hit);
                            } else {
                                bump(&mut stats.entity_miss);
                            }
                        },
                        None => {
                            bump(&mut stats.entity_miss);
                        },
                    }
                    proof {
                        assert forall |i: int|
                            0 <= i < n && pending(
                                ents,
                                *r,
                                t_min as int,
                                i,
                                m as int,
                                found,
                                best as int,
                            ) implies covered(self.bvh@, stack@, i) by {
                            assert(pending(ents, *r, t_min as int, i, m_old, found_old, best_old));
                            assert(covered(self.bvh@, st_old, i));
                            let k = choose |k: int|
                                0 <= k < st_old.len() && in_leaves(
                                    self.bvh@,
                                    #[trigger] st_old[k] as int,
                                    i,
                                );
                            if k == st_old.len() - 1 {
                                assert(i == en as int);
                                assert(false);
                            } else {
                                assert(stack@[k] == st_old[k]);
                                assert(covered(self.bvh@, stack@, i));
                            }
                        }
                    }
                },
                BvhNode::Empty => {
                    proof {
                        assert(false);
                    }
                },
            }
        }
        proof {
            assert forall |i: int|
                0 <= i < n implies match #[trigger] hitable_candidate(ents[i], *r, t_min as int) {
                Some(t) => !(t < m as int || (found && t == m as int && i < best as int)),
                None => true,
            } by {
                if pending(ents, *r, t_min as int, i, m as int, found, best as int) {
                    assert(covered(self.bvh@, stack@, i));
                }
            }
            lemma_fold_agrees(
                ents,
                *r,
                t_min as int,
                t0,
                n as int,
                m as int,
                found,
                best as int,
            );
        }
        *t_max = m;
        if found {
            *entity = best;
        }
    }
}

/// One channel of an attenuation product stays inside `[0, 1]`.
proof fn lemma_fmul_unit(a: int, b: int)
    requires
        0 <= a <= SCALE,
        0 <= b <= SCALE,
    ensures
        0 <= crate::fixed::fmul(a, b) <= SCALE,
{
    lemma_mul_bound(a, b, 0x1_0000, 0x1_0000);
    vstd::arithmetic::mul::lemma_mul_nonnegative(a, b);
    crate::fixed::lemma_tdiv_scale_le(a * b, 0x1_0000);
    lemma_tdiv_bound(a * b, SCALE as int, 0x1_0000_0000);
}

/// Attenuating a colour keeps it a colour.
pub proof fn lemma_color_mul(a: Vec3, b: Vec3)
    requires
        color_wf(a),
        color_wf(b),
    ensures
        color_wf(crate::material::mul_s(a, b)),
{
    lemma_fmul_unit(a.0 as int, b.0 as int);
    lemma_fmul_unit(a.1 as int, b.1 as int);
    lemma_fmul_unit(a.2 as int, b.2 as int);
}

/// The background gradient folded into the accumulated colour: white blended
/// toward the sky tint by the height of the unit direction.
pub open spec fn background_s(col: Vec3, unit_dir: Vec3) -> Vec3 {
    let t = tdiv(unit_dir.1 + SCALE as int, 2);
    add_s(
        crate::vec3::scale_s(SCALE as int - t, col),
        crate::material::mul_s(crate::vec3::scale_s(t, Vec3(32768, 45875, 65536)), col),
    )
}

/// The background fold keeps colours in range.
proof fn lemma_bg_wf(col: Vec3, unit_dir: Vec3)
    requires
        color_wf(col),
        in_range(unit_dir, SCALE as int),
    ensures
        color_wf(background_s(col, unit_dir)),
{
    let t = tdiv(unit_dir.1 + SCALE as int, 2);
    lemma_tdiv_bound(unit_dir.1 + SCALE as int, 2, 0x2_0000);
    assert(0 <= t <= SCALE) by {
        lemma_tdiv_bound(unit_dir.1 + SCALE as int, 2, 0x2_0000);
        assert(tdiv(unit_dir.1 + SCALE as int, 2) * 2 <= unit_dir.1 + SCALE as int);
        assert(0 <= unit_dir.1 + SCALE as int);
    }
    lemma_bg_channel(t, 32768, col.0 as int);
    lemma_bg_channel(t, 45875, col.1 as int);
    lemma_bg_channel(t, 65536, col.2 as int);
}

/// One channel of the background fold stays inside `[0, 1]`.
proof fn lemma_bg_channel(t: int, sky: int, c: int)
    requires
        0 <= t <= SCALE,
        0 <= sky <= SCALE,
        0 <= c <= SCALE,
    ensures
        0 <= crate::fixed::fmul(SCALE as int - t, c) + crate::fixed::fmul(
            crate::fixed::fmul(t, sky),
            c,
        ) <= SCALE,
{
    let a = crate::fixed::fmul(SCALE as int - t, c);
    let m = crate::fixed::fmul(t, sky);
    lemma_fmul_unit(SCALE as int - t, c);
    lemma_fmul_unit(t, sky);
    // The sky factor is at most the blend weight itself.
    assert(t * sky <= t * 65536) by (nonlinear_arith)
        requires
            0 <= t,
            sky <= 65536,
    ;
    vstd::arithmetic::mul::lemma_mul_nonnegative(t, sky);
    crate::fixed::lemma_tdiv_scale_le(t * sky, t);
    let b = crate::fixed::fmul(m, c);
    lemma_fmul_unit(m, c);
    // Both floors undershoot the exact weighted sum, which is at most c.
    lemma_mul_bound(SCALE as int - t, c, 0x1_0000, 0x1_0000);
    lemma_mul_bound(m, c, 0x1_0000, 0x1_0000);
    lemma_tdiv_bound((SCALE as int - t) * c, SCALE as int, 0x1_0000_0000);
    lemma_tdiv_bound(m * c, SCALE as int, 0x1_0000_0000);
    assert((a + b) * 65536 <= 65536 * c) by (nonlinear_arith)
        requires
            a * 65536 <= (65536 - t) * c,
            b * 65536 <= m * c,
            m <= t,
            0 <= c,
            0 <= t <= 65536,
            SCALE == 65536i128,
            a * SCALE as int == a * 65536 && b * SCALE as int == b * 65536,
    ;
    crate::fixed::lemma_cancel_factor(a + b, c, 65536);
}

/// The colour of one ray: the mirror of the bounded walk `World::color`
/// performs.  Each step normalises the direction, asks the scene for the
/// closest hit past the acne offset, and either folds the background in, or
/// scatters and recurses with the attenuated colour.  A spent budget, an
/// absorbed ray and a degenerate direction are all black.
pub open spec fn color_s(ents: Seq<Hitable>, col: Vec3, r: Ray, fuel: nat, s: u64) -> (Vec3, u64)
    decreases fuel,
{
    if fuel == 0 {
        (Vec3(0, 0, 0), s)
    } else if raw_norm2(r.direction) == 0 {
        (Vec3(0, 0, 0), s)
    } else {
        let nd = normalize_s(r.direction);
        let rn = Ray { point: r.point, direction: nd };
        let (m, e) = hit_upto(ents, rn, T_EPS as int, T_MAX as int, ents.len() as int);
        match e {
            Some(i) => {
                let rec = hitable_record_s(ents[i], rn, m);
                let (res, s1) = scatter_s(
                    crate::hitable::hitable_material_s(ents[i]),
                    s,
                    rn,
                    rec,
                );
                match res {
                    Some(pair) => color_s(
                        ents,
                        crate::material::mul_s(col, pair.0),
                        pair.1,
                        (fuel - 1) as nat,
                        s1,
                    ),
                    None => (Vec3(0, 0, 0), s1),
                }
            },
            None => (background_s(col, nd), s),
        }
    }
}

impl World {
    /// Follow one ray through the scene for at most `max_depth` bounces and
    /// return its colour, a value in `[0, 1]` per channel.
    #[verifier::loop_isolation(false)]
    #[verifier::rlimit(100)]
    #[verifier::spinoff_prover]
    pub fn color(&self, r: Ray, max_depth: usize, rng: &mut Rng, stats: &mut Stats) -> (c: Vec3)
        requires
            self.wf(),
            in_range(r.point, PLIM as int),
            in_range(r.direction, DLIM as int),
        ensures
            c == color_s(
                self.entities@,
                Vec3(SCALE, SCALE, SCALE),
                r,
                max_depth as nat,
                old(rng)@,
            ).0,
            final(rng)@ == color_s(
                self.entities@,
                Vec3(SCALE, SCALE, SCALE),
                r,
                max_depth as nat,
                old(rng)@,
            ).1,
            color_wf(c),
    {
        let ghost ents = self.entities@;
        let ghost s0 = rng@;
        let mut col = Vec3(SCALE, SCALE, SCALE);
        let mut ray = r;
        let mut depth: usize = 0;
        let n = self.entities.len();
        while depth < max_depth
            invariant
                depth <= max_depth,
                color_wf(col),
                in_range(ray.point, PLIM as int),
                in_range(ray.direction, DLIM as int),
                color_s(ents, Vec3(SCALE, SCALE, SCALE), r, max_depth as nat, s0) == color_s(
                    ents,
                    col,
                    ray,
                    (max_depth - depth) as nat,
                    rng@,
                ),
            decreases max_depth - depth,
        {
            if depth == 0 {
                bump(&mut stats.first_rays);
            } else {
                bump(&mut stats.bounce_rays);
            }
            if ray.direction.0 == 0 && ray.direction.1 == 0 && ray.direction.2 == 0 {
                proof {
                    assert(raw_norm2(ray.direction) == 0) by (nonlinear_arith)
                        requires
                            ray.direction.0 == 0 && ray.direction.1 == 0 && ray.direction.2 == 0,
                    ;
                }
                return Vec3(0, 0, 0);
            }
            proof {
                assert(raw_norm2(ray.direction) > 0) by (nonlinear_arith)
                    requires
                        !(ray.direction.0 == 0 && ray.direction.1 == 0 && ray.direction.2 == 0),
                ;
                crate::vec3::lemma_normalized_len(ray.direction);
            }
            let nd = normalized(ray.direction);
            let nray = Ray { point: ray.point, direction: nd };
            let mut t: i128 = T_MAX;
            let mut ent: usize = usize::MAX;
            self.hit(&nray, T_EPS, &mut t, &mut ent, stats);
            proof {
                lemma_hit_upto_char(ents, nray, T_EPS as int, T_MAX as int, n as int);
            }
            if t < T_MAX {
                let mut rec = HitRecord { point: Vec3(0, 0, 0), normal: Vec3(0, 0, 0) };
                proof {
                    lemma_candidate_some(ents[ent as int], nray, T_EPS as int);
                }
                self.entities[ent].hit_record(&nray, t, &mut rec);
                let mat = *self.entities[ent].material();
                match mat.scatter(rng, &nray, &rec) {
                    Some((att, scattered)) => {
                        proof {
                            lemma_color_mul(col, att);
                        }
                        col = col.mul(att);
                        ray = scattered;
                    },
                    None => {
                        return Vec3(0, 0, 0);
                    },
                }
            } else {
                bump(&mut stats.miss_rays);
                proof {
                    lemma_bg_wf(col, nd);
                    lemma_tdiv_bound(nd.1 as int + SCALE as int, 2, 0x2_0000);
                }
                let tb = div_trunc(nd.1 + SCALE, 2);
                let sky = Vec3(32768, 45875, 65536);
                proof {
                    crate::vec3::lemma_scale_s_bound(
                        SCALE as int - tb as int,
                        col,
                        0x1_0000,
                        0x1_0000,
                        0x1_0000,
                    );
                    lemma_fmul_unit(tb as int, 32768);
                    lemma_fmul_unit(tb as int, 45875);
                    lemma_fmul_unit(tb as int, 65536);
                    lemma_color_mul(crate::vec3::scale_s(tb as int, sky), col);
                }
                return col.scale(SCALE - tb).add(sky.scale(tb).mul(col));
            }
            depth = depth + 1;
        }
        Vec3(0, 0, 0)
    }
}

/// A render is a pure function of the scene, the ray and the seed: equal
/// draws give equal colours, byte for byte.
pub proof fn lemma_render_deterministic(
    ents: Seq<Hitable>,
    col: Vec3,
    r1: Ray,
    r2: Ray,
    fuel: nat,
    s1: u64,
    s2: u64,
)
    requires
        r1 == r2,
        s1 == s2,
    ensures
        color_s(ents, col, r1, fuel, s1) == color_s(ents, col, r2, fuel, s2),
{
}

/// With every surface diffuse and a budget of one bounce, a walk is the
/// direct formula with no recursion: the background of a missing ray, black
/// for a hit (the single scatter consumes the budget) or a degenerate ray.
#[verifier::rlimit(100)]
#[verifier::spinoff_prover]
pub proof fn lemma_color_depth_one(ents: Seq<Hitable>, col: Vec3, r: Ray, s: u64)
    requires
        forall |j: int|
            0 <= j < ents.len() ==> crate::hitable::hitable_material_s(#[trigger] ents[j])
                is Lambertian,
    ensures
        color_s(ents, col, r, 1, s).0 == if raw_norm2(r.direction) == 0 {
            Vec3(0, 0, 0)
        } else {
            let rn = Ray { point: r.point, direction: normalize_s(r.direction) };
            if hit_upto(ents, rn, T_EPS as int, T_MAX as int, ents.len() as int).1 is Some {
                Vec3(0, 0, 0)
            } else {
                background_s(col, normalize_s(r.direction))
            }
        },
{
    reveal_with_fuel(color_s, 3);
    if raw_norm2(r.direction) != 0 {
        let rn = Ray { point: r.point, direction: normalize_s(r.direction) };
        let (m, e) = hit_upto(ents, rn, T_EPS as int, T_MAX as int, ents.len() as int);
        match e {
            Some(i) => {
                lemma_hit_upto_char(ents, rn, T_EPS as int, T_MAX as int, ents.len() as int);
                let mat = crate::hitable::hitable_material_s(ents[i]);
                assert(mat is Lambertian);
                let rec = hitable_record_s(ents[i], rn, m);
                reveal(crate::material::lambertian_scatter_s);
                assert(scatter_s(mat, s, rn, rec).0 is Some);
                assert(color_s(ents, col, r, 1, s).0 == Vec3(0, 0, 0));
            },
            None => {},
        }
    }
}

} // verus!
