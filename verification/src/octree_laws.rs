//! What the octree promises as a whole: after `recompute`, the node array
//! describes the volume, and `draw` reports cubes that cover every
//! non-empty voxel exactly once, each in the colour of all its voxels.
use vstd::prelude::*;
use vstd::arithmetic::div_mod::{lemma_fundamental_div_mod_converse, lemma_div_denominator};
use crate::voxeltree::{
    exp, lemma_exp_pos, lemma_exp_mono, lemma_index_parts, shl1, vox_index, colors_of, TreePos, Pos, Voxel,
    VoxelColor, Vol,
};
use crate::octree::{
    level_offset, kx, ky, kz, child_tp, child_tl, depth, writes_of, writes_prefix, node_of, overlay,
    children_nodes, draw_seq, draw_prefix, half_offs, compute_ok, children_ok, draw_ok, draw_children_ok,
    node_count, faces_of, overlay_faces, Octree, lemma_overlay_faces_colors,
    OctNode, lemma_exp_cube, lemma_level_offset_mono,
};

verus! {

/// `n` is a power of two.
pub open spec fn pow2(n: nat) -> bool
    decreases n,
{
    if n <= 1 {
        n == 1
    } else {
        n % 2 == 0 && pow2(n / 2)
    }
}

/// The node array index of the node at level `l` with coordinates
/// (`x`, `y`, `z`) on that level.
pub open spec fn node_index(l: nat, x: nat, y: nat, z: nat) -> int {
    let e = exp(2, l);
    (level_offset(l) + z * e * e + y * e + x) as int
}

/// `tp` is the position that descending from the root reaches: its level
/// offset is that of its level and its coordinates lie on that level.
pub open spec fn canonical(tp: TreePos) -> bool {
    &&& tp.level <= 8
    &&& tp.offs == level_offset(tp.level as nat)
    &&& tp.x < exp(2, tp.level as nat)
    &&& tp.y < exp(2, tp.level as nat)
    &&& tp.z < exp(2, tp.level as nat)
}

proof fn lemma_cube_digits(e: int, x: int, y: int, z: int)
    requires
        0 <= x < e,
        0 <= y < e,
        0 <= z < e,
    ensures
        0 <= z * e * e + y * e + x < e * e * e,
{
    assert(0 <= z * e * e + y * e + x < e * e * e) by (nonlinear_arith)
        requires
            0 <= x < e,
            0 <= y < e,
            0 <= z < e,
    ;
}

/// The index of a node lies within the slots of its level.
proof fn lemma_node_index_range(l: nat, x: nat, y: nat, z: nat)
    requires
        x < exp(2, l),
        y < exp(2, l),
        z < exp(2, l),
    ensures
        level_offset(l) <= node_index(l, x, y, z) < level_offset(l + 1),
{
    lemma_cube_digits(exp(2, l) as int, x as int, y as int, z as int);
    lemma_exp_cube(l);
}

proof fn lemma_level_offset_strict(a: nat, b: nat)
    requires
        a < b,
    ensures
        level_offset(a + 1) <= level_offset(b),
    decreases b,
{
    if a + 1 < b {
        lemma_level_offset_strict(a, (b - 1) as nat);
        lemma_exp_pos(8, (b - 1) as nat);
    }
}

/// Digits below `e` determine the number they spell.
pub proof fn lemma_digits_unique(e: int, x1: int, y1: int, z1: int, x2: int, y2: int, z2: int)
    requires
        0 <= x1 < e,
        0 <= y1 < e,
        0 <= z1 < e,
        0 <= x2 < e,
        0 <= y2 < e,
        0 <= z2 < e,
        z1 * e * e + y1 * e + x1 == z2 * e * e + y2 * e + x2,
    ensures
        x1 == x2,
        y1 == y2,
        z1 == z2,
{
    let v = z1 * e * e + y1 * e + x1;
    assert(v == (z1 * e + y1) * e + x1) by (nonlinear_arith)
        requires
            v == z1 * e * e + y1 * e + x1,
    ;
    assert(v == (z2 * e + y2) * e + x2) by (nonlinear_arith)
        requires
            v == z2 * e * e + y2 * e + x2,
    ;
    lemma_fundamental_div_mod_converse(v, e, z1 * e + y1, x1);
    lemma_fundamental_div_mod_converse(v, e, z2 * e + y2, x2);
    let w = v / e;
    lemma_fundamental_div_mod_converse(w, e, z1, y1);
    lemma_fundamental_div_mod_converse(w, e, z2, y2);
}

/// Distinct nodes have distinct indices.
pub proof fn lemma_node_index_injective(l1: nat, x1: nat, y1: nat, z1: nat, l2: nat, x2: nat, y2: nat, z2: nat)
    requires
        x1 < exp(2, l1),
        y1 < exp(2, l1),
        z1 < exp(2, l1),
        x2 < exp(2, l2),
        y2 < exp(2, l2),
        z2 < exp(2, l2),
        node_index(l1, x1, y1, z1) == node_index(l2, x2, y2, z2),
    ensures
        l1 == l2,
        x1 == x2,
        y1 == y2,
        z1 == z2,
{
    lemma_node_index_range(l1, x1, y1, z1);
    lemma_node_index_range(l2, x2, y2, z2);
    if l1 < l2 {
        lemma_level_offset_strict(l1, l2);
    } else if l2 < l1 {
        lemma_level_offset_strict(l2, l1);
    } else {
        lemma_digits_unique(exp(2, l1) as int, x1 as int, y1 as int, z1 as int, x2 as int, y2 as int, z2 as int);
    }
}

proof fn lemma_small_powers()
    ensures
        exp(2, 7) == 128,
        exp(2, 8) == 256,
        level_offset(9) == 19173961,
{
    reveal_with_fuel(exp, 10);
    assert(exp(2, 8) == 256);
    assert(exp(8, 8) == 16777216);
    reveal_with_fuel(level_offset, 10);
    assert(level_offset(9) == 19173961);
}

/// A canonical position's index is that of its level and coordinates.
pub proof fn lemma_canonical_index(tp: TreePos)
    requires
        canonical(tp),
    ensures
        tp.edge() == exp(2, tp.level as nat),
        tp.index() == node_index(tp.level as nat, tp.x as nat, tp.y as nat, tp.z as nat),
        level_offset(tp.level as nat) <= tp.index() < level_offset(tp.level as nat + 1),
{
    assert((#[verifier::truncate] (tp.level as u32)) as nat == tp.level as nat);
    if tp.level == 0 {
        assert(exp(2, 0) == 1);
        assert(level_offset(0) == 0);
    }
    lemma_node_index_range(tp.level as nat, tp.x as nat, tp.y as nat, tp.z as nat);
}

/// Descending from a canonical position below level 8 computes without
/// overflow and reaches a canonical position one level down.
pub proof fn lemma_canonical_child(tp: TreePos, k: int)
    requires
        canonical(tp),
        tp.level < 8,
        0 <= k < 8,
    ensures
        tp.lvl_offs_ok(kx(k), ky(k), kz(k)),
        canonical(child_tp(tp, k)),
        child_tp(tp, k).level == tp.level + 1,
        child_tp(tp, k).x == 2 * tp.x + kx(k),
        child_tp(tp, k).y == 2 * tp.y + ky(k),
        child_tp(tp, k).z == 2 * tp.z + kz(k),
{
    let l = tp.level as nat;
    assert((#[verifier::truncate] (tp.level as u32)) as nat == l);
    lemma_small_powers();
    lemma_exp_mono(2, l, 7);
    assert(tp.step() == exp(8, l)) by {
        if l == 0 {
            assert(exp(8, 0) == 1);
        }
    }
    assert(level_offset(l + 1) == level_offset(l) + exp(8, l));
    lemma_level_offset_mono(l + 1, 9);
    assert(shl1(tp.x) == 2 * tp.x);
    assert(shl1(tp.y) == 2 * tp.y);
    assert(shl1(tp.z) == 2 * tp.z);
    assert(exp(2, l + 1) == 2 * exp(2, l));
}

/// `i` is the index of a node whose cube has edge length at least 2, in
/// the subtree of the node at `tp` whose cube has edge length `size`.
pub open spec fn in_sub(tp: TreePos, size: nat, i: int) -> bool
    decreases size, 9nat,
{
    size >= 2 && (i == tp.index() || in_children(tp, size, i, 8))
}

/// `i` is in the subtree of one of the first `k` children of `tp`.
pub open spec fn in_children(tp: TreePos, size: nat, i: int, k: nat) -> bool
    decreases size, k,
{
    if size <= 1 || k == 0 {
        false
    } else {
        in_children(tp, size, i, (k - 1) as nat) || in_sub(child_tp(tp, k - 1), size / 2, i)
    }
}

/// Summarising a cube writes exactly the node slots of its subtree.
pub proof fn lemma_writes_dom<C: VoxelColor>(cs: Seq<C>, vs: int, tp: TreePos, size: nat, tl: Pos, i: int)
    ensures
        writes_of(cs, vs, tp, size, tl).contains_key(i) == in_sub(tp, size, i),
    decreases size, 9nat,
{
    if size > 1 {
        lemma_writes_prefix_dom(cs, vs, tp, size, tl, 8, i);
    }
}

proof fn lemma_writes_prefix_dom<C: VoxelColor>(cs: Seq<C>, vs: int, tp: TreePos, size: nat, tl: Pos, k: nat, i: int)
    ensures
        writes_prefix(cs, vs, tp, size, tl, k).contains_key(i) == in_children(tp, size, i, k),
    decreases size, k,
{
    if size > 1 && k > 0 {
        lemma_writes_prefix_dom(cs, vs, tp, size, tl, (k - 1) as nat, i);
        lemma_writes_dom(cs, vs, child_tp(tp, k - 1), size / 2, child_tl(tl, size / 2, k - 1), i);
    }
}

/// The node at level `l` with coordinates (`x`, `y`, `z`) lies in the
/// subtree of `tp`.
pub open spec fn below(tp: TreePos, l: nat, x: nat, y: nat, z: nat) -> bool {
    &&& tp.level <= l <= 8
    &&& x < exp(2, l)
    &&& y < exp(2, l)
    &&& z < exp(2, l)
    &&& x / exp(2, (l - tp.level) as nat) == tp.x
    &&& y / exp(2, (l - tp.level) as nat) == tp.y
    &&& z / exp(2, (l - tp.level) as nat) == tp.z
}

proof fn lemma_children_witness(tp: TreePos, size: nat, i: int, k: nat) -> (j: nat)
    requires
        in_children(tp, size, i, k),
    ensures
        j < k,
        size >= 2,
        in_sub(child_tp(tp, j as int), size / 2, i),
    decreases k,
{
    if in_sub(child_tp(tp, k - 1), size / 2, i) {
        (k - 1) as nat
    } else {
        lemma_children_witness(tp, size, i, (k - 1) as nat)
    }
}

/// One step down keeps a node below the parent of the child it is below.
proof fn lemma_below_parent(tp: TreePos, k: int, l: nat, x: nat, y: nat, z: nat)
    requires
        canonical(tp),
        tp.level < 8,
        0 <= k < 8,
        below(child_tp(tp, k), l, x, y, z),
    ensures
        below(tp, l, x, y, z),
{
    lemma_canonical_child(tp, k);
    let c = child_tp(tp, k);
    let d = (l - c.level) as nat;
    let e = exp(2, d);
    lemma_exp_pos(2, d);
    assert(exp(2, (l - tp.level) as nat) == 2 * e) by {
        assert((l - tp.level) as nat == d + 1);
    }
    lemma_div_denominator(x as int, e as int, 2);
    lemma_div_denominator(y as int, e as int, 2);
    lemma_div_denominator(z as int, e as int, 2);
    assert(e * 2 == 2 * e);
}

/// Every slot of a subtree is the index of a node below its root.
pub proof fn lemma_sub_witness(tp: TreePos, size: nat, i: int) -> (w: (nat, nat, nat, nat))
    requires
        canonical(tp),
        tp.level + depth(size) <= 8,
        in_sub(tp, size, i),
    ensures
        below(tp, w.0, w.1, w.2, w.3),
        i == node_index(w.0, w.1, w.2, w.3),
        w.0 < tp.level + depth(size),
    decreases size,
{
    assert(depth(size) == 1 + depth(size / 2));
    if i == tp.index() {
        lemma_canonical_index(tp);
        let l = tp.level as nat;
        assert((l - tp.level) as nat == 0);
        assert(exp(2, 0) == 1);
        assert(tp.x as nat / 1 == tp.x as nat);
        assert(tp.y as nat / 1 == tp.y as nat);
        assert(tp.z as nat / 1 == tp.z as nat);
        (tp.level as nat, tp.x as nat, tp.y as nat, tp.z as nat)
    } else {
        let j = lemma_children_witness(tp, size, i, 8);
        lemma_canonical_child(tp, j as int);
        let w = lemma_sub_witness(child_tp(tp, j as int), size / 2, i);
        lemma_below_parent(tp, j as int, w.0, w.1, w.2, w.3);
        w
    }
}

/// The subtrees of two children are disjoint, and neither holds the
/// parent's own slot.
pub proof fn lemma_children_disjoint(tp: TreePos, size: nat, a: int, b: int, i: int)
    requires
        canonical(tp),
        tp.level + depth(size) <= 8,
        size >= 2,
        0 <= a < 8,
        0 <= b < 8,
        in_sub(child_tp(tp, a), size / 2, i),
    ensures
        a != b ==> !in_sub(child_tp(tp, b), size / 2, i),
        i != tp.index(),
{
    assert(depth(size) == 1 + depth(size / 2));
    lemma_canonical_child(tp, a);
    lemma_canonical_child(tp, b);
    let ca = child_tp(tp, a);
    let cb = child_tp(tp, b);
    let wa = lemma_sub_witness(ca, size / 2, i);
    lemma_canonical_index(tp);
    if i == tp.index() {
        lemma_node_index_injective(tp.level as nat, tp.x as nat, tp.y as nat, tp.z as nat, wa.0, wa.1, wa.2, wa.3);
    }
    if a != b && in_sub(cb, size / 2, i) {
        let wb = lemma_sub_witness(cb, size / 2, i);
        lemma_node_index_injective(wa.0, wa.1, wa.2, wa.3, wb.0, wb.1, wb.2, wb.3);
        assert(ca.x == cb.x && ca.y == cb.y && ca.z == cb.z);
        assert(kx(a) == kx(b) && ky(a) == ky(b) && kz(a) == kz(b));
        assert(a == kx(a) + 2 * ky(a) + 4 * kz(a));
        assert(b == kx(b) + 2 * ky(b) + 4 * kz(b));
    }
}

/// A slot in a child's subtree is in its parent's subtree.
proof fn lemma_in_children_intro(tp: TreePos, size: nat, i: int, j: nat, k: nat)
    requires
        size >= 2,
        j < k,
        in_sub(child_tp(tp, j as int), size / 2, i),
    ensures
        in_children(tp, size, i, k),
        k == 8 ==> in_sub(tp, size, i),
    decreases k,
{
    if j + 1 < k {
        lemma_in_children_intro(tp, size, i, j, (k - 1) as nat);
    }
}

/// The node array holds, for every node of edge length at least 2 in the
/// subtree of `tp`, the summary of that node's cube.
pub open spec fn consistent<C: VoxelColor>(
    nodes: Seq<OctNode<C>>,
    cs: Seq<C>,
    vs: int,
    tp: TreePos,
    size: nat,
    tl: Pos,
) -> bool
    decreases size, 9nat,
{
    size <= 1 || (nodes[tp.index()] == node_of(cs, vs, tp, size, tl) && consistent_children(
        nodes,
        cs,
        vs,
        tp,
        size,
        tl,
        8,
    ))
}

/// The subtrees of the first `k` children of `tp` are consistent.
pub open spec fn consistent_children<C: VoxelColor>(
    nodes: Seq<OctNode<C>>,
    cs: Seq<C>,
    vs: int,
    tp: TreePos,
    size: nat,
    tl: Pos,
    k: nat,
) -> bool
    decreases size, k,
{
    if size <= 1 || k == 0 {
        true
    } else {
        &&& consistent_children(nodes, cs, vs, tp, size, tl, (k - 1) as nat)
        &&& consistent(nodes, cs, vs, child_tp(tp, k - 1), size / 2, child_tl(tl, size / 2, k - 1))
    }
}

/// Consistency of a subtree depends only on the slots of that subtree.
proof fn lemma_consistent_local<C: VoxelColor>(
    n1: Seq<OctNode<C>>,
    n2: Seq<OctNode<C>>,
    cs: Seq<C>,
    vs: int,
    tp: TreePos,
    size: nat,
    tl: Pos,
)
    requires
        consistent(n1, cs, vs, tp, size, tl),
        forall|i: int| #[trigger] in_sub(tp, size, i) ==> n1[i] == n2[i],
    ensures
        consistent(n2, cs, vs, tp, size, tl),
    decreases size, 9nat,
{
    if size > 1 {
        assert(in_sub(tp, size, tp.index()));
        lemma_consistent_children_local(n1, n2, cs, vs, tp, size, tl, 8);
    }
}

proof fn lemma_consistent_children_local<C: VoxelColor>(
    n1: Seq<OctNode<C>>,
    n2: Seq<OctNode<C>>,
    cs: Seq<C>,
    vs: int,
    tp: TreePos,
    size: nat,
    tl: Pos,
    k: nat,
)
    requires
        size > 1,
        k <= 8,
        consistent_children(n1, cs, vs, tp, size, tl, k),
        forall|i: int| #[trigger] in_sub(tp, size, i) ==> n1[i] == n2[i],
    ensures
        consistent_children(n2, cs, vs, tp, size, tl, k),
    decreases size, k,
{
    if k > 0 {
        lemma_consistent_children_local(n1, n2, cs, vs, tp, size, tl, (k - 1) as nat);
        let c = child_tp(tp, k - 1);
        assert forall|i: int| #[trigger] in_sub(c, size / 2, i) implies n1[i] == n2[i] by {
            lemma_in_children_intro(tp, size, i, (k - 1) as nat, 8);
        }
        lemma_consistent_local(n1, n2, cs, vs, c, size / 2, child_tl(tl, size / 2, k - 1));
    }
}

/// A slot of child `j`'s subtree holds, after the first `k` children are
/// summarised, what summarising child `j` wrote there.
proof fn lemma_prefix_value<C: VoxelColor>(
    cs: Seq<C>,
    vs: int,
    tp: TreePos,
    size: nat,
    tl: Pos,
    k: nat,
    j: nat,
    i: int,
)
    requires
        canonical(tp),
        tp.level + depth(size) <= 8,
        size >= 2,
        j < k <= 8,
        in_sub(child_tp(tp, j as int), size / 2, i),
    ensures
        writes_prefix(cs, vs, tp, size, tl, k).contains_key(i),
        writes_prefix(cs, vs, tp, size, tl, k)[i] == writes_of(
            cs,
            vs,
            child_tp(tp, j as int),
            size / 2,
            child_tl(tl, size / 2, j as int),
        )[i],
    decreases k,
{
    let last = child_tp(tp, k - 1);
    lemma_writes_dom(cs, vs, last, size / 2, child_tl(tl, size / 2, k - 1), i);
    if j + 1 < k {
        lemma_children_disjoint(tp, size, j as int, k - 1, i);
        lemma_prefix_value(cs, vs, tp, size, tl, (k - 1) as nat, j, i);
    }
}

/// Summarising a cube leaves its subtree consistent, whatever the node
/// array held before.
pub proof fn lemma_writes_consistent<C: VoxelColor>(
    base: Seq<OctNode<C>>,
    cs: Seq<C>,
    vs: int,
    tp: TreePos,
    size: nat,
    tl: Pos,
)
    requires
        canonical(tp),
        tp.level + depth(size) <= 8,
        forall|i: int| #[trigger] in_sub(tp, size, i) ==> 0 <= i < base.len(),
    ensures
        consistent(overlay(base, writes_of(cs, vs, tp, size, tl)), cs, vs, tp, size, tl),
    decreases size, 9nat,
{
    if size > 1 {
        assert(in_sub(tp, size, tp.index()));
        lemma_writes_consistent_children(base, cs, vs, tp, size, tl, 8);
    }
}

proof fn lemma_writes_consistent_children<C: VoxelColor>(
    base: Seq<OctNode<C>>,
    cs: Seq<C>,
    vs: int,
    tp: TreePos,
    size: nat,
    tl: Pos,
    k: nat,
)
    requires
        canonical(tp),
        tp.level + depth(size) <= 8,
        size > 1,
        k <= 8,
        forall|i: int| #[trigger] in_sub(tp, size, i) ==> 0 <= i < base.len(),
    ensures
        consistent_children(overlay(base, writes_of(cs, vs, tp, size, tl)), cs, vs, tp, size, tl, k),
    decreases size, k,
{
    if k > 0 {
        lemma_writes_consistent_children(base, cs, vs, tp, size, tl, (k - 1) as nat);
        let j = (k - 1) as nat;
        let c = child_tp(tp, j as int);
        let ctl = child_tl(tl, size / 2, j as int);
        let wc = writes_of(cs, vs, c, size / 2, ctl);
        let w = writes_of(cs, vs, tp, size, tl);
        assert(depth(size) == 1 + depth(size / 2));
        lemma_canonical_child(tp, j as int);
        assert forall|i: int| #[trigger] in_sub(c, size / 2, i) implies 0 <= i < base.len() by {
            lemma_in_children_intro(tp, size, i, j, 8);
        }
        lemma_writes_consistent(base, cs, vs, c, size / 2, ctl);
        assert forall|i: int| #[trigger] in_sub(c, size / 2, i) implies overlay(base, wc)[i] == overlay(base, w)[i] by {
            lemma_in_children_intro(tp, size, i, j, 8);
            lemma_children_disjoint(tp, size, j as int, j as int, i);
            lemma_prefix_value(cs, vs, tp, size, tl, 8, j, i);
            lemma_writes_dom(cs, vs, c, size / 2, ctl, i);
        }
        lemma_consistent_local(overlay(base, wc), overlay(base, w), cs, vs, c, size / 2, ctl);
    }
}

/// `p` lies in the cube of edge length `size` whose corner is `tl`.
pub open spec fn in_cube(p: Pos, tl: Pos, size: int) -> bool {
    &&& tl.x <= p.x < tl.x + size
    &&& tl.y <= p.y < tl.y + size
    &&& tl.z <= p.z < tl.z + size
}

/// The cube of edge length `size` at `tl` lies inside a volume of edge
/// length `vs`, and `vs` fits the coordinates of a position.
pub open spec fn fits(tl: Pos, size: nat, vs: int) -> bool {
    &&& tl.x + size <= vs
    &&& tl.y + size <= vs
    &&& tl.z + size <= vs
    &&& vs <= u16::MAX
}

/// The colour of the voxel at `p`, given the colours `cs` of a volume of
/// edge length `vs`.
pub open spec fn color_at<C>(cs: Seq<C>, vs: int, p: Pos) -> C {
    cs[vox_index(vs, p.x as int, p.y as int, p.z as int)]
}

/// Which of the eight children of the cube at `tl` with children of edge
/// length `half` holds `p`.
pub open spec fn child_index(p: Pos, tl: Pos, half: int) -> int {
    (if p.x >= tl.x + half { 1int } else { 0int }) + (if p.y >= tl.y + half { 2int } else { 0int }) + (
    if p.z >= tl.z + half {
        4int
    } else {
        0int
    })
}

proof fn lemma_bit_times(b: u8, h: nat)
    requires
        b <= 1,
    ensures
        b == 0 ==> b * h == 0,
        b == 1 ==> b * h == h,
{
    if b == 0 {
        assert(0 * h == 0);
    } else {
        assert(1 * h == h);
    }
}

/// The corner of child `k` is the parent's corner moved by half an edge
/// along the axes the child lies on.
proof fn lemma_child_corner(tl: Pos, size: nat, vs: int, k: int)
    requires
        size >= 2,
        size % 2 == 0,
        fits(tl, size, vs),
        0 <= k < 8,
    ensures
        child_tl(tl, size / 2, k).x == tl.x + kx(k) * (size / 2),
        child_tl(tl, size / 2, k).y == tl.y + ky(k) * (size / 2),
        child_tl(tl, size / 2, k).z == tl.z + kz(k) * (size / 2),
        fits(child_tl(tl, size / 2, k), size / 2, vs),
        half_offs(kx(k), size / 2) == kx(k) * (size / 2),
        half_offs(ky(k), size / 2) == ky(k) * (size / 2),
        half_offs(kz(k), size / 2) == kz(k) * (size / 2),
        tl.x <= child_tl(tl, size / 2, k).x && child_tl(tl, size / 2, k).x + size / 2 <= tl.x + size,
        tl.y <= child_tl(tl, size / 2, k).y && child_tl(tl, size / 2, k).y + size / 2 <= tl.y + size,
        tl.z <= child_tl(tl, size / 2, k).z && child_tl(tl, size / 2, k).z + size / 2 <= tl.z + size,
        forall|p: Pos| #[trigger] in_cube(p, child_tl(tl, size / 2, k), (size / 2) as int) <==> (in_cube(p, tl, size as int) && child_index(p, tl, (size / 2) as int) == k),
{
    let half = size / 2;
    assert(kx(k) <= 1 && ky(k) <= 1 && kz(k) <= 1);
    assert(kx(k) * half <= half && ky(k) * half <= half && kz(k) * half <= half) by (nonlinear_arith)
        requires
            kx(k) <= 1,
            ky(k) <= 1,
            kz(k) <= 1,
    ;
    lemma_bit_times(kx(k), half);
    lemma_bit_times(ky(k), half);
    lemma_bit_times(kz(k), half);
    assert(k == kx(k) + 2 * ky(k) + 4 * kz(k));
}

/// Every position of a cube lies in one of its children's cubes.
proof fn lemma_cube_split(tl: Pos, size: nat, vs: int, p: Pos) -> (k: int)
    requires
        size >= 2,
        size % 2 == 0,
        fits(tl, size, vs),
        in_cube(p, tl, size as int),
    ensures
        0 <= k < 8,
        k == child_index(p, tl, (size / 2) as int),
        in_cube(p, child_tl(tl, size / 2, k), (size / 2) as int),
{
    let k = child_index(p, tl, (size / 2) as int);
    lemma_child_corner(tl, size, vs, k);
    k
}

/// `children_nodes` lists the summaries of the children in order.
proof fn lemma_children_nodes<C: VoxelColor>(cs: Seq<C>, vs: int, tp: TreePos, size: nat, tl: Pos, k: nat)
    requires
        size >= 2,
    ensures
        children_nodes(cs, vs, tp, size, tl, k).len() == k,
        forall|j: int|
            0 <= j < k ==> #[trigger] children_nodes(cs, vs, tp, size, tl, k)[j] == node_of(
                cs,
                vs,
                child_tp(tp, j),
                size / 2,
                child_tl(tl, size / 2, j),
            ),
    decreases k,
{
    if k > 0 {
        lemma_children_nodes(cs, vs, tp, size, tl, (k - 1) as nat);
    }
}

/// What a node summary says of its cube: an empty node's cube holds only
/// empty voxels, and a node with a voxel has that voxel's colour, which is
/// not the empty colour, everywhere in its cube.
pub proof fn lemma_node_of_cube<C: VoxelColor>(cs: Seq<C>, vs: int, tp: TreePos, size: nat, tl: Pos)
    requires
        pow2(size),
        fits(tl, size, vs),
    ensures
        node_of(cs, vs, tp, size, tl).empty ==> forall|p: Pos|
            #[trigger] in_cube(p, tl, size as int) ==> color_at(cs, vs, p) == C::empty_color(),
        node_of(cs, vs, tp, size, tl).voxel is Some ==> {
            let c = node_of(cs, vs, tp, size, tl).voxel->Some_0.color;
            &&& !node_of(cs, vs, tp, size, tl).empty
            &&& c != C::empty_color()
            &&& forall|p: Pos| #[trigger] in_cube(p, tl, size as int) ==> color_at(cs, vs, p) == c
        },
    decreases size,
{
    if size <= 1 {
        assert forall|p: Pos| #[trigger] in_cube(p, tl, size as int) implies color_at(cs, vs, p) == color_at(
            cs,
            vs,
            tl,
        ) by {}
    } else {
        let half = size / 2;
        let ns = children_nodes(cs, vs, tp, size, tl, 8);
        lemma_children_nodes(cs, vs, tp, size, tl, 8);
        assert forall|j: int| 0 <= j < 8 implies {
            let n = #[trigger] ns[j];
            &&& (n.empty ==> forall|p: Pos|
                #[trigger] in_cube(p, child_tl(tl, half, j), half as int) ==> color_at(cs, vs, p) == C::empty_color())
            &&& (n.voxel is Some ==> {
                &&& !n.empty
                &&& n.voxel->Some_0.color != C::empty_color()
                &&& forall|p: Pos| #[trigger] in_cube(p, child_tl(tl, half, j), half as int) ==> color_at(cs, vs, p)
                    == n.voxel->Some_0.color
            })
        } by {
            lemma_child_corner(tl, size, vs, j);
            lemma_node_of_cube(cs, vs, child_tp(tp, j), half, child_tl(tl, half, j));
        }
        let n = node_of(cs, vs, tp, size, tl);
        if n.empty {
            assert forall|p: Pos| #[trigger] in_cube(p, tl, size as int) implies color_at(cs, vs, p)
                == C::empty_color() by {
                let k = lemma_cube_split(tl, size, vs, p);
                assert(ns[k].empty);
            }
        }
        if n.voxel is Some {
            assert forall|p: Pos| #[trigger] in_cube(p, tl, size as int) implies color_at(cs, vs, p)
                == n.voxel->Some_0.color by {
                let k = lemma_cube_split(tl, size, vs, p);
                assert(ns[k].voxel is Some);
            }
            assert(ns[0].voxel is Some);
        }
    }
}

/// The report entry `e` names a cube inside the cube at `tl` of edge
/// length `size`, all of whose voxels have `e`'s colour, which is not the
/// empty colour.
pub open spec fn entry_ok<C: VoxelColor>(e: (usize, Pos, Voxel<C>), cs: Seq<C>, vs: int, tl: Pos, size: int) -> bool {
    &&& e.0 >= 1
    &&& tl.x <= e.1.x && e.1.x + e.0 <= tl.x + size
    &&& tl.y <= e.1.y && e.1.y + e.0 <= tl.y + size
    &&& tl.z <= e.1.z && e.1.z + e.0 <= tl.z + size
    &&& e.2.color != C::empty_color()
    &&& forall|p: Pos| #[trigger] in_cube(p, e.1, e.0 as int) ==> color_at(cs, vs, p) == e.2.color
}

/// Every entry of `ds` is a uniform non-empty cube inside the cube at `tl`.
pub open spec fn entries_ok<C: VoxelColor>(ds: Seq<(usize, Pos, Voxel<C>)>, cs: Seq<C>, vs: int, tl: Pos, size: int) -> bool {
    forall|j: int| 0 <= j < ds.len() ==> entry_ok(#[trigger] ds[j], cs, vs, tl, size)
}

/// `p` lies in the cube of some entry of `ds`.
pub open spec fn covered<C: VoxelColor>(ds: Seq<(usize, Pos, Voxel<C>)>, p: Pos) -> bool {
    exists|j: int| 0 <= j < ds.len() && #[trigger] in_cube(p, ds[j].1, ds[j].0 as int)
}

/// No position lies in the cubes of two different entries of `ds`.
pub open spec fn no_overlap<C: VoxelColor>(ds: Seq<(usize, Pos, Voxel<C>)>) -> bool {
    forall|j1: int, j2: int, p: Pos|
        0 <= j1 < ds.len() && 0 <= j2 < ds.len() && j1 != j2 && #[trigger] in_cube(p, ds[j1].1, ds[j1].0 as int)
            ==> !#[trigger] in_cube(p, ds[j2].1, ds[j2].0 as int)
}

/// Every position in an entry's cube lies in one of the first `k` children
/// of the cube at `tl`.
pub open spec fn within_children<C: VoxelColor>(ds: Seq<(usize, Pos, Voxel<C>)>, tl: Pos, half: int, k: int) -> bool {
    forall|j: int, p: Pos|
        0 <= j < ds.len() && #[trigger] in_cube(p, ds[j].1, ds[j].0 as int) ==> child_index(p, tl, half) < k
}

pub proof fn lemma_index_in_volume(vs: int, p: Pos)
    requires
        p.x < vs,
        p.y < vs,
        p.z < vs,
    ensures
        0 <= vox_index(vs, p.x as int, p.y as int, p.z as int) < vs * vs * vs,
{
    lemma_cube_digits(vs, p.x as int, p.y as int, p.z as int);
}

/// Drawing a consistent subtree reports uniform non-empty cubes inside its
/// cube, no two of which overlap, and covering every non-empty voxel.
pub proof fn lemma_draw_covers<C: VoxelColor>(
    nodes: Seq<OctNode<C>>,
    data: Seq<Voxel<C>>,
    vs: int,
    tp: TreePos,
    size: nat,
    tl: Pos,
)
    requires
        consistent(nodes, colors_of(data), vs, tp, size, tl),
        data.len() == vs * vs * vs,
        pow2(size),
        fits(tl, size, vs),
    ensures
        entries_ok(draw_seq(nodes, data, vs, tp, size, tl), colors_of(data), vs, tl, size as int),
        no_overlap(draw_seq(nodes, data, vs, tp, size, tl)),
        forall|p: Pos|
            #[trigger] in_cube(p, tl, size as int) && color_at(colors_of(data), vs, p) != C::empty_color() ==> covered(
                draw_seq(nodes, data, vs, tp, size, tl),
                p,
            ),
    decreases size, 9nat,
{
    let cs = colors_of(data);
    let ds = draw_seq(nodes, data, vs, tp, size, tl);
    if size <= 1 {
        lemma_index_in_volume(vs, tl);
        assert forall|p: Pos| #[trigger] in_cube(p, tl, size as int) implies color_at(cs, vs, p) == color_at(
            cs,
            vs,
            tl,
        ) by {}
        if ds.len() > 0 {
            assert forall|p: Pos| #[trigger] in_cube(p, tl, size as int) && color_at(cs, vs, p) != C::empty_color()
                implies covered(ds, p) by {
                assert(in_cube(p, ds[0].1, ds[0].0 as int));
            }
        }
    } else {
        let n = nodes[tp.index()];
        lemma_node_of_cube(cs, vs, tp, size, tl);
        if n.empty {
        } else if n.voxel is Some {
            assert forall|p: Pos| #[trigger] in_cube(p, tl, size as int) && color_at(cs, vs, p) != C::empty_color()
                implies covered(ds, p) by {
                assert(in_cube(p, ds[0].1, ds[0].0 as int));
            }
        } else {
            lemma_draw_prefix_covers(nodes, data, vs, tp, size, tl, 8);
            assert forall|p: Pos| #[trigger] in_cube(p, tl, size as int) && color_at(cs, vs, p) != C::empty_color()
                implies covered(ds, p) by {
                lemma_cube_split(tl, size, vs, p);
            }
        }
    }
}

proof fn lemma_draw_prefix_covers<C: VoxelColor>(
    nodes: Seq<OctNode<C>>,
    data: Seq<Voxel<C>>,
    vs: int,
    tp: TreePos,
    size: nat,
    tl: Pos,
    k: nat,
)
    requires
        consistent_children(nodes, colors_of(data), vs, tp, size, tl, k),
        data.len() == vs * vs * vs,
        size >= 2,
        k <= 8,
        pow2(size),
        fits(tl, size, vs),
    ensures
        entries_ok(draw_prefix(nodes, data, vs, tp, size, tl, k), colors_of(data), vs, tl, size as int),
        no_overlap(draw_prefix(nodes, data, vs, tp, size, tl, k)),
        within_children(draw_prefix(nodes, data, vs, tp, size, tl, k), tl, (size / 2) as int, k as int),
        forall|p: Pos|
            #[trigger] in_cube(p, tl, size as int) && child_index(p, tl, (size / 2) as int) < k && color_at(
                colors_of(data),
                vs,
                p,
            ) != C::empty_color() ==> covered(draw_prefix(nodes, data, vs, tp, size, tl, k), p),
    decreases size, k,
{
    let cs = colors_of(data);
    let half = size / 2;
    if k > 0 {
        let j = k - 1;
        let ctl = child_tl(tl, half, j);
        let a = draw_prefix(nodes, data, vs, tp, size, tl, (k - 1) as nat);
        let b = draw_seq(nodes, data, vs, child_tp(tp, j), half, ctl);
        assert(draw_prefix(nodes, data, vs, tp, size, tl, k) == a + b);
        lemma_draw_prefix_covers(nodes, data, vs, tp, size, tl, (k - 1) as nat);
        lemma_child_corner(tl, size, vs, j);
        lemma_draw_covers(nodes, data, vs, child_tp(tp, j), half, ctl);
        lemma_concat_reports(a, b, cs, vs, tl, size as int, ctl, half as int, j);
    }
}

/// Joining the report of the first `j` children with that of child `j`.
proof fn lemma_concat_reports<C: VoxelColor>(
    a: Seq<(usize, Pos, Voxel<C>)>,
    b: Seq<(usize, Pos, Voxel<C>)>,
    cs: Seq<C>,
    vs: int,
    tl: Pos,
    size: int,
    ctl: Pos,
    half: int,
    j: int,
)
    requires
        tl.x <= ctl.x && ctl.x + half <= tl.x + size,
        tl.y <= ctl.y && ctl.y + half <= tl.y + size,
        tl.z <= ctl.z && ctl.z + half <= tl.z + size,
        forall|p: Pos| #[trigger] in_cube(p, ctl, half) <==> (in_cube(p, tl, size) && child_index(p, tl, half) == j),
        entries_ok(a, cs, vs, tl, size),
        no_overlap(a),
        within_children(a, tl, half, j),
        forall|p: Pos|
            #[trigger] in_cube(p, tl, size) && child_index(p, tl, half) < j && color_at(cs, vs, p) != C::empty_color()
                ==> covered(a, p),
        entries_ok(b, cs, vs, ctl, half),
        no_overlap(b),
        forall|p: Pos| #[trigger] in_cube(p, ctl, half) && color_at(cs, vs, p) != C::empty_color() ==> covered(b, p),
    ensures
        entries_ok(a + b, cs, vs, tl, size),
        no_overlap(a + b),
        within_children(a + b, tl, half, j + 1),
        forall|p: Pos|
            #[trigger] in_cube(p, tl, size) && child_index(p, tl, half) < j + 1 && color_at(cs, vs, p)
                != C::empty_color() ==> covered(a + b, p),
{
    let ds = a + b;
    assert forall|i: int| 0 <= i < ds.len() implies entry_ok(#[trigger] ds[i], cs, vs, tl, size) by {
        if i >= a.len() {
            assert(ds[i] == b[i - a.len()]);
            assert(entry_ok(b[i - a.len()], cs, vs, ctl, half));
        } else {
            assert(ds[i] == a[i]);
            assert(entry_ok(a[i], cs, vs, tl, size));
        }
    }
    lemma_concat_within(a, b, cs, vs, tl, size, ctl, half, j);
    lemma_concat_no_overlap(a, b, cs, vs, tl, size, ctl, half, j);
    assert forall|p: Pos|
        #[trigger] in_cube(p, tl, size) && child_index(p, tl, half) < j + 1 && color_at(cs, vs, p)
            != C::empty_color() implies covered(ds, p) by {
        if child_index(p, tl, half) < j {
            assert(covered(a, p));
            let w = choose|w: int| 0 <= w < a.len() && #[trigger] in_cube(p, a[w].1, a[w].0 as int);
            assert(ds[w] == a[w]);
            assert(in_cube(p, ds[w].1, ds[w].0 as int));
        } else {
            assert(in_cube(p, ctl, half));
            assert(covered(b, p));
            let w = choose|w: int| 0 <= w < b.len() && #[trigger] in_cube(p, b[w].1, b[w].0 as int);
            assert(ds[a.len() + w] == b[w]);
            assert(in_cube(p, ds[a.len() + w].1, ds[a.len() + w].0 as int));
        }
    }
}

proof fn lemma_concat_within<C: VoxelColor>(
    a: Seq<(usize, Pos, Voxel<C>)>,
    b: Seq<(usize, Pos, Voxel<C>)>,
    cs: Seq<C>,
    vs: int,
    tl: Pos,
    size: int,
    ctl: Pos,
    half: int,
    j: int,
)
    requires
        forall|p: Pos| #[trigger] in_cube(p, ctl, half) <==> (in_cube(p, tl, size) && child_index(p, tl, half) == j),
        within_children(a, tl, half, j),
        entries_ok(b, cs, vs, ctl, half),
    ensures
        within_children(a + b, tl, half, j + 1),
{
    let ds = a + b;
    assert forall|i: int, p: Pos| 0 <= i < ds.len() && #[trigger] in_cube(p, ds[i].1, ds[i].0 as int) implies child_index(
        p,
        tl,
        half,
    ) < j + 1 by {
        if i >= a.len() {
            assert(ds[i] == b[i - a.len()]);
            assert(entry_ok(b[i - a.len()], cs, vs, ctl, half));
            assert(in_cube(p, ctl, half));
        } else {
            assert(ds[i] == a[i]);
            assert(in_cube(p, a[i].1, a[i].0 as int));
        }
    }
}

proof fn lemma_concat_no_overlap<C: VoxelColor>(
    a: Seq<(usize, Pos, Voxel<C>)>,
    b: Seq<(usize, Pos, Voxel<C>)>,
    cs: Seq<C>,
    vs: int,
    tl: Pos,
    size: int,
    ctl: Pos,
    half: int,
    j: int,
)
    requires
        forall|p: Pos| #[trigger] in_cube(p, ctl, half) <==> (in_cube(p, tl, size) && child_index(p, tl, half) == j),
        no_overlap(a),
        within_children(a, tl, half, j),
        entries_ok(b, cs, vs, ctl, half),
        no_overlap(b),
    ensures
        no_overlap(a + b),
{
    let ds = a + b;
    assert forall|i1: int, i2: int, p: Pos|
        0 <= i1 < ds.len() && 0 <= i2 < ds.len() && i1 != i2 && #[trigger] in_cube(p, ds[i1].1, ds[i1].0 as int)
        implies !#[trigger] in_cube(p, ds[i2].1, ds[i2].0 as int) by {
        if i1 < a.len() {
            assert(ds[i1] == a[i1]);
            assert(in_cube(p, a[i1].1, a[i1].0 as int));
            if i2 < a.len() {
                assert(ds[i2] == a[i2]);
            } else {
                assert(ds[i2] == b[i2 - a.len()]);
                if in_cube(p, ds[i2].1, ds[i2].0 as int) {
                    assert(entry_ok(b[i2 - a.len()], cs, vs, ctl, half));
                    assert(in_cube(p, ctl, half));
                }
            }
        } else {
            assert(ds[i1] == b[i1 - a.len()]);
            assert(in_cube(p, b[i1 - a.len()].1, b[i1 - a.len()].0 as int));
            if i2 >= a.len() {
                assert(ds[i2] == b[i2 - a.len()]);
            } else {
                assert(ds[i2] == a[i2]);
                assert(entry_ok(b[i1 - a.len()], cs, vs, ctl, half));
                assert(in_cube(p, ctl, half));
                if in_cube(p, ds[i2].1, ds[i2].0 as int) {
                    assert(in_cube(p, a[i2].1, a[i2].0 as int));
                }
            }
        }
    }
}

proof fn lemma_pow2_facts(n: nat)
    requires
        pow2(n),
    ensures
        n >= 1,
        n == exp(2, depth(n)),
        n >= 2 ==> n % 2 == 0 && pow2(n / 2) && depth(n) == 1 + depth(n / 2),
    decreases n,
{
    if n >= 2 {
        lemma_pow2_facts(n / 2);
    }
}

/// A power of two of at most 256 is at most eight halvings from 1.
proof fn lemma_pow2_depth(n: nat)
    requires
        pow2(n),
        n <= 256,
    ensures
        depth(n) <= 8,
{
    lemma_pow2_facts(n);
    lemma_small_powers();
    if depth(n) > 8 {
        lemma_exp_mono(2, 9, depth(n));
        assert(exp(2, 9) == 512) by {
            assert(exp(2, 9) == 2 * exp(2, 8));
        }
    }
}

/// Summarising a canonical subtree of a well-formed tree stays within the
/// volume and the node array.
proof fn lemma_compute_ok(len: int, vs: int, nodes_len: int, tp: TreePos, size: nat, tl: Pos)
    requires
        canonical(tp),
        pow2(size),
        pow2(vs as nat),
        fits(tl, size, vs),
        len == vs * vs * vs,
        tp.level + depth(size) == depth(vs as nat),
        depth(vs as nat) <= 8,
        nodes_len == node_count(vs as nat),
    ensures
        compute_ok(len, vs, nodes_len, tp, size, tl),
    decreases size, 9nat,
{
    lemma_pow2_facts(size);
    if size == 1 {
        let last = (#[verifier::truncate] ((vs - 1) as u16));
        assert(last == vs - 1);
        lemma_index_in_volume(vs, tl);
        lemma_index_parts(vs, tl.y as int, tl.z as int);
        if tl.x < last {
            lemma_index_in_volume(vs, Pos { x: (tl.x + 1) as u16, y: tl.y, z: tl.z });
        }
        if tl.y < last {
            lemma_index_in_volume(vs, Pos { x: tl.x, y: (tl.y + 1) as u16, z: tl.z });
        }
        if tl.z < last {
            lemma_index_in_volume(vs, Pos { x: tl.x, y: tl.y, z: (tl.z + 1) as u16 });
        }
    } else {
        lemma_canonical_index(tp);
        lemma_small_powers();
        lemma_exp_mono(2, tp.level as nat, 8);
        lemma_level_offset_mono(tp.level as nat + 1, 9);
        lemma_level_offset_mono(tp.level as nat + 1, depth(vs as nat));
        lemma_compute_children_ok(len, vs, nodes_len, tp, size, tl, 8);
    }
}

proof fn lemma_compute_children_ok(len: int, vs: int, nodes_len: int, tp: TreePos, size: nat, tl: Pos, k: nat)
    requires
        canonical(tp),
        pow2(size),
        size >= 2,
        k <= 8,
        pow2(vs as nat),
        fits(tl, size, vs),
        len == vs * vs * vs,
        tp.level + depth(size) == depth(vs as nat),
        depth(vs as nat) <= 8,
        nodes_len == node_count(vs as nat),
    ensures
        children_ok(len, vs, nodes_len, tp, size, tl, k),
    decreases size, k,
{
    if k > 0 {
        lemma_compute_children_ok(len, vs, nodes_len, tp, size, tl, (k - 1) as nat);
        lemma_pow2_facts(size);
        lemma_canonical_child(tp, k - 1);
        lemma_child_corner(tl, size, vs, k - 1);
        lemma_compute_ok(len, vs, nodes_len, child_tp(tp, k - 1), size / 2, child_tl(tl, size / 2, k - 1));
    }
}

/// Whatever the node array holds, a subtree that can be summarised can be
/// drawn.
proof fn lemma_draw_ok<C: VoxelColor>(nodes: Seq<OctNode<C>>, len: int, vs: int, tp: TreePos, size: nat, tl: Pos)
    requires
        compute_ok(len, vs, nodes.len() as int, tp, size, tl),
    ensures
        draw_ok(nodes, len, vs, tp, size, tl),
    decreases size, 9nat,
{
    if size > 1 {
        lemma_draw_children_ok(nodes, len, vs, tp, size, tl, 8);
    }
}

proof fn lemma_draw_children_ok<C: VoxelColor>(
    nodes: Seq<OctNode<C>>,
    len: int,
    vs: int,
    tp: TreePos,
    size: nat,
    tl: Pos,
    k: nat,
)
    requires
        size > 1,
        children_ok(len, vs, nodes.len() as int, tp, size, tl, k),
    ensures
        draw_children_ok(nodes, len, vs, tp, size, tl, k),
    decreases size, k,
{
    if k > 0 {
        lemma_draw_children_ok(nodes, len, vs, tp, size, tl, (k - 1) as nat);
        lemma_draw_ok(nodes, len, vs, child_tp(tp, k - 1), size / 2, child_tl(tl, size / 2, k - 1));
    }
}

/// The slots of the whole tree lie within the node array.
proof fn lemma_sub_in_nodes(vs: nat, i: int)
    requires
        pow2(vs),
        depth(vs) <= 8,
        in_sub(TreePos::root(), vs, i),
    ensures
        0 <= i < node_count(vs),
{
    let root = TreePos::root();
    assert(level_offset(0) == 0);
    assert(exp(2, 0) == 1);
    assert(canonical(root));
    let w = lemma_sub_witness(root, vs, i);
    lemma_node_index_range(w.0, w.1, w.2, w.3);
    lemma_level_offset_mono(w.0 + 1, depth(vs));
}

impl<C: VoxelColor> Octree<C> {
    /// The tree fits its volume: the volume holds edge³ voxels, the edge
    /// is a power of two of at most 256, and the node array has the length
    /// that `new` allocates.
    pub open spec fn tree_wf(&self) -> bool {
        &&& self.vol.wf()
        &&& pow2(self.vol.size as nat)
        &&& self.vol.size <= 256
        &&& self.nodes@.len() == node_count(self.vol.size as nat)
    }

    /// What `draw` reports of this tree are cubes inside the volume, each
    /// with one non-empty colour throughout, no two overlapping, that
    /// together cover every non-empty voxel.
    pub open spec fn draw_covers_volume(&self) -> bool {
        let vs = self.vol.size as int;
        let origin = Pos { x: 0, y: 0, z: 0 };
        let ds = draw_seq(self.nodes@, self.vol.data@, vs, TreePos::root(), vs as nat, origin);
        &&& entries_ok(ds, self.vol.colors(), vs, origin, vs)
        &&& no_overlap(ds)
        &&& forall|p: Pos|
            #[trigger] in_cube(p, origin, vs) && color_at(self.vol.colors(), vs, p) != C::empty_color()
                ==> covered(ds, p)
    }
}

/// A well-formed tree can be summarised without leaving its volume or its
/// node array.
pub proof fn lemma_tree_wf_recompute_ok<C: VoxelColor>(t: Octree<C>)
    requires
        t.tree_wf(),
    ensures
        t.recompute_ok(),
{
    let vs = t.vol.size as nat;
    lemma_pow2_depth(vs);
    assert(level_offset(0) == 0);
    assert(exp(2, 0) == 1);
    assert(depth(vs) == 0 + depth(vs));
    lemma_compute_ok(
        t.vol.data@.len() as int,
        vs as int,
        t.nodes@.len() as int,
        TreePos::root(),
        vs,
        Pos { x: 0, y: 0, z: 0 },
    );
}

/// Summarising a well-formed tree keeps it well-formed and makes its node
/// array describe its volume: drawing it afterwards stays within the
/// volume and the node array, and reports cubes that cover every
/// non-empty voxel exactly once, each in the one colour of all its voxels.
pub proof fn lemma_recompute_covers<C: VoxelColor>(before: Octree<C>, after: Octree<C>)
    requires
        before.tree_wf(),
        after.vol.size == before.vol.size,
        after.vol.data@ == overlay_faces(
            before.vol.data@,
            faces_of(
                before.vol.colors(),
                before.vol.size as int,
                TreePos::root(),
                before.vol.size as nat,
                Pos { x: 0, y: 0, z: 0 },
            ),
        ),
        after.nodes@ == overlay(
            before.nodes@,
            writes_of(
                before.vol.colors(),
                before.vol.size as int,
                TreePos::root(),
                before.vol.size as nat,
                Pos { x: 0, y: 0, z: 0 },
            ),
        ),
    ensures
        after.vol.colors() == before.vol.colors(),
        after.tree_wf(),
        after.draw_all_ok(),
        after.draw_covers_volume(),
{
    let vs = before.vol.size as nat;
    let cs = before.vol.colors();
    let root = TreePos::root();
    let origin = Pos { x: 0, y: 0, z: 0 };
    lemma_overlay_faces_colors(before.vol.data@, faces_of(cs, vs as int, root, vs, origin));
    lemma_pow2_depth(vs);
    assert(level_offset(0) == 0);
    assert(exp(2, 0) == 1);
    assert(canonical(root));
    assert forall|i: int| #[trigger] in_sub(root, vs, i) implies 0 <= i < before.nodes@.len() by {
        lemma_sub_in_nodes(vs, i);
    }
    lemma_writes_consistent(before.nodes@, cs, vs as int, root, vs, origin);
    lemma_tree_wf_recompute_ok(after);
    lemma_draw_ok(after.nodes@, after.vol.data@.len() as int, vs as int, root, vs, origin);
    lemma_draw_covers(after.nodes@, after.vol.data@, vs as int, root, vs, origin);
}

/// `p` is a position inside the volume `v`.
pub open spec fn inside<C: VoxelColor>(v: Vol<C>, p: Pos) -> bool {
    p.x < v.size && p.y < v.size && p.z < v.size
}

/// Storing a voxel at a position and reading it back gives the stored
/// voxel, and every other position of the volume keeps its voxel.
pub proof fn law_set_then_read<C: VoxelColor>(before: Vol<C>, after: Vol<C>, p: Pos, q: Pos, v: Voxel<C>)
    requires
        before.wf(),
        inside(before, p),
        inside(before, q),
        after.size == before.size,
        after.data@ == before.data@.update(before.index_of(p), v),
    ensures
        after.data@[after.index_of(p)] == v,
        q != p ==> after.data@[after.index_of(q)] == before.data@[before.index_of(q)],
{
    let s = before.size as int;
    lemma_index_in_volume(s, p);
    lemma_index_in_volume(s, q);
    if q != p && before.index_of(q) == before.index_of(p) {
        lemma_digits_unique(s, p.x as int, p.y as int, p.z as int, q.x as int, q.y as int, q.z as int);
    }
}

/// Summarising a tree a second time changes neither its volume nor its
/// node array.
pub proof fn law_recompute_idempotent<C: VoxelColor>(first: Octree<C>, second: Octree<C>, third: Octree<C>)
    requires
        second.vol.size == first.vol.size,
        second.vol.data@ == overlay_faces(
            first.vol.data@,
            faces_of(
                first.vol.colors(),
                first.vol.size as int,
                TreePos::root(),
                first.vol.size as nat,
                Pos { x: 0, y: 0, z: 0 },
            ),
        ),
        second.nodes@ == overlay(
            first.nodes@,
            writes_of(
                first.vol.colors(),
                first.vol.size as int,
                TreePos::root(),
                first.vol.size as nat,
                Pos { x: 0, y: 0, z: 0 },
            ),
        ),
        third.vol.size == second.vol.size,
        third.vol.data@ == overlay_faces(
            second.vol.data@,
            faces_of(
                second.vol.colors(),
                second.vol.size as int,
                TreePos::root(),
                second.vol.size as nat,
                Pos { x: 0, y: 0, z: 0 },
            ),
        ),
        third.nodes@ == overlay(
            second.nodes@,
            writes_of(
                second.vol.colors(),
                second.vol.size as int,
                TreePos::root(),
                second.vol.size as nat,
                Pos { x: 0, y: 0, z: 0 },
            ),
        ),
    ensures
        third.vol.data@ == second.vol.data@,
        third.nodes@ == second.nodes@,
{
    let vs = first.vol.size as nat;
    let root = TreePos::root();
    let origin = Pos { x: 0, y: 0, z: 0 };
    let f = faces_of(first.vol.colors(), vs as int, root, vs, origin);
    lemma_overlay_faces_colors(first.vol.data@, f);
    assert(overlay_faces(second.vol.data@, f) =~= second.vol.data@);
    let w = writes_of(first.vol.colors(), vs as int, root, vs, origin);
    assert(overlay(second.nodes@, w) =~= second.nodes@);
}

} // verus!
