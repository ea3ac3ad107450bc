//! An octree over a voxel volume: every inner node records whether its
//! cube is empty, uniformly coloured or mixed.
use vstd::prelude::*;
use crate::octree_laws::{pow2, lemma_recompute_covers};
use crate::voxeltree::{
    exp, lemma_exp_pos, lemma_exp_mono, in_box, VoxelColor, Voxel, Vol, Pos, TreePos, vox_index, colors_of, face_mask, get_ok_at,
};

verus! {

/// A node of the octree.
#[derive(Clone, Copy, Debug, PartialEq)]
pub struct OctNode<C: VoxelColor> {
    pub voxel: Option<Voxel<C>>,
    pub pos: Pos,
    pub empty: bool,
    pub tree_pos: TreePos,
}

impl<C: VoxelColor> OctNode<C> {
    /// The node that `default` returns.
    pub open spec fn blank() -> OctNode<C> {
        OctNode {
            voxel: None,
            pos: Pos { x: 0, y: 0, z: 0 },
            empty: false,
            tree_pos: TreePos::root(),
        }
    }

    /// An empty node at the origin.
    pub fn new() -> (n: Self)
        ensures
            n == (OctNode::<C> {
                voxel: None,
                pos: Pos { x: 0, y: 0, z: 0 },
                empty: true,
                tree_pos: TreePos::root(),
            }),
    {
        OctNode { voxel: None, pos: Pos::default(), empty: true, tree_pos: TreePos::default() }
    }
}

impl<C: VoxelColor> Default for OctNode<C> {
    fn default() -> (n: Self)
        ensures
            n == OctNode::<C>::blank(),
    {
        OctNode { voxel: None, pos: Pos::default(), empty: false, tree_pos: TreePos::default() }
    }
}

/// The x offset (0 or 1) of child number `k` (0..8) within its parent.
pub open spec fn kx(k: int) -> u8 {
    (k % 2) as u8
}

/// The y offset of child number `k`.
pub open spec fn ky(k: int) -> u8 {
    ((k / 2) % 2) as u8
}

/// The z offset of child number `k`.
pub open spec fn kz(k: int) -> u8 {
    (k / 4) as u8
}

/// The tree position of child number `k` of `tp`.
pub open spec fn child_tp(tp: TreePos, k: int) -> TreePos {
    tp.child(kx(k), ky(k), kz(k))
}

/// The offset `o * half` as the `u16` that the traversal adds.
pub open spec fn half_offs(o: u8, half: nat) -> u16 {
    (#[verifier::truncate] ((o * half) as u16))
}

/// The top-left corner of child number `k` of a node at `tl` whose
/// children have edge length `half`.
pub open spec fn child_tl(tl: Pos, half: nat, k: int) -> Pos {
    Pos {
        x: (tl.x + half_offs(kx(k), half)) as u16,
        y: (tl.y + half_offs(ky(k), half)) as u16,
        z: (tl.z + half_offs(kz(k), half)) as u16,
    }
}

/// The traversal step to child number `k` computes without overflow.
pub open spec fn step_ok(tp: TreePos, tl: Pos, half: nat, k: int) -> bool {
    &&& tp.lvl_offs_ok(kx(k), ky(k), kz(k))
    &&& tl.x + half_offs(kx(k), half) <= u16::MAX
    &&& tl.y + half_offs(ky(k), half) <= u16::MAX
    &&& tl.z + half_offs(kz(k), half) <= u16::MAX
}

/// The node that a unit cube at `tl` summarises to, given the colours `cs`
/// of a volume of edge length `vs`.
pub open spec fn leaf_node<C: VoxelColor>(cs: Seq<C>, vs: int, tl: Pos) -> OctNode<C> {
    let c = cs[vox_index(vs, tl.x as int, tl.y as int, tl.z as int)];
    if c == C::empty_color() {
        OctNode { voxel: None, pos: tl, empty: true, tree_pos: TreePos::root() }
    } else {
        OctNode {
            voxel: Some(Voxel { color: c, faces: face_mask(cs, vs, tl) }),
            pos: tl,
            empty: false,
            tree_pos: TreePos::root(),
        }
    }
}

/// Every node in `ns` is empty.
pub open spec fn all_empty<C: VoxelColor>(ns: Seq<OctNode<C>>) -> bool {
    forall|j: int| 0 <= j < ns.len() ==> (#[trigger] ns[j]).empty
}

/// Every node in `ns` carries a voxel, and all of them the colour of the
/// first.
pub open spec fn uniform<C: VoxelColor>(ns: Seq<OctNode<C>>) -> bool {
    forall|j: int|
        0 <= j < ns.len() ==> (#[trigger] ns[j]).voxel is Some && ns[j].voxel->Some_0.color
            == ns[0].voxel->Some_0.color
}

/// The union of the face masks of the first `k` nodes of `ns`.
pub open spec fn faces_fold<C: VoxelColor>(ns: Seq<OctNode<C>>, k: nat) -> u8
    decreases k,
{
    if k == 0 {
        0u8
    } else {
        faces_fold(ns, (k - 1) as nat) | ns[k - 1].voxel->Some_0.faces
    }
}

/// The node that summarises the children `ns` of the node at `tp`/`tl`.
pub open spec fn combine<C: VoxelColor>(ns: Seq<OctNode<C>>, tp: TreePos, tl: Pos) -> OctNode<C> {
    if !all_empty(ns) && uniform(ns) {
        OctNode {
            voxel: Some(
                Voxel { color: ns[0].voxel->Some_0.color, faces: faces_fold(ns, ns.len()) },
            ),
            pos: tl,
            empty: false,
            tree_pos: tp,
        }
    } else if !all_empty(ns) {
        OctNode { voxel: None, pos: tl, empty: false, tree_pos: tp }
    } else {
        OctNode { voxel: None, pos: tl, empty: true, tree_pos: tp }
    }
}

/// The node that the cube of edge length `size` at `tl`, at tree position
/// `tp`, summarises to.
pub open spec fn node_of<C: VoxelColor>(
    cs: Seq<C>,
    vs: int,
    tp: TreePos,
    size: nat,
    tl: Pos,
) -> OctNode<C>
    decreases size, 9nat,
{
    if size <= 1 {
        leaf_node(cs, vs, tl)
    } else {
        combine(children_nodes(cs, vs, tp, size, tl, 8), tp, tl)
    }
}

/// The summaries of the first `k` children of a node.
pub open spec fn children_nodes<C: VoxelColor>(
    cs: Seq<C>,
    vs: int,
    tp: TreePos,
    size: nat,
    tl: Pos,
    k: nat,
) -> Seq<OctNode<C>>
    decreases size, k,
{
    if size <= 1 || k == 0 {
        Seq::empty()
    } else {
        children_nodes(cs, vs, tp, size, tl, (k - 1) as nat).push(
            node_of(cs, vs, child_tp(tp, k - 1), size / 2, child_tl(tl, size / 2, k - 1)),
        )
    }
}

/// The node array slots written while summarising a cube, with the node
/// each ends up holding.
pub open spec fn writes_of<C: VoxelColor>(
    cs: Seq<C>,
    vs: int,
    tp: TreePos,
    size: nat,
    tl: Pos,
) -> Map<int, OctNode<C>>
    decreases size, 9nat,
{
    if size <= 1 {
        Map::empty()
    } else {
        writes_prefix(cs, vs, tp, size, tl, 8).insert(tp.index(), node_of(cs, vs, tp, size, tl))
    }
}

/// The slots written while summarising the first `k` children of a node.
pub open spec fn writes_prefix<C: VoxelColor>(
    cs: Seq<C>,
    vs: int,
    tp: TreePos,
    size: nat,
    tl: Pos,
    k: nat,
) -> Map<int, OctNode<C>>
    decreases size, k,
{
    if size <= 1 || k == 0 {
        Map::empty()
    } else {
        writes_prefix(cs, vs, tp, size, tl, (k - 1) as nat).union_prefer_right(
            writes_of(cs, vs, child_tp(tp, k - 1), size / 2, child_tl(tl, size / 2, k - 1)),
        )
    }
}

/// The voxels whose face masks are recomputed while summarising a cube,
/// with the mask each ends up holding.
pub open spec fn faces_of<C: VoxelColor>(
    cs: Seq<C>,
    vs: int,
    tp: TreePos,
    size: nat,
    tl: Pos,
) -> Map<int, u8>
    decreases size, 9nat,
{
    if size <= 1 {
        map![vox_index(vs, tl.x as int, tl.y as int, tl.z as int) => face_mask(cs, vs, tl)]
    } else {
        faces_prefix(cs, vs, tp, size, tl, 8)
    }
}

/// The face masks recomputed while summarising the first `k` children.
pub open spec fn faces_prefix<C: VoxelColor>(
    cs: Seq<C>,
    vs: int,
    tp: TreePos,
    size: nat,
    tl: Pos,
    k: nat,
) -> Map<int, u8>
    decreases size, k,
{
    if size <= 1 || k == 0 {
        Map::empty()
    } else {
        faces_prefix(cs, vs, tp, size, tl, (k - 1) as nat).union_prefer_right(
            faces_of(cs, vs, child_tp(tp, k - 1), size / 2, child_tl(tl, size / 2, k - 1)),
        )
    }
}

/// Summarising the cube of edge length `size` at `tl` reads only stored
/// voxels and node slots, and its index arithmetic does not overflow.
pub open spec fn compute_ok(len: int, vs: int, nodes_len: int, tp: TreePos, size: nat, tl: Pos) -> bool
    decreases size, 9nat,
{
    &&& size >= 1
    &&& if size == 1 {
        get_ok_at(vs, len, tl)
    } else {
        &&& tp.idx_ok()
        &&& tp.index() < nodes_len
        &&& children_ok(len, vs, nodes_len, tp, size, tl, 8)
    }
}

/// The first `k` children of a node can be summarised.
pub open spec fn children_ok(
    len: int,
    vs: int,
    nodes_len: int,
    tp: TreePos,
    size: nat,
    tl: Pos,
    k: nat,
) -> bool
    decreases size, k,
{
    if size <= 1 || k == 0 {
        true
    } else {
        &&& children_ok(len, vs, nodes_len, tp, size, tl, (k - 1) as nat)
        &&& step_ok(tp, tl, size / 2, k - 1)
        &&& compute_ok(len, vs, nodes_len, child_tp(tp, k - 1), size / 2, child_tl(tl, size / 2, k - 1))
    }
}

/// `m` laid over `base`: the entries of `m` replace those of `base`.
pub open spec fn overlay<T>(base: Seq<T>, m: Map<int, T>) -> Seq<T> {
    Seq::new(base.len(), |i: int| if m.contains_key(i) { m[i] } else { base[i] })
}

/// The voxels `data` with the face masks of `m` laid over them.
pub open spec fn overlay_faces<C: VoxelColor>(data: Seq<Voxel<C>>, m: Map<int, u8>) -> Seq<Voxel<C>> {
    Seq::new(
        data.len(),
        |i: int|
            if m.contains_key(i) {
                Voxel { color: data[i].color, faces: m[i] }
            } else {
                data[i]
            },
    )
}

proof fn lemma_children_ok<C: VoxelColor>(
    len: int,
    vs: int,
    nodes_len: int,
    tp: TreePos,
    size: nat,
    tl: Pos,
    k: nat,
    j: nat,
)
    requires
        size > 1,
        j < k,
        children_ok(len, vs, nodes_len, tp, size, tl, k),
    ensures
        step_ok(tp, tl, size / 2, j as int),
        compute_ok(len, vs, nodes_len, child_tp(tp, j as int), size / 2, child_tl(tl, size / 2, j as int)),
    decreases k,
{
    if j + 1 < k {
        lemma_children_ok::<C>(len, vs, nodes_len, tp, size, tl, (k - 1) as nat, j);
    }
}

/// The number of halvings that take `size` down to 1.
pub open spec fn depth(size: nat) -> nat
    decreases size,
{
    if size <= 1 {
        0
    } else {
        1 + depth(size / 2)
    }
}

/// The index of the first node of tree level `l`.
pub open spec fn level_offset(l: nat) -> nat
    decreases l,
{
    if l == 0 {
        0
    } else {
        level_offset((l - 1) as nat) + exp(8, (l - 1) as nat)
    }
}

/// The number of node slots that `Octree::new` allocates for a volume of
/// edge length `size`: every level above the voxels, plus one.
pub open spec fn node_count(size: nat) -> nat {
    if depth(size) == 0 {
        2
    } else {
        level_offset(depth(size)) + 1
    }
}

/// What drawing the cube of edge length `size` at `tl` reports, in order:
/// edge length, corner and voxel of each uniform cube that is not empty.
pub open spec fn draw_seq<C: VoxelColor>(
    nodes: Seq<OctNode<C>>,
    data: Seq<Voxel<C>>,
    vs: int,
    tp: TreePos,
    size: nat,
    tl: Pos,
) -> Seq<(usize, Pos, Voxel<C>)>
    decreases size, 9nat,
{
    if size <= 1 {
        let v = data[vox_index(vs, tl.x as int, tl.y as int, tl.z as int)];
        if v.color != C::empty_color() {
            seq![(1usize, tl, v)]
        } else {
            Seq::empty()
        }
    } else {
        let n = nodes[tp.index()];
        if n.empty {
            Seq::empty()
        } else if n.voxel is Some {
            seq![(size as usize, tl, n.voxel->Some_0)]
        } else {
            draw_prefix(nodes, data, vs, tp, size, tl, 8)
        }
    }
}

/// What drawing the first `k` children of a node reports.
pub open spec fn draw_prefix<C: VoxelColor>(
    nodes: Seq<OctNode<C>>,
    data: Seq<Voxel<C>>,
    vs: int,
    tp: TreePos,
    size: nat,
    tl: Pos,
    k: nat,
) -> Seq<(usize, Pos, Voxel<C>)>
    decreases size, k,
{
    if size <= 1 || k == 0 {
        Seq::empty()
    } else {
        draw_prefix(nodes, data, vs, tp, size, tl, (k - 1) as nat) + draw_seq(
            nodes,
            data,
            vs,
            child_tp(tp, k - 1),
            size / 2,
            child_tl(tl, size / 2, k - 1),
        )
    }
}

/// Drawing the cube of edge length `size` at `tl` reads only stored
/// voxels and node slots, and its index arithmetic does not overflow.
pub open spec fn draw_ok<C: VoxelColor>(
    nodes: Seq<OctNode<C>>,
    len: int,
    vs: int,
    tp: TreePos,
    size: nat,
    tl: Pos,
) -> bool
    decreases size, 9nat,
{
    &&& size >= 1
    &&& if size == 1 {
        vox_index(vs, tl.x as int, tl.y as int, tl.z as int) < len
    } else {
        &&& tp.idx_ok()
        &&& tp.index() < nodes.len()
        &&& (nodes[tp.index()].empty || nodes[tp.index()].voxel is Some || draw_children_ok(
            nodes,
            len,
            vs,
            tp,
            size,
            tl,
            8,
        ))
    }
}

/// The first `k` children of a node can be drawn.
pub open spec fn draw_children_ok<C: VoxelColor>(
    nodes: Seq<OctNode<C>>,
    len: int,
    vs: int,
    tp: TreePos,
    size: nat,
    tl: Pos,
    k: nat,
) -> bool
    decreases size, k,
{
    if size <= 1 || k == 0 {
        true
    } else {
        &&& draw_children_ok(nodes, len, vs, tp, size, tl, (k - 1) as nat)
        &&& step_ok(tp, tl, size / 2, k - 1)
        &&& draw_ok(nodes, len, vs, child_tp(tp, k - 1), size / 2, child_tl(tl, size / 2, k - 1))
    }
}

proof fn lemma_draw_children_ok<C: VoxelColor>(
    nodes: Seq<OctNode<C>>,
    len: int,
    vs: int,
    tp: TreePos,
    size: nat,
    tl: Pos,
    k: nat,
    j: nat,
)
    requires
        size > 1,
        j < k,
        draw_children_ok(nodes, len, vs, tp, size, tl, k),
    ensures
        step_ok(tp, tl, size / 2, j as int),
        draw_ok(nodes, len, vs, child_tp(tp, j as int), size / 2, child_tl(tl, size / 2, j as int)),
    decreases k,
{
    if j + 1 < k {
        lemma_draw_children_ok(nodes, len, vs, tp, size, tl, (k - 1) as nat, j);
    }
}

proof fn lemma_exp_le(i: nat)
    ensures
        exp(2, i) <= exp(8, i),
    decreases i,
{
    if i > 0 {
        lemma_exp_le((i - 1) as nat);
        lemma_exp_pos(2, (i - 1) as nat);
    }
}

proof fn lemma_exp_le_offset(i: nat)
    requires
        i >= 1,
    ensures
        exp(2, i) <= level_offset(i + 1),
{
    lemma_exp_le(i);
    assert(level_offset(i + 1) == level_offset(i) + exp(8, i));
}

proof fn lemma_exp_double_bound(i: nat)
    requires
        i >= 1,
    ensures
        exp(2, i + 1) <= level_offset(i + 1) + 1,
    decreases i,
{
    assert(level_offset(i + 1) == level_offset(i) + exp(8, i));
    assert(exp(2, i + 1) == 2 * exp(2, i));
    lemma_exp_le(i);
    if i == 1 {
        reveal_with_fuel(exp, 3);
        assert(exp(2, 1) == 2);
        assert(exp(2, 2) == 4);
        assert(exp(8, 1) == 8);
    } else {
        lemma_exp_double_bound((i - 1) as nat);
        lemma_level_offset_mono(i, i);
        assert(exp(2, i) <= level_offset(i) + 1);
        lemma_exp_pos(2, i);
    }
}

pub proof fn lemma_exp_cube(i: nat)
    ensures
        exp(2, i) * exp(2, i) * exp(2, i) == exp(8, i),
    decreases i,
{
    if i > 0 {
        lemma_exp_cube((i - 1) as nat);
        let a = exp(2, (i - 1) as nat);
        assert(exp(2, i) == 2 * a);
        assert(exp(8, i) == 8 * exp(8, (i - 1) as nat));
        let e8 = exp(8, (i - 1) as nat);
        assert(exp(2, i) * exp(2, i) * exp(2, i) == exp(8, i)) by (nonlinear_arith)
            requires
                exp(2, i) == 2 * a,
                exp(8, i) == 8 * e8,
                a * a * a == e8,
        ;
    } else {
        assert(exp(2, 0) == 1);
        assert(exp(8, 0) == 1);
    }
}

pub proof fn lemma_level_offset_mono(a: nat, b: nat)
    requires
        a <= b,
    ensures
        level_offset(a) <= level_offset(b),
    decreases b,
{
    if a < b {
        lemma_level_offset_mono(a, (b - 1) as nat);
    }
}

/// A flattened octree over a voxel volume.
#[derive(Clone, Debug, PartialEq)]
pub struct Octree<C: VoxelColor> {
    pub nodes: Vec<OctNode<C>>,
    pub nodes_size: usize,
    pub vol: Vol<C>,
}

impl<C: VoxelColor> Octree<C> {
    /// Recomputing the whole tree reads only stored voxels and node slots.
    pub open spec fn recompute_ok(&self) -> bool {
        compute_ok(
            self.vol.data@.len() as int,
            self.vol.size as int,
            self.nodes@.len() as int,
            TreePos::root(),
            self.vol.size as nat,
            Pos { x: 0, y: 0, z: 0 },
        )
    }

    /// An octree over a fresh volume of edge length `size`.
    pub fn new_from_size(size: usize) -> (t: Self)
        requires
            size * size * size <= usize::MAX,
            node_count(size as nat) <= usize::MAX,
        ensures
            t.vol.size == size,
            t.vol.wf(),
            forall|i: int| 0 <= i < t.vol.data@.len() ==> #[trigger] t.vol.data@[i] == Voxel::<C>::blank(),
            t.nodes@.len() == node_count(size as nat),
            forall|i: int| 0 <= i < t.nodes@.len() ==> #[trigger] t.nodes@[i] == OctNode::<C>::blank(),
            pow2(size as nat) && size <= 256 ==> t.tree_wf(),
    {
        let v: Vol<C> = Vol::new(size);
        proof {
            crate::voxeltree::lemma_index_parts(size as int, 0, size as int);
        }
        Octree::new(size * size * size, v)
    }

    /// An octree over `vol` with every node slot blank; `node_count` is
    /// not used.
    pub fn new(node_count: usize, vol: Vol<C>) -> (t: Self)
        requires
            crate::octree::node_count(vol.size as nat) <= usize::MAX,
        ensures
            t.vol == vol,
            t.nodes_size == vol.size / 2,
            t.nodes@.len() == crate::octree::node_count(vol.size as nat),
            forall|i: int| 0 <= i < t.nodes@.len() ==> #[trigger] t.nodes@[i] == OctNode::<C>::blank(),
    {
        let vsz = vol.size;
        let mut size = vsz >> 1;
        assert(size == vsz / 2) by (bit_vector)
            requires
                size == vsz >> 1,
        ;
        let mut alloc: usize = 1;
        let mut subtree_size: usize = 2;
        let ghost mut i: nat = 1;
        proof {
            assert(level_offset(1) == 1) by {
                assert(level_offset(0) == 0);
                assert(exp(8, 0) == 1);
            }
            assert(exp(2, 1) == 2) by {
                assert(exp(2, 0) == 1);
            }
        }
        while size > 1
            invariant
                i >= 1,
                alloc == level_offset(i),
                subtree_size == exp(2, i),
                vol.size >= 2 ==> depth(vol.size as nat) == i + depth(size as nat),
                vol.size < 2 ==> size == 0 && i == 1,
                crate::octree::node_count(vol.size as nat) <= usize::MAX,
            decreases size,
        {
            proof {
                assert(depth(size as nat) == 1 + depth((size / 2) as nat));
                lemma_exp_cube(i);
                lemma_level_offset_mono(i + 1, depth(vol.size as nat));
                assert(level_offset(i + 1) == level_offset(i) + exp(8, i));
                lemma_exp_pos(2, i);
                let st = subtree_size as int;
                assert(st * st <= st * st * st) by (nonlinear_arith)
                    requires
                        st >= 1,
                ;
                lemma_exp_pos(2, i);
                assert(exp(2, i + 1) == 2 * exp(2, i));
                lemma_exp_mono(8, i, (i + 1) as nat);
                assert(exp(2, i + 1) <= exp(8, i + 1)) by {
                    lemma_exp_le(i + 1);
                }
                if depth(vol.size as nat) > i + 1 {
                    lemma_exp_le_offset(i + 1);
                    lemma_level_offset_mono(i + 2, depth(vol.size as nat));
                } else {
                    assert(depth(vol.size as nat) == i + 1);
                    lemma_exp_double_bound(i);
                }
            }
            alloc = alloc + subtree_size * subtree_size * subtree_size;
            subtree_size = subtree_size * 2;
            let ghost old_size = size;
            size = size >> 1;
            assert(size == old_size / 2) by (bit_vector)
                requires
                    size == old_size >> 1,
            ;
            proof {
                i = i + 1;
            }
        }
        proof {
            assert(depth(size as nat) == 0);
            if vol.size >= 2 {
                assert(depth(vol.size as nat) == i);
                assert(crate::octree::node_count(vol.size as nat) == level_offset(i) + 1);
            } else {
                assert(depth(vol.size as nat) == 0);
                assert(i == 1);
            }
        }
        alloc = alloc + 1;
        let mut nodes: Vec<OctNode<C>> = Vec::new();
        let blank: OctNode<C> = OctNode::default();
        let mut k: usize = 0;
        while k < alloc
            invariant
                k <= alloc,
                nodes@.len() == k,
                blank == OctNode::<C>::blank(),
                forall|j: int| 0 <= j < k ==> #[trigger] nodes@[j] == OctNode::<C>::blank(),
            decreases alloc - k,
        {
            nodes.push(blank);
            k = k + 1;
        }
        let nodes_size = vsz >> 1;
        assert(nodes_size == vsz / 2) by (bit_vector)
            requires
                nodes_size == vsz >> 1,
        ;
        Octree { nodes, nodes_size, vol }
    }

    /// The voxel at (`x`, `y`, `z`) with `y` counted from the bottom.
    pub fn get_inv_y(&self, x: u16, y: u16, z: u16) -> (v: Voxel<C>)
        requires
            self.vol.size >= 1,
            y <= (#[verifier::truncate] ((self.vol.size - 1) as u16)),
            self.vol.holds(Pos { x, y: ((#[verifier::truncate] ((self.vol.size - 1) as u16)) - y) as u16, z }),
        ensures
            v == self.vol.data@[self.vol.index_of(
                Pos { x, y: ((#[verifier::truncate] ((self.vol.size - 1) as u16)) - y) as u16, z },
            )],
    {
        self.get(x, (#[verifier::truncate] ((self.vol.size - 1) as u16)) - y, z)
    }

    /// The voxel at (`x`, `y`, `z`).
    pub fn get(&self, x: u16, y: u16, z: u16) -> (v: Voxel<C>)
        requires
            self.vol.holds(Pos { x, y, z }),
        ensures
            v == self.vol.data@[self.vol.index_of(Pos { x, y, z })],
    {
        *self.vol.at(Pos::new(x, y, z))
    }

    /// Stores `v` at (`x`, `y`, `z`) with `y` counted from the bottom.
    pub fn set_inv_y(&mut self, x: u16, y: u16, z: u16, v: Voxel<C>)
        requires
            old(self).vol.size >= 1,
            y <= (#[verifier::truncate] ((old(self).vol.size - 1) as u16)),
            old(self).vol.holds(
                Pos { x, y: ((#[verifier::truncate] ((old(self).vol.size - 1) as u16)) - y) as u16, z },
            ),
        ensures
            final(self).nodes == old(self).nodes,
            final(self).nodes_size == old(self).nodes_size,
            final(self).vol.size == old(self).vol.size,
            final(self).vol.data@ == old(self).vol.data@.update(
                old(self).vol.index_of(
                    Pos { x, y: ((#[verifier::truncate] ((old(self).vol.size - 1) as u16)) - y) as u16, z },
                ),
                v,
            ),
    {
        let yy = (#[verifier::truncate] ((self.vol.size - 1) as u16)) - y;
        self.vol.set(x, yy, z, v);
    }

    /// Stores `v` at (`x`, `y`, `z`).
    pub fn set(&mut self, x: u16, y: u16, z: u16, v: Voxel<C>)
        requires
            old(self).vol.holds(Pos { x, y, z }),
        ensures
            final(self).nodes == old(self).nodes,
            final(self).nodes_size == old(self).nodes_size,
            final(self).vol.size == old(self).vol.size,
            final(self).vol.data@ == old(self).vol.data@.update(old(self).vol.index_of(Pos { x, y, z }), v),
    {
        self.vol.set(x, y, z, v);
    }

    /// Stores `v` in every position of the box at (`x`, `y`, `z`) with
    /// extent (`w`, `h`, `d`).
    pub fn fill(&mut self, x: u16, y: u16, z: u16, w: u16, h: u16, d: u16, v: Voxel<C>)
        requires
            old(self).vol.fill_ok(x, y, z, w, h, d),
        ensures
            final(self).nodes == old(self).nodes,
            final(self).nodes_size == old(self).nodes_size,
            final(self).vol.size == old(self).vol.size,
            final(self).vol.data@.len() == old(self).vol.data@.len(),
            forall|i: int|
                0 <= i < old(self).vol.data@.len() ==> #[trigger] final(self).vol.data@[i] == (if in_box(
                    old(self).vol.size as int,
                    i,
                    x as int,
                    y as int,
                    z as int,
                    w as int,
                    h as int,
                    d as int,
                ) {
                    v
                } else {
                    old(self).vol.data@[i]
                }),
    {
        self.vol.fill(x, y, z, w, h, d, v);
    }

    /// Summarises the whole volume into the node array and returns the root.
    /// Also refreshes the face mask of every voxel the tree reaches.
    pub fn recompute(&mut self) -> (n: OctNode<C>)
        requires
            old(self).recompute_ok(),
        ensures
            final(self).vol.size == old(self).vol.size,
            final(self).vol.data@ == overlay_faces(
                old(self).vol.data@,
                faces_of(
                    old(self).vol.colors(),
                    old(self).vol.size as int,
                    TreePos::root(),
                    old(self).vol.size as nat,
                    Pos { x: 0, y: 0, z: 0 },
                ),
            ),
            final(self).nodes@ == overlay(
                old(self).nodes@,
                writes_of(
                    old(self).vol.colors(),
                    old(self).vol.size as int,
                    TreePos::root(),
                    old(self).vol.size as nat,
                    Pos { x: 0, y: 0, z: 0 },
                ),
            ),
            final(self).nodes_size == old(self).nodes_size,
            n == node_of(
                old(self).vol.colors(),
                old(self).vol.size as int,
                TreePos::root(),
                old(self).vol.size as nat,
                Pos { x: 0, y: 0, z: 0 },
            ),
            old(self).tree_wf() ==> final(self).tree_wf() && final(self).draw_all_ok()
                && final(self).draw_covers_volume(),
    {
        let ghost before = *self;
        let n = self.compute_node(TreePos::new(), self.vol.size, Pos { x: 0, y: 0, z: 0 });
        proof {
            if before.tree_wf() {
                lemma_recompute_covers(before, *self);
            }
        }
        n
    }

    /// Appends to `out` what drawing the cube of edge length `size` at
    /// `top_left` reports.
    fn collect_level(&self, tp: TreePos, size: usize, top_left: Pos, out: &mut Vec<(usize, Pos, Voxel<C>)>)
        requires
            draw_ok(self.nodes@, self.vol.data@.len() as int, self.vol.size as int, tp, size as nat, top_left),
        ensures
            final(out)@ == old(out)@ + draw_seq(
                self.nodes@,
                self.vol.data@,
                self.vol.size as int,
                tp,
                size as nat,
                top_left,
            ),
        decreases size,
    {
        let ghost nodes = self.nodes@;
        let ghost data = self.vol.data@;
        let ghost vs = self.vol.size as int;
        if size == 1 {
            let v = self.vol.at(top_left);
            if !v.color.same_color(&C::default_color()) {
                out.push((1, top_left, *v));
            }
            proof {
                assert(out@ =~= old(out)@ + draw_seq(nodes, data, vs, tp, size as nat, top_left));
            }
            return ;
        }
        let n = self.nodes[tp.idx()];
        if n.empty {
            proof {
                assert(out@ =~= old(out)@ + draw_seq(nodes, data, vs, tp, size as nat, top_left));
            }
            return ;
        }
        if let Some(v) = n.voxel {
            out.push((size, top_left, v));
            proof {
                assert(out@ =~= old(out)@ + draw_seq(nodes, data, vs, tp, size as nat, top_left));
            }
            return ;
        }
        let half = size >> 1;
        assert(half == size / 2) by (bit_vector)
            requires
                half == size >> 1,
        ;
        let mut k: u8 = 0;
        while k < 8
            invariant
                0 <= k <= 8,
                size > 1,
                half == size / 2,
                nodes == self.nodes@,
                data == self.vol.data@,
                vs == self.vol.size,
                draw_children_ok(nodes, data.len() as int, vs, tp, size as nat, top_left, 8),
                out@ == old(out)@ + draw_prefix(nodes, data, vs, tp, size as nat, top_left, k as nat),
            decreases 8 - k,
        {
            let x: u8 = k % 2;
            let y: u8 = (k / 2) % 2;
            let z: u8 = k / 4;
            assert(x <= 1 && y <= 1 && z <= 1);
            assert(x as usize * half <= half && y as usize * half <= half && z as usize * half <= half) by (nonlinear_arith)
                requires
                    x <= 1,
                    y <= 1,
                    z <= 1,
            ;
            proof {
                lemma_draw_children_ok(nodes, data.len() as int, vs, tp, size as nat, top_left, 8, k as nat);
            }
            self.collect_level(
                tp.lvl_offs(x, y, z),
                half,
                top_left.offs(
                    #[verifier::truncate] ((x as usize * half) as u16),
                    #[verifier::truncate] ((y as usize * half) as u16),
                    #[verifier::truncate] ((z as usize * half) as u16),
                ),
                out,
            );
            proof {
                assert(draw_prefix(nodes, data, vs, tp, size as nat, top_left, (k + 1) as nat) == draw_prefix(nodes, data, vs, tp, size as nat, top_left, k as nat) + draw_seq(nodes, data, vs, child_tp(tp, k as int), (size / 2) as nat, child_tl(top_left, (size / 2) as nat, k as int)));
                assert(out@ =~= old(out)@ + draw_prefix(nodes, data, vs, tp, size as nat, top_left, (k + 1) as nat));
            }
            k = k + 1;
        }
        proof {
            assert(draw_seq(nodes, data, vs, tp, size as nat, top_left) == draw_prefix(nodes, data, vs, tp, size as nat, top_left, 8));
        }
    }

    /// What drawing the whole tree reports, in drawing order.
    pub fn draw_list(&self) -> (r: Vec<(usize, Pos, Voxel<C>)>)
        requires
            self.draw_all_ok(),
        ensures
            r@ == draw_seq(
                self.nodes@,
                self.vol.data@,
                self.vol.size as int,
                TreePos::root(),
                self.vol.size as nat,
                Pos { x: 0, y: 0, z: 0 },
            ),
    {
        let mut out: Vec<(usize, Pos, Voxel<C>)> = Vec::new();
        self.collect_level(TreePos::new(), self.vol.size, Pos { x: 0, y: 0, z: 0 }, &mut out);
        proof {
            assert(out@ =~= draw_seq(
                self.nodes@,
                self.vol.data@,
                self.vol.size as int,
                TreePos::root(),
                self.vol.size as nat,
                Pos { x: 0, y: 0, z: 0 },
            ));
        }
        out
    }

    /// Calls `f` with edge length, corner and voxel of every non-empty
    /// uniform cube of the tree, in drawing order.
    pub fn draw<F>(&self, f: &mut F) where F: FnMut(usize, &Pos, Voxel<C>)
        requires
            self.draw_all_ok(),
            forall|s: usize, p: &Pos, v: Voxel<C>| call_requires(*old(f), (s, p, v)),
        ensures
            forall|i: int|
                0 <= i < draw_seq(
                    self.nodes@,
                    self.vol.data@,
                    self.vol.size as int,
                    TreePos::root(),
                    self.vol.size as nat,
                    Pos { x: 0, y: 0, z: 0 },
                ).len() ==> {
                    let e = #[trigger] draw_seq(
                        self.nodes@,
                        self.vol.data@,
                        self.vol.size as int,
                        TreePos::root(),
                        self.vol.size as nat,
                        Pos { x: 0, y: 0, z: 0 },
                    )[i];
                    call_ensures(*final(f), (e.0, &e.1, e.2), ())
                },
    {
        self.draw_level(TreePos::new(), self.vol.size, Pos { x: 0, y: 0, z: 0 }, f);
    }

    /// Calls `f` for every non-empty uniform cube below the node at `tp`,
    /// whose cube has edge length `size` and corner `top_left`.
    pub fn draw_level<F>(&self, tp: TreePos, size: usize, top_left: Pos, f: &mut F) where
        F: FnMut(usize, &Pos, Voxel<C>),
        requires
            draw_ok(self.nodes@, self.vol.data@.len() as int, self.vol.size as int, tp, size as nat, top_left),
            forall|s: usize, p: &Pos, v: Voxel<C>| call_requires(*old(f), (s, p, v)),
        ensures
            forall|i: int|
                0 <= i < draw_seq(self.nodes@, self.vol.data@, self.vol.size as int, tp, size as nat, top_left).len() ==> {
                    let e = #[trigger] draw_seq(self.nodes@, self.vol.data@, self.vol.size as int, tp, size as nat, top_left)[i];
                    call_ensures(*final(f), (e.0, &e.1, e.2), ())
                },
    {
        let mut list: Vec<(usize, Pos, Voxel<C>)> = Vec::new();
        self.collect_level(tp, size, top_left, &mut list);
        let ghost seq = list@;
        let mut i: usize = 0;
        while i < list.len()
            invariant
                i <= list@.len(),
                list@ == seq,
                seq == draw_seq(self.nodes@, self.vol.data@, self.vol.size as int, tp, size as nat, top_left),
                forall|s: usize, p: &Pos, v: Voxel<C>| call_requires(*f, (s, p, v)),
                forall|j: int| 0 <= j < i ==> {
                    let e = #[trigger] seq[j];
                    call_ensures(*f, (e.0, &e.1, e.2), ())
                },
            decreases list@.len() - i,
        {
            let e = list[i];
            f(e.0, &e.1, e.2);
            i = i + 1;
        }
    }

    /// Drawing the whole tree reads only stored voxels and node slots.
    pub open spec fn draw_all_ok(&self) -> bool {
        draw_ok(
            self.nodes@,
            self.vol.data@.len() as int,
            self.vol.size as int,
            TreePos::root(),
            self.vol.size as nat,
            Pos { x: 0, y: 0, z: 0 },
        )
    }

    fn node_at(&self, offs: usize, x: usize, y: usize, z: usize) -> (n: &OctNode<C>)
        requires
            offs + x * 2 * 2 + y * 2 + x < self.nodes@.len(),
        ensures
            *n == self.nodes@[offs + x * 2 * 2 + y * 2 + x],
    {
        let _len = self.nodes.len();
        &self.nodes[offs + (x * 2 * 2) + (y * 2) + x]
    }

    fn node(&mut self, offs: usize, x: usize, y: usize, z: usize) -> (n: &mut OctNode<C>)
        requires
            offs + x * 2 * 2 + y * 2 + x < old(self).nodes@.len(),
        ensures
            *n == old(self).nodes@[offs + x * 2 * 2 + y * 2 + x],
            final(self).nodes@ == old(self).nodes@.update(offs + x * 2 * 2 + y * 2 + x, *final(n)),
            final(self).nodes_size == old(self).nodes_size,
            final(self).vol == old(self).vol,
    {
        let _len = self.nodes.len();
        &mut self.nodes[offs + (x * 2 * 2) + (y * 2) + x]
    }

    fn compute_node(&mut self, tp: TreePos, size: usize, top_left: Pos) -> (n: OctNode<C>)
        requires
            compute_ok(
                old(self).vol.data@.len() as int,
                old(self).vol.size as int,
                old(self).nodes@.len() as int,
                tp,
                size as nat,
                top_left,
            ),
        ensures
            final(self).vol.size == old(self).vol.size,
            final(self).vol.data@ == overlay_faces(
                old(self).vol.data@,
                faces_of(old(self).vol.colors(), old(self).vol.size as int, tp, size as nat, top_left),
            ),
            final(self).nodes@ == overlay(
                old(self).nodes@,
                writes_of(old(self).vol.colors(), old(self).vol.size as int, tp, size as nat, top_left),
            ),
            final(self).nodes_size == old(self).nodes_size,
            n == node_of(old(self).vol.colors(), old(self).vol.size as int, tp, size as nat, top_left),
        decreases size,
    {
        let ghost cs = self.vol.colors();
        let ghost vs = self.vol.size as int;
        let ghost old_data = self.vol.data@;
        let ghost old_nodes = self.nodes@;
        if size == 1 {
            let v = self.vol.get(top_left);
            let mut n: OctNode<C> = OctNode::default();
            if v.color.same_color(&C::default_color()) {
                n.empty = true;
                n.pos = top_left;
            } else {
                n.voxel = Some(*v);
                n.empty = false;
                n.pos = top_left;
            }
            proof {
                let i = vox_index(vs, top_left.x as int, top_left.y as int, top_left.z as int);
                assert(cs[i] == old_data[i].color);
                assert(self.vol.data@ =~= overlay_faces(old_data, faces_of(cs, vs, tp, size as nat, top_left)));
                assert(self.nodes@ =~= overlay(old_nodes, writes_of(cs, vs, tp, size as nat, top_left)));
            }
            return n;
        }
        let half = size >> 1;
        assert(half == size / 2) by (bit_vector)
            requires
                half == size >> 1,
        ;
        let mut faces: u8 = 0x0;
        let mut color: C = C::default_color();
        let mut first = true;
        let mut equal_color = true;
        let mut all_empty_so_far = true;
        let ghost mut done: Seq<OctNode<C>> = Seq::empty();
        let mut k: u8 = 0;
        while k < 8
            invariant
                0 <= k <= 8,
                size > 1,
                half == size / 2,
                self.vol.size == vs,
                self.vol.data@.len() == old_data.len(),
                cs == colors_of(old_data),
                vs == old(self).vol.size,
                old_data == old(self).vol.data@,
                old_nodes == old(self).nodes@,
                self.nodes_size == old(self).nodes_size,
                compute_ok(old_data.len() as int, vs, old_nodes.len() as int, tp, size as nat, top_left),
                self.vol.data@ == overlay_faces(old_data, faces_prefix(cs, vs, tp, size as nat, top_left, k as nat)),
                self.nodes@ == overlay(old_nodes, writes_prefix(cs, vs, tp, size as nat, top_left, k as nat)),
                done == children_nodes(cs, vs, tp, size as nat, top_left, k as nat),
                done.len() == k,
                all_empty_so_far == all_empty(done),
                equal_color == uniform(done),
                first == (forall|j: int| 0 <= j < k ==> (#[trigger] done[j]).voxel is None),
                equal_color && k > 0 ==> color == done[0].voxel->Some_0.color && faces
                    == faces_fold(done, k as nat),
                k == 0 ==> faces == 0,
            decreases 8 - k,
        {
            let x: u8 = k % 2;
            let y: u8 = (k / 2) % 2;
            let z: u8 = k / 4;
            assert(x <= 1 && y <= 1 && z <= 1);
            assert(x as usize * half <= half && y as usize * half <= half && z as usize * half <= half) by (nonlinear_arith)
                requires
                    x <= 1,
                    y <= 1,
                    z <= 1,
            ;
            proof {
                lemma_children_ok::<C>(old_data.len() as int, vs, old_nodes.len() as int, tp, size as nat, top_left, 8, k as nat);
                lemma_overlay_faces_colors(old_data, faces_prefix(cs, vs, tp, size as nat, top_left, k as nat));
            }
            let ctp = tp.lvl_offs(x, y, z);
            let ctl = top_left.offs(
                #[verifier::truncate] ((x as usize * half) as u16),
                #[verifier::truncate] ((y as usize * half) as u16),
                #[verifier::truncate] ((z as usize * half) as u16),
            );
            let cn = self.compute_node(ctp, half, ctl);
            proof {
                lemma_prefix_step(cs, vs, tp, size as nat, top_left, k as nat);
                let cf = faces_of(cs, vs, child_tp(tp, k as int), (size / 2) as nat, child_tl(top_left, (size / 2) as nat, k as int));
                let cw = writes_of(cs, vs, child_tp(tp, k as int), (size / 2) as nat, child_tl(top_left, (size / 2) as nat, k as int));
                lemma_overlay_faces_compose(old_data, faces_prefix(cs, vs, tp, size as nat, top_left, k as nat), cf);
                lemma_overlay_compose(old_nodes, writes_prefix(cs, vs, tp, size as nat, top_left, k as nat), cw);
            }
            let ghost prev = done;
            let ghost prev_first = first;
            let ghost prev_equal = equal_color;
            let ghost prev_empty = all_empty_so_far;
            let ghost prev_color = color;
            let ghost prev_faces = faces;
            proof {
                done = done.push(cn);
            }
            if !cn.empty {
                all_empty_so_far = false;
            }
            if let Some(v) = cn.voxel {
                if first {
                    color = v.color;
                    first = false;
                } else if !color.same_color(&v.color) {
                    equal_color = false;
                }
                faces = faces | v.faces;
            } else {
                equal_color = false;
            }
            proof {
                lemma_combine_step(prev, cn, done, prev_first, prev_equal, prev_empty, prev_color, prev_faces,
                    first, equal_color, all_empty_so_far, color, faces);
            }
            k = k + 1;
        }
        let mut n: OctNode<C> = OctNode::default();
        n.pos = top_left;
        n.tree_pos = tp;
        if !all_empty_so_far && equal_color {
            let mut v: Voxel<C> = Voxel::default();
            v.color = color;
            v.faces = faces;
            n.empty = false;
            n.voxel = Some(v);
        } else if !all_empty_so_far {
            n.empty = false;
            n.voxel = None;
        } else {
            n.empty = true;
            n.voxel = None;
        }
        if size > 1 {
            let idx = tp.idx();
            self.nodes.set(idx, n);
        }
        proof {
            assert(self.vol.data@ =~= overlay_faces(old_data, faces_of(cs, vs, tp, size as nat, top_left)));
            assert(self.nodes@ =~= overlay(old_nodes, writes_of(cs, vs, tp, size as nat, top_left)));
        }
        n
    }
}

proof fn lemma_overlay_compose<T>(base: Seq<T>, a: Map<int, T>, b: Map<int, T>)
    ensures
        overlay(overlay(base, a), b) == overlay(base, a.union_prefer_right(b)),
{
    assert(overlay(overlay(base, a), b) =~= overlay(base, a.union_prefer_right(b)));
}

proof fn lemma_overlay_faces_compose<C: VoxelColor>(data: Seq<Voxel<C>>, a: Map<int, u8>, b: Map<int, u8>)
    ensures
        overlay_faces(overlay_faces(data, a), b) == overlay_faces(data, a.union_prefer_right(b)),
{
    assert(overlay_faces(overlay_faces(data, a), b) =~= overlay_faces(data, a.union_prefer_right(b)));
}

pub proof fn lemma_overlay_faces_colors<C: VoxelColor>(data: Seq<Voxel<C>>, m: Map<int, u8>)
    ensures
        colors_of(overlay_faces(data, m)) == colors_of(data),
{
    assert(colors_of(overlay_faces(data, m)) =~= colors_of(data));
}

proof fn lemma_prefix_step<C: VoxelColor>(cs: Seq<C>, vs: int, tp: TreePos, size: nat, tl: Pos, k: nat)
    requires
        size > 1,
    ensures
        faces_prefix(cs, vs, tp, size, tl, k + 1) == faces_prefix(cs, vs, tp, size, tl, k).union_prefer_right(
            faces_of(cs, vs, child_tp(tp, k as int), size / 2, child_tl(tl, size / 2, k as int)),
        ),
        writes_prefix(cs, vs, tp, size, tl, k + 1) == writes_prefix(cs, vs, tp, size, tl, k).union_prefer_right(
            writes_of(cs, vs, child_tp(tp, k as int), size / 2, child_tl(tl, size / 2, k as int)),
        ),
        children_nodes(cs, vs, tp, size, tl, k + 1) == children_nodes(cs, vs, tp, size, tl, k).push(
            node_of(cs, vs, child_tp(tp, k as int), size / 2, child_tl(tl, size / 2, k as int)),
        ),
{
}

proof fn lemma_combine_step<C: VoxelColor>(
    prev: Seq<OctNode<C>>,
    cn: OctNode<C>,
    done: Seq<OctNode<C>>,
    prev_first: bool,
    prev_equal: bool,
    prev_empty: bool,
    prev_color: C,
    prev_faces: u8,
    first: bool,
    equal: bool,
    empty: bool,
    color: C,
    faces: u8,
)
    requires
        done == prev.push(cn),
        prev_empty == all_empty(prev),
        prev_equal == uniform(prev),
        prev_first == (forall|j: int| 0 <= j < prev.len() ==> (#[trigger] prev[j]).voxel is None),
        prev_equal && prev.len() > 0 ==> prev_color == prev[0].voxel->Some_0.color && prev_faces
            == faces_fold(prev, prev.len()),
        prev.len() == 0 ==> prev_faces == 0,
        empty == (prev_empty && cn.empty),
        cn.voxel is Some ==> {
            &&& first == false
            &&& color == (if prev_first { cn.voxel->Some_0.color } else { prev_color })
            &&& equal == (if prev_first { prev_equal } else { prev_equal && prev_color == cn.voxel->Some_0.color })
            &&& faces == prev_faces | cn.voxel->Some_0.faces
        },
        cn.voxel is None ==> first == prev_first && equal == false && color == prev_color && faces == prev_faces,
    ensures
        empty == all_empty(done),
        equal == uniform(done),
        first == (forall|j: int| 0 <= j < done.len() ==> (#[trigger] done[j]).voxel is None),
        equal && done.len() > 0 ==> color == done[0].voxel->Some_0.color && faces == faces_fold(done, done.len()),
{
    assert(done[prev.len() as int] == cn);
    assert forall|j: int| 0 <= j < prev.len() implies done[j] == prev[j] by {}
    if !uniform(done) && equal {
        assert(false) by {
            if prev.len() == 0 {
                assert(uniform(done));
            } else {
                assert(uniform(prev));
            }
        }
    }
    if uniform(done) && !equal {
        if prev.len() > 0 {
            assert(uniform(prev));
        }
    }
    if equal && done.len() > 0 {
        lemma_faces_fold_prefix(prev, done, prev.len());
        if prev.len() == 0 {
            assert(faces_fold(done, 0) == 0u8);
            assert(faces_fold(done, 1) == faces_fold(done, 0) | done[0].voxel->Some_0.faces);
        }
    }
}

proof fn lemma_faces_fold_prefix<C: VoxelColor>(prev: Seq<OctNode<C>>, done: Seq<OctNode<C>>, k: nat)
    requires
        k <= prev.len(),
        prev.len() < done.len(),
        forall|j: int| 0 <= j < prev.len() ==> done[j] == prev[j],
    ensures
        faces_fold(done, k) == faces_fold(prev, k),
    decreases k,
{
    if k > 0 {
        lemma_faces_fold_prefix(prev, done, (k - 1) as nat);
    }
}

} // verus!
