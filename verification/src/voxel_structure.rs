//! A minable voxel structure: one big volume, mirrored into a grid of
//! small octrees that are summarised (and, by the caller, rendered) one
//! by one.
use vstd::prelude::*;
use crate::octree::{OctNode, Octree};
use crate::octree_laws::{lemma_tree_wf_recompute_ok, pow2};
use crate::voxeltree::{vox_index, Pos, TreePos, Vol, Voxel};

verus! {

/// The edge length of the big volume.
pub const VOL_SIZE: usize = 128;

/// The edge length of one subvolume.
pub const SUBVOL_SIZE: usize = 16;

/// The number of subvolumes along each axis.
pub const SUBVOLS: usize = 8;

/// The subvolume that holds (`x`, `y`, `z`) of the big volume.
pub open spec fn sub_index(x: int, y: int, z: int) -> int {
    (z / 16) * 64 + (y / 16) * 8 + x / 16
}

/// The subvolume that holds the position `c`.
pub open spec fn cursor_sub(c: [u16; 3]) -> int {
    sub_index(c[0] as int, c[1] as int, c[2] as int)
}

/// The index, within its subvolume, of the voxel at `c`, with `y`
/// counted from the bottom of the subvolume.
pub open spec fn cursor_index(c: [u16; 3]) -> int {
    vox_index(16, (c[0] % 16) as int, 15 - (c[1] % 16) as int, (c[2] % 16) as int)
}

/// Distinct positions of the big volume have distinct places in the
/// subvolumes.
proof fn lemma_places_distinct(x1: int, y1: int, z1: int, x2: int, y2: int, z2: int)
    requires
        0 <= x1 < 128 && 0 <= y1 < 128 && 0 <= z1 < 128,
        0 <= x2 < 128 && 0 <= y2 < 128 && 0 <= z2 < 128,
        sub_index(x1, y1, z1) == sub_index(x2, y2, z2),
        vox_index(16, x1 % 16, y1 % 16, z1 % 16) == vox_index(16, x2 % 16, y2 % 16, z2 % 16),
    ensures
        x1 == x2 && y1 == y2 && z1 == z2,
{
    assert(0 <= x1 / 16 < 8 && 0 <= y1 / 16 < 8 && 0 <= z1 / 16 < 8);
    assert(0 <= x2 / 16 < 8 && 0 <= y2 / 16 < 8 && 0 <= z2 / 16 < 8);
    assert((z1 / 16) * 8 * 8 + (y1 / 16) * 8 + x1 / 16 == sub_index(x1, y1, z1));
    assert((z2 / 16) * 8 * 8 + (y2 / 16) * 8 + x2 / 16 == sub_index(x2, y2, z2));
    crate::octree_laws::lemma_digits_unique(8, x1 / 16, y1 / 16, z1 / 16, x2 / 16, y2 / 16, z2 / 16);
    crate::octree_laws::lemma_digits_unique(16, x1 % 16, y1 % 16, z1 % 16, x2 % 16, y2 % 16, z2 % 16);
}

/// Storing the voxel `v` at place `k` of subvolume `s` keeps the other
/// copied voxels and the well-formedness of the structure.
proof fn lemma_copy_keeps(before: VoxStruct, after: VoxStruct, s: int, k: int, v: Voxel<u8>, x: int, y: int, z: int)
    requires
        before.complete(),
        0 <= x < 128 && 0 <= y < 128 && 0 <= z < 128,
        s == sub_index(x, y, z),
        k == vox_index(16, x % 16, y % 16, z % 16),
        0 <= k < 4096,
        v.color == before.vol.data@[vox_index(128, x, y, z)].color,
        after.vol == before.vol,
        after.octrees@.len() == 512,
        0 <= s < 512,
        forall|i: int| 0 <= i < 512 && i != s ==> #[trigger] after.octrees@[i] == before.octrees@[i],
        after.octrees@[s].nodes == before.octrees@[s].nodes,
        after.octrees@[s].vol.size == before.octrees@[s].vol.size,
        after.octrees@[s].vol.data@ == before.octrees@[s].vol.data@.update(k, v),
    ensures
        after.complete(),
        after.copied(x, y, z),
        forall|xx: int, yy: int, zz: int|
            0 <= xx < 128 && 0 <= yy < 128 && 0 <= zz < 128 && before.copied(xx, yy, zz) && !(xx == x && yy == y
                && zz == z) ==> #[trigger] after.copied(xx, yy, zz),
{
    assert forall|i: int| 0 <= i < after.octrees@.len() implies (#[trigger] after.octrees@[i]).tree_wf()
        && after.octrees@[i].vol.size == 16 by {
        if i != s {
            assert(after.octrees@[i] == before.octrees@[i]);
        } else {
            assert(before.octrees@[i].tree_wf());
        }
    }
    assert forall|xx: int, yy: int, zz: int|
        0 <= xx < 128 && 0 <= yy < 128 && 0 <= zz < 128 && before.copied(xx, yy, zz) && !(xx == x && yy == y
            && zz == z) implies #[trigger] after.copied(xx, yy, zz) by {
        let si = sub_index(xx, yy, zz);
        let ki = vox_index(16, xx % 16, yy % 16, zz % 16);
        if si == s && ki == k {
            lemma_places_distinct(xx, yy, zz, x, y, z);
        }
        if si != s {
            assert(0 <= si < 512);
            assert(after.octrees@[si] == before.octrees@[si]);
        }
    }
}

/// `a` and `b` name the same position.
pub open spec fn same_pos(a: [u16; 3], b: [u16; 3]) -> bool {
    a[0] == b[0] && a[1] == b[1] && a[2] == b[2]
}

/// The structure's state apart from what it renders: the volume, its
/// subvolume octrees, the cursor and the last mined position.
pub struct VoxStruct {
    pub vol: Vol<u8>,
    pub octrees: Vec<Octree<u8>>,
    pub box_in_focus: bool,
    pub cursor: [u16; 3],
    pub last_mine_pos: [u16; 3],
}

impl VoxStruct {
    /// The volume has edge `VOL_SIZE`, and every subvolume octree is a
    /// well-formed tree of edge `SUBVOL_SIZE`.
    pub open spec fn wf(&self) -> bool {
        &&& self.vol.wf()
        &&& self.vol.size == 128
        &&& forall|i: int|
            0 <= i < self.octrees@.len() ==> (#[trigger] self.octrees@[i]).tree_wf() && self.octrees@[i].vol.size
                == 16
    }

    /// All `SUBVOLS`³ subvolume octrees exist.
    pub open spec fn complete(&self) -> bool {
        self.wf() && self.octrees@.len() == 512
    }

    /// Every voxel of the big volume has its colour in its subvolume.
    pub open spec fn mirrored(&self) -> bool {
        forall|x: int, y: int, z: int|
            0 <= x < 128 && 0 <= y < 128 && 0 <= z < 128 ==> #[trigger] self.copied(x, y, z)
    }

    /// The voxel at (`x`, `y`, `z`) has its colour in its subvolume.
    pub open spec fn copied(&self, x: int, y: int, z: int) -> bool {
        self.octrees@[sub_index(x, y, z)].vol.data@[vox_index(16, x % 16, y % 16, z % 16)].color
            == self.vol.data@[vox_index(128, x, y, z)].color
    }

    /// An empty structure with no subvolumes yet.
    pub fn new() -> (s: Self)
        ensures
            s.wf(),
            s.octrees@.len() == 0,
            forall|i: int| 0 <= i < s.vol.data@.len() ==> #[trigger] s.vol.data@[i] == Voxel::<u8>::blank(),
            !s.box_in_focus,
            s.cursor == [0u16, 0u16, 0u16],
            s.last_mine_pos == [0u16, 0u16, 0u16],
    {
        VoxStruct {
            vol: Vol::new(VOL_SIZE),
            octrees: Vec::new(),
            box_in_focus: false,
            cursor: [0, 0, 0],
            last_mine_pos: [0, 0, 0],
        }
    }

    /// Adds one empty octree per subvolume, in z, y, x order.
    pub fn add_octrees(&mut self)
        requires
            old(self).wf(),
            old(self).octrees@.len() == 0,
        ensures
            final(self).complete(),
            final(self).vol == old(self).vol,
            final(self).cursor == old(self).cursor,
            final(self).last_mine_pos == old(self).last_mine_pos,
            final(self).box_in_focus == old(self).box_in_focus,
    {
        let mut i: usize = 0;
        while i < SUBVOLS * SUBVOLS * SUBVOLS
            invariant
                i <= 512,
                self.octrees@.len() == i,
                self.wf(),
                self.vol == old(self).vol,
                self.cursor == old(self).cursor,
                self.last_mine_pos == old(self).last_mine_pos,
                self.box_in_focus == old(self).box_in_focus,
            decreases 512 - i,
        {
            proof {
                assert(pow2(16)) by {
                    reveal_with_fuel(pow2, 6);
                }
                assert(crate::octree::node_count(16) == 586) by {
                    reveal_with_fuel(crate::octree::depth, 6);
                    reveal_with_fuel(crate::octree::level_offset, 6);
                    reveal_with_fuel(crate::voxeltree::exp, 6);
                }
            }
            let t: Octree<u8> = Octree::new_from_size(SUBVOL_SIZE);
            self.octrees.push(t);
            i = i + 1;
        }
    }

    /// The subvolume octree that holds (`x`, `y`, `z`) of the big volume,
    /// and the position there.
    pub fn get_octree_at(&mut self, x: usize, y: usize, z: usize) -> (r: (&mut Octree<u8>, [u16; 3]))
        requires
            old(self).complete(),
            x < 128 && y < 128 && z < 128,
        ensures
            *r.0 == old(self).octrees@[sub_index(x as int, y as int, z as int)],
            r.1 == [(x % 16) as u16, (y % 16) as u16, (z % 16) as u16],
            final(self).octrees@ == old(self).octrees@.update(sub_index(x as int, y as int, z as int), *final(r.0)),
            final(self).vol == old(self).vol,
            final(self).cursor == old(self).cursor,
            final(self).last_mine_pos == old(self).last_mine_pos,
            final(self).box_in_focus == old(self).box_in_focus,
    {
        let iz = z / SUBVOL_SIZE;
        let izi = z % SUBVOL_SIZE;
        let iy = y / SUBVOL_SIZE;
        let iyi = y % SUBVOL_SIZE;
        let ix = x / SUBVOL_SIZE;
        let ixi = x % SUBVOL_SIZE;
        assert(iz < 8 && iy < 8 && ix < 8) by (nonlinear_arith)
            requires
                x < 128 && y < 128 && z < 128,
                iz == z / 16 && iy == y / 16 && ix == x / 16,
        ;
        assert(iz * (SUBVOLS * SUBVOLS) + iy * SUBVOLS + ix < 512 && iz * (SUBVOLS * SUBVOLS) == iz * 64 && iy
            * SUBVOLS == iy * 8) by (nonlinear_arith)
            requires
                iz < 8 && iy < 8 && ix < 8,
                SUBVOLS == 8,
        ;
        let sub_idx = iz * (SUBVOLS * SUBVOLS) + iy * SUBVOLS + ix;
        (&mut self.octrees[sub_idx], [ixi as u16, iyi as u16, izi as u16])
    }

    /// Summarises the subvolume that holds (`x`, `y`, `z`) again; returns
    /// its index and its root node, for the caller to render.
    pub fn reload_at(&mut self, x: usize, y: usize, z: usize) -> (r: (usize, OctNode<u8>))
        requires
            old(self).complete(),
            x < 128 && y < 128 && z < 128,
        ensures
            final(self).complete(),
            r.0 == sub_index(x as int, y as int, z as int),
            final(self).octrees@.len() == old(self).octrees@.len(),
            forall|i: int| 0 <= i < 512 && i != r.0 ==> #[trigger] final(self).octrees@[i] == old(self).octrees@[i],
            final(self).octrees@[r.0 as int].vol.colors() == old(self).octrees@[r.0 as int].vol.colors(),
            final(self).octrees@[r.0 as int].draw_covers_volume(),
            r.1 == crate::octree::node_of(
                old(self).octrees@[r.0 as int].vol.colors(),
                16,
                TreePos::root(),
                16,
                Pos { x: 0, y: 0, z: 0 },
            ),
            final(self).vol == old(self).vol,
            final(self).cursor == old(self).cursor,
            final(self).last_mine_pos == old(self).last_mine_pos,
            final(self).box_in_focus == old(self).box_in_focus,
    {
        let iz = z / SUBVOL_SIZE;
        let iy = y / SUBVOL_SIZE;
        let ix = x / SUBVOL_SIZE;
        assert(iz < 8 && iy < 8 && ix < 8) by (nonlinear_arith)
            requires
                x < 128 && y < 128 && z < 128,
                iz == z / 16 && iy == y / 16 && ix == x / 16,
        ;
        assert(iz * (SUBVOLS * SUBVOLS) + iy * SUBVOLS + ix < 512 && iz * (SUBVOLS * SUBVOLS) == iz * 64 && iy
            * SUBVOLS == iy * 8) by (nonlinear_arith)
            requires
                iz < 8 && iy < 8 && ix < 8,
                SUBVOLS == 8,
        ;
        let sub_idx = iz * (SUBVOLS * SUBVOLS) + iy * SUBVOLS + ix;
        let ghost before = self.octrees@[sub_idx as int];
        let (ot, _pos) = self.get_octree_at(x, y, z);
        proof {
            lemma_tree_wf_recompute_ok(*ot);
        }
        let n = ot.recompute();
        proof {
            crate::octree::lemma_overlay_faces_colors(
                before.vol.data@,
                crate::octree::faces_of(before.vol.colors(), 16, TreePos::root(), 16, Pos { x: 0, y: 0, z: 0 }),
            );
            assert forall|i: int| 0 <= i < self.octrees@.len() implies (#[trigger] self.octrees@[i]).tree_wf()
                && self.octrees@[i].vol.size == 16 by {
                if i != sub_idx {
                    assert(self.octrees@[i] == old(self).octrees@[i]);
                }
            }
        }
        (sub_idx, n)
    }

    /// The colour at the cursor.
    pub fn mine_info_at(&mut self) -> (c: u8)
        requires
            old(self).complete(),
            old(self).cursor[0] < 128 && old(self).cursor[1] < 128 && old(self).cursor[2] < 128,
        ensures
            final(self).octrees@ == old(self).octrees@,
            final(self).vol == old(self).vol,
            final(self).cursor == old(self).cursor,
            final(self).last_mine_pos == old(self).last_mine_pos,
            final(self).box_in_focus == old(self).box_in_focus,
            c == old(self).octrees@[cursor_sub(old(self).cursor)].vol.data@[cursor_index(old(self).cursor)].color,
    {
        let c0 = self.cursor[0] as usize;
        let c1 = self.cursor[1] as usize;
        let c2 = self.cursor[2] as usize;
        let (ot, pos) = self.get_octree_at(c0, c1, c2);
        proof {
            crate::octree_laws::lemma_index_in_volume(16, Pos { x: pos[0], y: (15 - pos[1]) as u16, z: pos[2] });
        }
        let v = ot.get_inv_y(pos[0], pos[1], pos[2]);
        proof {
            assert(self.octrees@ =~= old(self).octrees@);
        }
        v.color
    }

    /// Points the cursor at `cursor` (the position looked at, already
    /// rounded down); returns whether the focus box shows, which it does
    /// exactly when the voxel there is not empty.
    pub fn looking_at(&mut self, cursor: [u16; 3]) -> (show: bool)
        requires
            old(self).complete(),
            cursor[0] < 128 && cursor[1] < 128 && cursor[2] < 128,
        ensures
            final(self).vol == old(self).vol,
            final(self).octrees@ == old(self).octrees@,
            final(self).last_mine_pos == old(self).last_mine_pos,
            final(self).cursor == cursor,
            final(self).box_in_focus,
            show == (old(self).octrees@[cursor_sub(cursor)].vol.data@[cursor_index(cursor)].color != 0),
    {
        if !self.box_in_focus {
            self.box_in_focus = true;
        }
        self.cursor = cursor;
        let c = self.mine_info_at();
        self.box_in_focus = true;
        c != 0
    }

    /// Takes the focus box away; returns whether it has to be hidden.
    pub fn looking_at_nothing(&mut self) -> (hide: bool)
        ensures
            hide == old(self).box_in_focus,
            !final(self).box_in_focus,
            final(self).vol == old(self).vol,
            final(self).octrees == old(self).octrees,
            final(self).cursor == old(self).cursor,
            final(self).last_mine_pos == old(self).last_mine_pos,
    {
        if self.box_in_focus {
            self.box_in_focus = false;
            true
        } else {
            false
        }
    }

    /// Empties the voxel at the cursor unless it was mined last, and
    /// summarises its subvolume again; returns that subvolume's index and
    /// root node for the caller to render.
    pub fn mine(&mut self) -> (r: Option<(usize, OctNode<u8>)>)
        requires
            old(self).complete(),
            old(self).cursor[0] < 128 && old(self).cursor[1] < 128 && old(self).cursor[2] < 128,
        ensures
            final(self).complete(),
            final(self).vol == old(self).vol,
            final(self).cursor == old(self).cursor,
            final(self).last_mine_pos == old(self).cursor,
            final(self).box_in_focus == old(self).box_in_focus,
            same_pos(old(self).last_mine_pos, old(self).cursor) ==> r is None && final(self).octrees@ == old(self).octrees@,
            !same_pos(old(self).last_mine_pos, old(self).cursor) ==> {
                let s = cursor_sub(old(self).cursor);
                let k = cursor_index(old(self).cursor);
                &&& r matches Some(p) && p.0 == s && p.1 == crate::octree::node_of(
                    old(self).octrees@[s].vol.colors().update(k, 0u8),
                    16,
                    TreePos::root(),
                    16,
                    Pos { x: 0, y: 0, z: 0 },
                )
                &&& final(self).octrees@[s].vol.colors() == old(self).octrees@[s].vol.colors().update(k, 0u8)
                &&& final(self).octrees@[s].draw_covers_volume()
                &&& forall|i: int| 0 <= i < 512 && i != s ==> #[trigger] final(self).octrees@[i] == old(self).octrees@[i]
            },
    {
        if self.last_mine_pos[0] != self.cursor[0] || self.last_mine_pos[1] != self.cursor[1]
            || self.last_mine_pos[2] != self.cursor[2] {
            let c0 = self.cursor[0] as usize;
            let c1 = self.cursor[1] as usize;
            let c2 = self.cursor[2] as usize;
            let ghost s = sub_index(c0 as int, c1 as int, c2 as int);
            let ghost old_oct = self.octrees@[s];
            {
                let (ot, pos) = self.get_octree_at(c0, c1, c2);
                proof {
                    crate::octree_laws::lemma_index_in_volume(16, Pos { x: pos[0], y: (15 - pos[1]) as u16, z: pos[2] });
                }
                ot.set_inv_y(pos[0], pos[1], pos[2], Voxel::from(0u8));
            }
            proof {
                assert(self.octrees@[s].vol.colors() =~= old_oct.vol.colors().update(cursor_index(self.cursor), 0u8));
                assert forall|i: int| 0 <= i < self.octrees@.len() implies (#[trigger] self.octrees@[i]).tree_wf()
                    && self.octrees@[i].vol.size == 16 by {
                    if i != s {
                        assert(self.octrees@[i] == old(self).octrees@[i]);
                    }
                }
            }
            let r = self.reload_at(c0, c1, c2);
            self.last_mine_pos = self.cursor;
            Some(r)
        } else {
            None
        }
    }

    /// Copies the big volume into the subvolumes and summarises every
    /// subvolume again, in z, y, x order, for the caller to render.
    pub fn load_vol(&mut self)
        requires
            old(self).complete(),
        ensures
            final(self).complete(),
            final(self).mirrored(),
            forall|i: int| 0 <= i < 512 ==> (#[trigger] final(self).octrees@[i]).draw_covers_volume(),
            final(self).vol == old(self).vol,
            final(self).cursor == old(self).cursor,
            final(self).last_mine_pos == old(self).last_mine_pos,
            final(self).box_in_focus == old(self).box_in_focus,
    {
        let mut z: usize = 0;
        while z < VOL_SIZE
            invariant
                z <= 128,
                self.complete(),
                self.vol == old(self).vol,
                self.cursor == old(self).cursor,
                self.last_mine_pos == old(self).last_mine_pos,
                self.box_in_focus == old(self).box_in_focus,
                forall|xx: int, yy: int, zz: int|
                    0 <= xx < 128 && 0 <= yy < 128 && 0 <= zz < z ==> #[trigger] self.copied(xx, yy, zz),
            decreases 128 - z,
        {
            let mut y: usize = 0;
            while y < VOL_SIZE
                invariant
                    z < 128,
                    y <= 128,
                    self.complete(),
                    self.vol == old(self).vol,
                    self.cursor == old(self).cursor,
                    self.last_mine_pos == old(self).last_mine_pos,
                    self.box_in_focus == old(self).box_in_focus,
                    forall|xx: int, yy: int, zz: int|
                        0 <= xx < 128 && 0 <= yy < 128 && 0 <= zz < z ==> #[trigger] self.copied(xx, yy, zz),
                    forall|xx: int, yy: int| 0 <= xx < 128 && 0 <= yy < y ==> #[trigger] self.copied(xx, yy, z as int),
                decreases 128 - y,
            {
                let mut x: usize = 0;
                while x < VOL_SIZE
                    invariant
                        z < 128,
                        y < 128,
                        x <= 128,
                        self.complete(),
                        self.vol == old(self).vol,
                        self.cursor == old(self).cursor,
                        self.last_mine_pos == old(self).last_mine_pos,
                        self.box_in_focus == old(self).box_in_focus,
                        forall|xx: int, yy: int, zz: int|
                            0 <= xx < 128 && 0 <= yy < 128 && 0 <= zz < z ==> #[trigger] self.copied(xx, yy, zz),
                        forall|xx: int, yy: int|
                            0 <= xx < 128 && 0 <= yy < y ==> #[trigger] self.copied(xx, yy, z as int),
                        forall|xx: int| 0 <= xx < x ==> #[trigger] self.copied(xx, y as int, z as int),
                    decreases 128 - x,
                {
                    self.copy_voxel(x, y, z);
                    x = x + 1;
                }
                y = y + 1;
            }
            z = z + 1;
        }
        let mut iz: usize = 0;
        while iz < SUBVOLS
            invariant
                iz <= 8,
                self.complete(),
                self.mirrored(),
                self.vol == old(self).vol,
                self.cursor == old(self).cursor,
                self.last_mine_pos == old(self).last_mine_pos,
                self.box_in_focus == old(self).box_in_focus,
                forall|i: int| 0 <= i < iz * 64 ==> (#[trigger] self.octrees@[i]).draw_covers_volume(),
            decreases 8 - iz,
        {
            let mut iy: usize = 0;
            while iy < SUBVOLS
                invariant
                    iz < 8,
                    iy <= 8,
                    self.complete(),
                    self.mirrored(),
                    self.vol == old(self).vol,
                    self.cursor == old(self).cursor,
                    self.last_mine_pos == old(self).last_mine_pos,
                    self.box_in_focus == old(self).box_in_focus,
                    forall|i: int| 0 <= i < iz * 64 + iy * 8 ==> (#[trigger] self.octrees@[i]).draw_covers_volume(),
                decreases 8 - iy,
            {
                let mut ix: usize = 0;
                while ix < SUBVOLS
                    invariant
                        iz < 8,
                        iy < 8,
                        ix <= 8,
                        self.complete(),
                        self.mirrored(),
                        self.vol == old(self).vol,
                        self.cursor == old(self).cursor,
                        self.last_mine_pos == old(self).last_mine_pos,
                        self.box_in_focus == old(self).box_in_focus,
                        forall|i: int|
                            0 <= i < iz * 64 + iy * 8 + ix ==> (#[trigger] self.octrees@[i]).draw_covers_volume(),
                    decreases 8 - ix,
                {
                    let ghost before = *self;
                    let r = self.reload_at(ix * SUBVOL_SIZE, iy * SUBVOL_SIZE, iz * SUBVOL_SIZE);
                    proof {
                        assert(r.0 == iz * 64 + iy * 8 + ix) by {
                            assert((ix * 16) / 16 == ix && (iy * 16) / 16 == iy && (iz * 16) / 16 == iz) by (nonlinear_arith);
                        }
                        assert forall|xx: int, yy: int, zz: int|
                            0 <= xx < 128 && 0 <= yy < 128 && 0 <= zz < 128 implies #[trigger] self.copied(
                                xx,
                                yy,
                                zz,
                            ) by {
                            assert(before.copied(xx, yy, zz));
                            let si = sub_index(xx, yy, zz);
                            assert(0 <= si < 512);
                            crate::octree_laws::lemma_index_in_volume(16, Pos { x: (xx % 16) as u16, y: (yy % 16) as u16, z: (zz % 16) as u16 });
                            assert(before.octrees@[si].vol.colors()[vox_index(16, xx % 16, yy % 16, zz % 16)]
                                == self.octrees@[si].vol.colors()[vox_index(16, xx % 16, yy % 16, zz % 16)]);
                        }
                    }
                    ix = ix + 1;
                }
                iy = iy + 1;
            }
            iz = iz + 1;
        }
    }

    /// Copies the voxel at (`x`, `y`, `z`) of the big volume into its
    /// subvolume.
    fn copy_voxel(&mut self, x: usize, y: usize, z: usize)
        requires
            old(self).complete(),
            x < 128 && y < 128 && z < 128,
        ensures
            final(self).complete(),
            final(self).copied(x as int, y as int, z as int),
            forall|xx: int, yy: int, zz: int|
                0 <= xx < 128 && 0 <= yy < 128 && 0 <= zz < 128 && old(self).copied(xx, yy, zz) && !(xx == x
                    && yy == y && zz == z) ==> #[trigger] final(self).copied(xx, yy, zz),
            final(self).vol == old(self).vol,
            final(self).cursor == old(self).cursor,
            final(self).last_mine_pos == old(self).last_mine_pos,
            final(self).box_in_focus == old(self).box_in_focus,
    {
        proof {
            crate::octree_laws::lemma_index_in_volume(128, Pos { x: x as u16, y: y as u16, z: z as u16 });
        }
        let v = *self.vol.at(Pos { x: x as u16, y: y as u16, z: z as u16 });
        let ghost s = sub_index(x as int, y as int, z as int);
        let ghost k = vox_index(16, (x % 16) as int, (y % 16) as int, (z % 16) as int);
        let ghost before = *self;
        {
            let (ot, pos) = self.get_octree_at(x, y, z);
            proof {
                crate::octree_laws::lemma_index_in_volume(16, Pos { x: pos[0], y: pos[1], z: pos[2] });
            }
            ot.set(pos[0], pos[1], pos[2], v);
        }
        proof {
            lemma_copy_keeps(before, *self, s, k, v, x as int, y as int, z as int);
        }
    }
}

} // verus!
