//! A single small minable voxel volume, set up with a fixed demonstration
//! shape: its state apart from the mesh and collision shape the caller
//! renders from its octree.
use vstd::prelude::*;
use crate::octree::{node_count, node_of, lemma_overlay_faces_colors, OctNode, Octree};
use crate::octree_laws::pow2;
use crate::voxeltree::{in_box, vox_index, Pos, TreePos, Voxel};

verus! {

/// The colour the demonstration volume has at (`x`, `y`, `z`): a 4-cube
/// of colour 128 with a hollow 2-cube inside, a 4-cube of 240 and an
/// 8-cube of 250 along the diagonal, and a few single voxels.
pub open spec fn demo_color(x: int, y: int, z: int) -> u8 {
    if x == 0 && y == 7 && z == 7 {
        23
    } else if x == 0 && y == 7 && z == 0 {
        72
    } else if (x == 0 && y == 0 && z == 0) || (x == 1 && y == 1 && z == 0) {
        0
    } else if 8 <= x < 16 && 8 <= y < 16 && 8 <= z < 16 {
        250
    } else if 4 <= x < 8 && 4 <= y < 8 && 4 <= z < 8 {
        240
    } else if 1 <= x < 3 && 1 <= y < 3 && 1 <= z < 3 {
        0
    } else if 0 <= x < 4 && 0 <= y < 4 && 0 <= z < 4 {
        128
    } else {
        0
    }
}

/// The colours of the demonstration volume, in storage order.
pub open spec fn demo_colors() -> Seq<u8> {
    Seq::new(4096, |i: int| demo_color(i % 16, (i / 16) % 16, i / 256))
}

/// The place, in storage order, of the voxel at the cursor `c` with `y`
/// counted from the bottom.
pub open spec fn cursor_place(c: [u16; 3]) -> int {
    vox_index(16, c[0] as int, 15 - c[1] as int, c[2] as int)
}

/// `a` and `b` name the same position.
pub open spec fn same_cursor(a: [u16; 3], b: [u16; 3]) -> bool {
    a[0] == b[0] && a[1] == b[1] && a[2] == b[2]
}

/// An index of a 16-cube lies in a box exactly when its coordinates do.
proof fn lemma_in_box_16(i: int, x: int, y: int, z: int, w: int, h: int, d: int)
    requires
        0 <= i < 4096,
        0 <= x && 0 <= y && 0 <= z,
        0 <= w && 0 <= h && 0 <= d,
        x + w <= 16 && y + h <= 16 && z + d <= 16,
    ensures
        in_box(16, i, x, y, z, w, h, d) == (x <= i % 16 < x + w && y <= (i / 16) % 16 < y + h && z <= i / 256 < z
            + d),
{
    let (px, py, pz) = (i % 16, (i / 16) % 16, i / 256);
    assert(i == vox_index(16, px, py, pz));
    if x <= px < x + w && y <= py < y + h && z <= pz < z + d {
        assert(i == vox_index(16, x + (px - x), y + (py - y), z + (pz - z)));
    }
    if in_box(16, i, x, y, z, w, h, d) {
        let (a, b, c) = choose|a: int, b: int, c: int|
            0 <= a < w && 0 <= b < h && 0 <= c < d && i == #[trigger] vox_index(16, x + a, y + b, z + c);
        assert(i == (z + c) * 256 + (y + b) * 16 + (x + a));
        assert(px == x + a && py == y + b && pz == z + c);
    }
}

/// The demonstration volume's state: its octree once set up, the cursor,
/// whether the focus box shows, and the last mined position.
pub struct InstVoxVolume {
    pub box_in_focus: bool,
    pub octree: Option<Octree<u8>>,
    pub cursor: [u16; 3],
    pub last_mine_pos: [u16; 3],
}

impl InstVoxVolume {
    /// A volume not set up yet: no octree, cursor and last mined position
    /// at the origin, no focus box.
    pub fn new() -> (s: Self)
        ensures
            !s.box_in_focus,
            s.octree is None,
            s.cursor == [0u16, 0u16, 0u16],
            s.last_mine_pos == [0u16, 0u16, 0u16],
    {
        InstVoxVolume { box_in_focus: false, octree: None, cursor: [0, 0, 0], last_mine_pos: [0, 0, 0] }
    }

    /// The octree exists, is well formed, has edge 16 and reports cubes
    /// that cover its volume.
    pub open spec fn ready_ok(&self) -> bool {
        self.octree matches Some(ot) && ot.tree_wf() && ot.vol.size == 16 && ot.draw_covers_volume()
    }

    /// Builds the demonstration volume and summarises it; returns the root
    /// node, from which the caller renders the mesh.
    pub fn ready(&mut self) -> (n: OctNode<u8>)
        ensures
            final(self).ready_ok(),
            final(self).octree->0.vol.colors() == demo_colors(),
            n == node_of(demo_colors(), 16, TreePos::root(), 16, Pos { x: 0, y: 0, z: 0 }),
            final(self).cursor == old(self).cursor,
            final(self).last_mine_pos == old(self).last_mine_pos,
            final(self).box_in_focus == old(self).box_in_focus,
    {
        proof {
            assert(pow2(16)) by {
                reveal_with_fuel(pow2, 6);
            }
            assert(node_count(16) == 586) by {
                reveal_with_fuel(crate::octree::depth, 6);
                reveal_with_fuel(crate::octree::level_offset, 6);
                reveal_with_fuel(crate::voxeltree::exp, 6);
            }
        }
        let mut ot: Octree<u8> = Octree::new_from_size(16);
        let ghost d0 = ot.vol.data@;
        ot.fill(0, 0, 0, 4, 4, 4, Voxel::from(128u8));
        let ghost d1 = ot.vol.data@;
        ot.fill(1, 1, 1, 2, 2, 2, Voxel::from(0u8));
        let ghost d2 = ot.vol.data@;
        ot.fill(4, 4, 4, 4, 4, 4, Voxel::from(240u8));
        let ghost d3 = ot.vol.data@;
        ot.fill(8, 8, 8, 8, 8, 8, Voxel::from(250u8));
        let ghost d4 = ot.vol.data@;
        ot.set(0, 0, 0, Voxel::from(0u8));
        ot.set(1, 1, 0, Voxel::from(0u8));
        ot.set(0, 7, 0, Voxel::from(72u8));
        ot.set(0, 7, 7, Voxel::from(23u8));
        proof {
            assert forall|i: int| 0 <= i < 4096 implies #[trigger] ot.vol.colors()[i] == demo_colors()[i] by {
                lemma_in_box_16(i, 0, 0, 0, 4, 4, 4);
                lemma_in_box_16(i, 1, 1, 1, 2, 2, 2);
                lemma_in_box_16(i, 4, 4, 4, 4, 4, 4);
                lemma_in_box_16(i, 8, 8, 8, 8, 8, 8);
                assert(d0[i] == Voxel::<u8>::blank());
            }
            assert(ot.vol.colors() =~= demo_colors());
        }
        proof {
            assert(ot.tree_wf());
            crate::octree_laws::lemma_tree_wf_recompute_ok(ot);
        }
        let ghost before = ot;
        ot.recompute();
        proof {
            let m = crate::octree::faces_of(
                before.vol.colors(),
                16,
                TreePos::root(),
                16,
                Pos { x: 0, y: 0, z: 0 },
            );
            lemma_overlay_faces_colors(before.vol.data@, m);
        }
        self.octree = Some(ot);
        match self.rebuild() {
            Some(n) => n,
            None => OctNode::new(),
        }
    }

    /// The cursor lies in the volume.
    pub open spec fn cursor_ok(&self) -> bool {
        self.cursor[0] < 16 && self.cursor[1] < 16 && self.cursor[2] < 16
    }

    /// The colour at the cursor.
    pub fn mine_info_at(&mut self) -> (c: u8)
        requires
            old(self).ready_ok(),
            old(self).cursor_ok(),
        ensures
            *final(self) == *old(self),
            c == old(self).octree->0.vol.colors()[cursor_place(old(self).cursor)],
    {
        match &self.octree {
            Some(ot) => {
                proof {
                    crate::octree_laws::lemma_index_in_volume(
                        16,
                        Pos { x: self.cursor[0], y: (15 - self.cursor[1]) as u16, z: self.cursor[2] },
                    );
                }
                ot.get_inv_y(self.cursor[0], self.cursor[1], self.cursor[2]).color
            },
            None => 0,
        }
    }

    /// Points the cursor at `cursor` (the position looked at, already
    /// rounded down); returns whether the focus box has to be shown, which
    /// it has when it was not.
    pub fn looking_at(&mut self, cursor: [u16; 3]) -> (show: bool)
        ensures
            show == !old(self).box_in_focus,
            final(self).box_in_focus,
            final(self).cursor == cursor,
            final(self).octree == old(self).octree,
            final(self).last_mine_pos == old(self).last_mine_pos,
    {
        let show = !self.box_in_focus;
        if show {
            self.box_in_focus = true;
        }
        self.cursor = cursor;
        show
    }

    /// Takes the focus box away; returns whether it has to be hidden.
    pub fn looking_at_nothing(&mut self) -> (hide: bool)
        ensures
            hide == old(self).box_in_focus,
            !final(self).box_in_focus,
            final(self).cursor == old(self).cursor,
            final(self).octree == old(self).octree,
            final(self).last_mine_pos == old(self).last_mine_pos,
    {
        if self.box_in_focus {
            self.box_in_focus = false;
            true
        } else {
            false
        }
    }

    /// Empties the voxel at the cursor unless it was mined last and
    /// summarises the volume again; returns the mined colour and the new
    /// root node for the caller to render.
    pub fn mine(&mut self) -> (r: Option<(u8, OctNode<u8>)>)
        requires
            old(self).ready_ok(),
            old(self).cursor_ok(),
        ensures
            final(self).ready_ok(),
            final(self).cursor == old(self).cursor,
            final(self).last_mine_pos == old(self).cursor,
            final(self).box_in_focus == old(self).box_in_focus,
            same_cursor(old(self).last_mine_pos, old(self).cursor) ==> r is None && final(self).octree
                == old(self).octree,
            !same_cursor(old(self).last_mine_pos, old(self).cursor) ==> {
                let cs = old(self).octree->0.vol.colors();
                let k = cursor_place(old(self).cursor);
                let new_cs = cs.update(k, 0u8);
                &&& final(self).octree->0.vol.colors() == new_cs
                &&& r == Some((cs[k], node_of(new_cs, 16, TreePos::root(), 16, Pos { x: 0, y: 0, z: 0 })))
            },
    {
        if self.last_mine_pos[0] != self.cursor[0] || self.last_mine_pos[1] != self.cursor[1]
            || self.last_mine_pos[2] != self.cursor[2] {
            let (x, y, z) = (self.cursor[0], self.cursor[1], self.cursor[2]);
            proof {
                crate::octree_laws::lemma_index_in_volume(16, Pos { x, y: (15 - y) as u16, z });
            }
            let color = match &mut self.octree {
                Some(ot) => {
                    let c = ot.get_inv_y(x, y, z).color;
                    let ghost before = *ot;
                    ot.set_inv_y(x, y, z, Voxel::from(0u8));
                    proof {
                        assert(ot.vol.colors() =~= before.vol.colors().update(cursor_place(self.cursor), 0u8));
                    }
                    c
                },
                None => 0,
            };
            let n = self.rebuild();
            self.last_mine_pos = self.cursor;
            match n {
                Some(n) => Some((color, n)),
                None => None,
            }
        } else {
            None
        }
    }

    /// Summarises the octree again, if there is one; returns its root node
    /// for the caller to render.
    pub fn rebuild(&mut self) -> (r: Option<OctNode<u8>>)
        requires
            old(self).octree matches Some(ot) ==> ot.tree_wf(),
        ensures
            final(self).cursor == old(self).cursor,
            final(self).last_mine_pos == old(self).last_mine_pos,
            final(self).box_in_focus == old(self).box_in_focus,
            match old(self).octree {
                None => r is None && final(self).octree is None,
                Some(ot) => final(self).octree matches Some(ot2) && r == Some(
                    node_of(ot.vol.colors(), ot.vol.size as int, TreePos::root(), ot.vol.size as nat, Pos { x: 0, y: 0, z: 0 }),
                ) && ot2.vol.colors() == ot.vol.colors() && ot2.vol.size == ot.vol.size && ot2.tree_wf()
                    && ot2.draw_covers_volume(),
            },
    {
        match &mut self.octree {
            Some(ot) => {
                proof {
                    crate::octree_laws::lemma_tree_wf_recompute_ok(*ot);
                }
                let ghost before = *ot;
                let n = ot.recompute();
                proof {
                    let m = crate::octree::faces_of(
                        before.vol.colors(),
                        before.vol.size as int,
                        TreePos::root(),
                        before.vol.size as nat,
                        Pos { x: 0, y: 0, z: 0 },
                    );
                    lemma_overlay_faces_colors(before.vol.data@, m);
                }
                Some(n)
            },
            None => None,
        }
    }
}

} // verus!
