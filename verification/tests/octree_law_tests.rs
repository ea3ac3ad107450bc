use sscg::octree::{OctNode, Octree};
use sscg::voxeltree::{xyz2facemask, Pos, TreePos, Vol, Voxel};

fn draw_log(t: &Octree<u8>) -> Vec<(usize, Pos, Voxel<u8>)> {
    let mut log = vec![];
    t.draw(&mut |size, pos: &Pos, v: Voxel<u8>| {
        log.push((size, *pos, v));
    });
    log
}

/// Every non-empty voxel lies in exactly one reported cube, and every
/// reported cube holds only voxels of its colour.
fn assert_covers(t: &Octree<u8>) {
    let s = t.vol.size;
    let log = draw_log(t);
    let mut hits = vec![0u32; s * s * s];
    for (size, p, v) in log.iter() {
        assert!(v.color != 0);
        for z in p.z as usize..p.z as usize + size {
            for y in p.y as usize..p.y as usize + size {
                for x in p.x as usize..p.x as usize + size {
                    let i = z * s * s + y * s + x;
                    assert_eq!(t.vol.data[i].color, v.color);
                    hits[i] += 1;
                }
            }
        }
    }
    for i in 0..s * s * s {
        let expected = if t.vol.data[i].color != 0 { 1 } else { 0 };
        assert_eq!(hits[i], expected, "voxel {}", i);
    }
}

#[test]
fn draw_covers_each_voxel_once() {
    let mut t: Octree<u8> = Octree::new_from_size(8);
    t.fill(0, 0, 0, 8, 8, 8, 3.into());
    t.fill(2, 3, 1, 3, 2, 5, 7.into());
    t.set(7, 7, 7, 0.into());
    t.set(0, 5, 6, 9.into());
    t.recompute();
    assert_covers(&t);
}

#[test]
fn draw_covers_a_sparse_volume() {
    let mut t: Octree<u8> = Octree::new_from_size(16);
    let mut k: u32 = 1;
    for z in 0..16u16 {
        for y in 0..16u16 {
            for x in 0..16u16 {
                k = k.wrapping_mul(1103515245).wrapping_add(12345);
                if (k >> 16) % 5 == 0 {
                    t.set(x, y, z, (((k >> 8) % 3) as u8 + 1).into());
                }
            }
        }
    }
    t.recompute();
    assert_covers(&t);
}

#[test]
fn empty_volume_draws_nothing() {
    let mut t: Octree<u8> = Octree::new_from_size(4);
    let root = t.recompute();
    assert!(root.empty);
    assert_eq!(root.voxel, None);
    assert!(draw_log(&t).is_empty());
}

#[test]
fn recompute_twice_changes_nothing() {
    let mut t: Octree<u8> = Octree::new_from_size(8);
    t.fill(1, 1, 1, 5, 5, 5, 4.into());
    t.set(3, 3, 3, 6.into());
    let first = t.recompute();
    let nodes = t.nodes.clone();
    let data = t.vol.data.clone();
    let second = t.recompute();
    assert_eq!(first, second);
    assert_eq!(t.nodes, nodes);
    assert_eq!(t.vol.data, data);
}

#[test]
fn set_then_get_reads_back() {
    let mut t: Octree<u8> = Octree::new_from_size(4);
    t.set(1, 2, 3, 5.into());
    assert_eq!(t.get(1, 2, 3).color, 5);
    assert_eq!(t.get(3, 2, 1).color, 0);
    t.set_inv_y(1, 0, 2, 8.into());
    assert_eq!(t.get_inv_y(1, 0, 2).color, 8);
    assert_eq!(t.get(1, 3, 2).color, 8);
}

#[test]
fn fill_covers_exactly_its_box() {
    let mut v: Vol<u8> = Vol::new(4);
    v.fill(1, 0, 2, 2, 3, 1, 9.into());
    let mut n = 0;
    for z in 0..4u16 {
        for y in 0..4u16 {
            for x in 0..4u16 {
                let inside = (1..3).contains(&x) && (0..3).contains(&y) && z == 2;
                let c = v.at(Pos::new(x, y, z)).color;
                assert_eq!(c, if inside { 9 } else { 0 });
                if inside {
                    n += 1;
                }
            }
        }
    }
    assert_eq!(n, 6);
}

#[test]
fn vol_get_computes_faces() {
    let mut v: Vol<u8> = Vol::new(3);
    v.set(1, 1, 1, 2.into());
    v.set(2, 1, 1, 2.into());
    let f = v.get(Pos::new(1, 1, 1)).faces;
    // every neighbour but the right one is empty
    assert_eq!(f, 0x01 | 0x02 | 0x04 | 0x08 | 0x20);
    let f = v.get(Pos::new(2, 1, 1)).faces;
    assert_eq!(f, 0x3F & !0x08);
}

#[test]
fn node_count_per_size() {
    assert_eq!(Octree::<u8>::new_from_size(1).nodes.len(), 2);
    assert_eq!(Octree::<u8>::new_from_size(2).nodes.len(), 2);
    assert_eq!(Octree::<u8>::new_from_size(4).nodes.len(), 10);
    assert_eq!(Octree::<u8>::new_from_size(8).nodes.len(), 74);
    let t = Octree::<u8>::new_from_size(8);
    assert_eq!(t.nodes_size, 4);
    assert!(t.nodes.iter().all(|n| *n == OctNode::default()));
    assert!(t.vol.data.iter().all(|v| *v == Voxel::default()));
}

#[test]
fn tree_positions_index_levels() {
    let root = TreePos::new();
    assert_eq!(root.idx(), 0);
    let c = root.lvl_offs(1, 0, 1);
    assert_eq!((c.offs, c.level, c.x, c.y, c.z), (1, 1, 1, 0, 1));
    assert_eq!(c.idx(), 1 + 4 + 1);
    let g = c.lvl_offs(0, 1, 1);
    assert_eq!((g.offs, g.level, g.x, g.y, g.z), (9, 2, 2, 1, 3));
    assert_eq!(g.idx(), 9 + 3 * 16 + 4 + 2);
}

#[test]
fn positions_and_masks() {
    let p = Pos::new(1, 2, 3);
    let q = p.offs(1, 1, 1).mul(2);
    assert_eq!((q.x, q.y, q.z), (4, 6, 8));
    assert_eq!(xyz2facemask(0, 1, 0), 0xFF);
    let n: OctNode<u8> = OctNode::new();
    assert!(n.empty);
    assert_eq!(n.voxel, None);
    let d: OctNode<u8> = OctNode::default();
    assert!(!d.empty);
}
