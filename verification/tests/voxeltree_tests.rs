use sscg::octree::Octree;
use sscg::voxeltree::{Pos, Vol, Voxel, F_BACK, F_BOTTOM, F_FRONT, F_LEFT, F_RIGHT, F_TOP};

#[test]
fn check_octree_n1_filled() {
    let mut t: Octree<u8> = Octree::new_from_size(2);
    t.fill(0, 0, 0, 2, 2, 2, 10.into());
    let _n = t.recompute();

    let mut log = vec![];
    t.draw(&mut |size, pos: &Pos, v: Voxel<u8>| {
        log.push((size, (pos.x, pos.y, pos.z), v.color, v.faces));
    });

    assert_eq!(log[0], (2, (0, 0, 0), 10, 63));
}

#[test]
fn check_octree_n1_partial_minus_1() {
    let mut t: Octree<u8> = Octree::new_from_size(4);
    t.fill(0, 0, 0, 4, 4, 4, 10.into());
    t.set(0, 0, 0, 12.into());
    let _n = t.recompute();

    let mut log = vec![];
    t.draw(&mut |size, pos: &Pos, v: Voxel<u8>| {
        log.push((size, (pos.x, pos.y, pos.z), v.color, v.faces));
    });
    for l in log.iter() {
        println!("E {:?} {:x}", l, l.3);
    }
    for (i, n) in t.nodes.iter().enumerate() {
        println!("AT {}: {:?}", i, n);
    }

    assert_eq!(log[0], (1, (0, 0, 0), 12, F_FRONT | F_LEFT | F_TOP));
    assert_eq!(log[1], (1, (1, 0, 0), 10, F_FRONT | F_TOP));
    assert_eq!(log[2], (1, (0, 1, 0), 10, F_FRONT | F_LEFT));
    assert_eq!(log[3], (1, (1, 1, 0), 10, F_FRONT));
    assert_eq!(log[4], (1, (0, 0, 1), 10, F_LEFT | F_TOP));
    assert_eq!(log[5], (1, (1, 0, 1), 10, F_TOP));
    assert_eq!(log[6], (1, (0, 1, 1), 10, F_LEFT));
    assert_eq!(log[7], (1, (1, 1, 1), 10, 0x00));
    assert_eq!(log[8], (2, (2, 0, 0), 10, F_RIGHT | F_FRONT | F_TOP));
}

#[test]
fn check_octree_n2_filled() {
    let v: Vol<u8> = Vol::new(4);
    let mut t: Octree<u8> = Octree::new(64, v);
    t.fill(0, 0, 0, 4, 4, 4, 10.into());
    let n = t.recompute();

    assert_eq!(n.voxel.unwrap().color, 10);
    assert_eq!(n.voxel.unwrap().faces, 0x3F);
    assert_eq!(t.nodes[0].voxel.unwrap().color, 10);
    assert_eq!(t.nodes[0].empty, false);

    let mut first: Option<(usize, Pos, Voxel<u8>)> = None;
    let mut last: Option<(usize, Pos, Voxel<u8>)> = None;
    t.draw(&mut |size, pos: &Pos, v: Voxel<u8>| {
        if first.is_none() {
            first = Some((size, *pos, v));
        }
        last = Some((size, *pos, v));
    });

    let first = first.unwrap();
    assert_eq!((first.0, first.1.x, first.1.y, first.1.z), (4, 0, 0, 0));
    assert_eq!(first.2.color, 10);
    assert_eq!(first.2.faces, 0x3f);

    let last = last.unwrap();
    assert_eq!((last.0, last.1.x, last.1.y, last.1.z), (4, 0, 0, 0));
    assert_eq!(last.2.color, 10);
    assert_eq!(last.2.faces, 0x3f);
}

#[test]
fn check_octree_n2_broken() {
    let v: Vol<u8> = Vol::new(4);
    let mut t: Octree<u8> = Octree::new(64, v);
    t.fill(0, 0, 0, 4, 4, 4, 10.into());
    t.set(3, 3, 3, 20.into());
    let n = t.recompute();

    assert_eq!(n.voxel, None);
    // first layer:
    assert_eq!(t.nodes[1].voxel.unwrap().color, 10);
    assert_eq!(t.nodes[1].empty, false);
    assert_eq!(t.nodes[2].voxel.unwrap().color, 10);
    assert_eq!(t.nodes[2].empty, false);
    assert_eq!(t.nodes[3].voxel.unwrap().color, 10);
    assert_eq!(t.nodes[3].empty, false);
    assert_eq!(t.nodes[4].voxel.unwrap().color, 10);
    assert_eq!(t.nodes[4].empty, false);

    // second layer:
    assert_eq!(t.nodes[5].voxel.unwrap().color, 10);
    assert_eq!(t.nodes[5].empty, false);
    assert_eq!(t.nodes[6].voxel.unwrap().color, 10);
    assert_eq!(t.nodes[6].empty, false);
    assert_eq!(t.nodes[7].voxel.unwrap().color, 10);
    assert_eq!(t.nodes[7].empty, false);
    assert_eq!(t.nodes[8].voxel, None);
    assert_eq!(t.nodes[8].empty, false);

    let mut first: Option<(usize, Pos, Voxel<u8>)> = None;
    let mut last: Option<(usize, Pos, Voxel<u8>)> = None;
    t.draw(&mut |size, pos: &Pos, v: Voxel<u8>| {
        if first.is_none() {
            first = Some((size, *pos, v));
        }
        last = Some((size, *pos, v));
    });

    let first = first.unwrap();
    assert_eq!((first.0, first.1.x, first.1.y, first.1.z), (2, 0, 0, 0));
    assert_eq!(first.2.color, 10);
    assert_eq!(first.2.faces, F_FRONT | F_LEFT | F_TOP);

    let last = last.unwrap();
    assert_eq!((last.0, last.1.x, last.1.y, last.1.z), (1, 3, 3, 3));
    assert_eq!(last.2.color, 20);
    assert_eq!(last.2.faces, F_BACK | F_RIGHT | F_BOTTOM);
}

#[test]
fn check_n3_filled() {
    let v: Vol<u8> = Vol::new(8);
    let mut t: Octree<u8> = Octree::new(8 * 8 * 8, v);
    t.fill(0, 0, 0, 8, 8, 8, 11.into());
    let n = t.recompute();

    assert_eq!(n.voxel.unwrap().color, 11);
    assert_eq!(n.voxel.unwrap().faces, 0x3F);
    assert_eq!(t.nodes[0].voxel.unwrap().color, 11);
    assert_eq!(t.nodes[0].empty, false);

    let mut first: Option<(usize, Pos, Voxel<u8>)> = None;
    let mut last: Option<(usize, Pos, Voxel<u8>)> = None;
    t.draw(&mut |size, pos: &Pos, v: Voxel<u8>| {
        if first.is_none() {
            first = Some((size, *pos, v));
        }
        last = Some((size, *pos, v));
    });

    let first = first.unwrap();
    assert_eq!((first.0, first.1.x, first.1.y, first.1.z), (8, 0, 0, 0));
    assert_eq!(first.2.color, 11);
    assert_eq!(first.2.faces, 0x3f);

    let last = last.unwrap();
    assert_eq!((last.0, last.1.x, last.1.y, last.1.z), (8, 0, 0, 0));
    assert_eq!(last.2.color, 11);
    assert_eq!(last.2.faces, 0x3f);
}

#[test]
fn check_n256_filled() {
    let v: Vol<u8> = Vol::new(256);
    let mut t: Octree<u8> = Octree::new(256 * 256 * 256, v);
    let d = std::time::Instant::now();
    t.fill(0, 0, 0, 256, 256, 256, 11.into());
    println!("TF={}", d.elapsed().as_millis());
    let n = t.recompute();

    println!("T={}", d.elapsed().as_millis());

    assert_eq!(n.voxel.unwrap().color, 11);
    assert_eq!(n.voxel.unwrap().faces, 0x3F);
    assert_eq!(t.nodes[0].voxel.unwrap().color, 11);
    assert_eq!(t.nodes[0].empty, false);

    let mut first: Option<(usize, Pos, Voxel<u8>)> = None;
    let mut last: Option<(usize, Pos, Voxel<u8>)> = None;
    t.draw(&mut |size, pos: &Pos, v: Voxel<u8>| {
        if first.is_none() {
            first = Some((size, *pos, v));
        }
        last = Some((size, *pos, v));
    });

    let first = first.unwrap();
    assert_eq!((first.0, first.1.x, first.1.y, first.1.z), (256, 0, 0, 0));
    assert_eq!(first.2.color, 11);
    assert_eq!(first.2.faces, 0x3f);

    let last = last.unwrap();
    assert_eq!((last.0, last.1.x, last.1.y, last.1.z), (256, 0, 0, 0));
    assert_eq!(last.2.color, 11);
    assert_eq!(last.2.faces, 0x3f);
}

#[test]
fn check_size8_1() {
    let mut ot: Octree<u8> = Octree::new_from_size(8);
    ot.fill(0, 0, 0, 4, 4, 4, 1.into());
    ot.fill(4, 4, 4, 4, 4, 4, 2.into());
    ot.recompute();

    let mut log = vec![];
    ot.draw(&mut |size, pos: &Pos, v: Voxel<u8>| {
        log.push((size, (pos.x, pos.y, pos.z), v.color, v.faces));
    });
    for l in log.iter() {
        println!("E {:?} {:x}", l, l.3);
    }

    assert_eq!(log[0], (4, (0, 0, 0), 1, 63));
    assert_eq!(log[1], (4, (4, 4, 4), 2, 63));
    assert_eq!(log.len(), 2);
}

#[test]
fn check_smal() {
    let mut ot: Octree<u8> = Octree::new_from_size(4);
    ot.set(2, 2, 2, 1.into());
    let _n = ot.recompute();
    let mut log = vec![];
    ot.draw(&mut |size, pos: &Pos, v: Voxel<u8>| {
        log.push((size, (pos.x, pos.y, pos.z), v.color, v.faces));
    });

    assert_eq!(log[0], (1, (2, 2, 2), 1, 63));
}
