use sscg::voxel_structure::VoxStruct;
use sscg::voxeltree::Pos;

fn loaded() -> VoxStruct {
    let mut s = VoxStruct::new();
    s.add_octrees();
    s.vol.fill(0, 0, 0, 128, 128, 128, 100.into());
    s.vol.set(17, 3, 40, 0.into());
    s.vol.set(0, 0, 0, 7.into());
    s.load_vol();
    s
}

#[test]
fn subvolumes_mirror_the_volume() {
    let s = loaded();
    assert_eq!(s.octrees.len(), 512);
    // (17, 3, 40) lies in subvolume z 2, y 0, x 1 at (1, 3, 8)
    assert_eq!(s.octrees[2 * 64 + 1].get(1, 3, 8).color, 0);
    assert_eq!(s.octrees[2 * 64 + 1].get(1, 4, 8).color, 100);
    assert_eq!(s.octrees[0].get(0, 0, 0).color, 7);
    assert_eq!(s.octrees[511].get(15, 15, 15).color, 100);
    for x in [0u16, 15, 16, 127] {
        let v = s.vol.at(Pos::new(x, 127, 64)).color;
        let o = &s.octrees[4 * 64 + 7 * 8 + (x as usize) / 16];
        assert_eq!(o.get(x % 16, 15, 0).color, v);
    }
}

#[test]
fn looking_and_mining() {
    let mut s = loaded();
    // y is counted from the bottom of the subvolume: cursor y 12 is row 3
    assert!(!s.looking_at([17, 12, 40]));
    assert!(s.box_in_focus);
    assert!(s.looking_at([5, 5, 5]));
    assert_eq!(s.mine_info_at(), 100);
    let r = s.mine();
    let (idx, root) = r.unwrap();
    assert_eq!(idx, 0);
    assert!(!root.empty);
    assert_eq!(s.mine_info_at(), 0);
    assert_eq!(s.octrees[0].get(5, 10, 5).color, 0);
    assert!(s.mine().is_none());
    assert!(!s.looking_at([5, 5, 5]));
    assert!(s.looking_at_nothing());
    assert!(!s.looking_at_nothing());
}

#[test]
fn reload_reports_an_empty_subvolume() {
    let mut s = VoxStruct::new();
    s.add_octrees();
    s.load_vol();
    let (idx, root) = s.reload_at(127, 0, 20);
    assert_eq!(idx, 64 + 7);
    assert!(root.empty);
}
