use sscg::voxel_vol::InstVoxVolume;

fn color(v: &InstVoxVolume, x: u16, y: u16, z: u16) -> u8 {
    v.octree.as_ref().unwrap().get(x, y, z).color
}

#[test]
fn the_demonstration_volume_is_set_up() {
    let mut v = InstVoxVolume::new();
    assert!(v.octree.is_none());
    let n = v.ready();
    assert!(!n.empty);
    assert_eq!(color(&v, 3, 3, 3), 128);
    assert_eq!(color(&v, 1, 1, 1), 0);
    assert_eq!(color(&v, 2, 2, 2), 0);
    assert_eq!(color(&v, 0, 0, 0), 0);
    assert_eq!(color(&v, 1, 1, 0), 0);
    assert_eq!(color(&v, 2, 1, 0), 128);
    assert_eq!(color(&v, 5, 6, 7), 240);
    assert_eq!(color(&v, 15, 8, 12), 250);
    assert_eq!(color(&v, 0, 7, 0), 72);
    assert_eq!(color(&v, 0, 7, 7), 23);
    assert_eq!(color(&v, 12, 0, 0), 0);
}

#[test]
fn the_focus_box_shows_and_hides_once() {
    let mut v = InstVoxVolume::new();
    v.ready();
    assert!(v.looking_at([1, 2, 3]));
    assert!(!v.looking_at([2, 2, 3]));
    assert_eq!(v.cursor, [2, 2, 3]);
    assert!(v.looking_at_nothing());
    assert!(!v.looking_at_nothing());
}

#[test]
fn mining_empties_the_voxel_once() {
    let mut v = InstVoxVolume::new();
    v.ready();
    // y counts from the bottom: cursor y 12 is stored row 3
    v.looking_at([3, 12, 3]);
    assert_eq!(v.mine_info_at(), 128);
    let (c, n) = v.mine().unwrap();
    assert_eq!(c, 128);
    assert!(!n.empty);
    assert_eq!(color(&v, 3, 3, 3), 0);
    assert_eq!(v.mine_info_at(), 0);
    assert!(v.mine().is_none());
    v.looking_at([15, 0, 15]);
    assert_eq!(v.mine().unwrap().0, 250);
    assert_eq!(color(&v, 15, 15, 15), 0);
}
