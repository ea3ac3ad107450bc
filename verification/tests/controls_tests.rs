use sscg::controls::{route_click, scroll_by, scroll_speed, ClickAction, ScrollKey};

#[test]
fn held_keys_give_the_scroll_speed_the_later_key_winning() {
    assert_eq!(scroll_speed(&vec![]), (0, 0));
    assert_eq!(scroll_speed(&vec![ScrollKey::Up, ScrollKey::Right]), (2, -2));
    assert_eq!(scroll_speed(&vec![ScrollKey::Left, ScrollKey::Other, ScrollKey::Right, ScrollKey::Down]), (2, 2));
    assert_eq!(scroll_speed(&vec![ScrollKey::Down, ScrollKey::Up]), (0, -2));
}

#[test]
fn scrolling_stays_within_the_map() {
    assert_eq!(scroll_by((10, 20), 5, -7), (15, 13));
    assert_eq!(scroll_by((995, 3), 30, -30), (1000, 0));
    assert_eq!(scroll_by((0, 1000), -1, 1), (0, 1000));
}

#[test]
fn a_click_no_window_took_sets_the_course() {
    assert!(matches!(route_click(true, true, Some((1, 2)), Some((3, 4))), ClickAction::Handled));
    assert!(matches!(route_click(false, false, Some((1, 2)), Some((3, 4))), ClickAction::Ignored));
    assert!(matches!(route_click(false, true, Some((1, 2)), Some((3, 4))), ClickAction::CourseTo(1, 2)));
    assert!(matches!(route_click(false, true, None, Some((3, 4))), ClickAction::CourseTo(3, 4)));
    assert!(matches!(route_click(false, true, None, None), ClickAction::Ignored));
}
