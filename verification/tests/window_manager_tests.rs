use sscg::gui::{BoxDir, Label, Size, Window};
use sscg::window_manager::WindowManager;

const FG: (u8, u8, u8, u8) = (200, 100, 50, 255);
const BG: (u8, u8, u8, u8) = (0, 0, 0, 255);

fn fixed(min_w: u32, min_h: u32) -> Size {
    Size { min_w, w: 0, min_h, h: 0, margin: 0 }
}

fn small_window(name: &str) -> Window {
    let mut w = Window::new();
    let a = w.add_label(fixed(50, 20), Label::new(name, FG, BG).lblref(name).clickable());
    let b = w.add_label(fixed(50, 20), Label::new("text", FG, BG).lblref("info"));
    let l = w.add_layout(fixed(0, 0), BoxDir::Vert(4), &[a, b]);
    w.child = l;
    w.title = name.to_string();
    w
}

#[test]
fn set_adds_empty_slots_up_to_the_index() {
    let mut wm: WindowManager<u32> = WindowManager::new();
    assert_eq!(wm.set(2, small_window("a"), 7), 2);
    assert_eq!(wm.windows.len(), 3);
    assert_eq!(wm.ev_cbs, vec![None, None, Some(7)]);
    assert!(wm.windows[0].is_none() && wm.windows[1].is_none() && wm.windows[2].is_some());
    assert_eq!(wm.set(0, small_window("b"), 5), 0);
    assert_eq!(wm.windows.len(), 3);
    assert_eq!(wm.ev_cbs, vec![Some(5), None, Some(7)]);
    assert!(!wm.need_redraw);
}

#[test]
fn delete_closes_a_window_and_asks_for_a_redraw() {
    let mut wm: WindowManager<u32> = WindowManager::new();
    wm.set(1, small_window("a"), 7);
    wm.delete(5);
    assert!(!wm.need_redraw);
    assert_eq!(wm.windows.len(), 2);
    wm.delete(1);
    assert!(wm.windows[1].is_none());
    assert_eq!(wm.ev_cbs, vec![None, None]);
    assert!(wm.need_redraw);
    assert!(wm.some_win_needs_redraw());
    wm.redraw_done();
    assert!(!wm.need_redraw);
    assert!(!wm.some_win_needs_redraw());
}

#[test]
fn labels_are_read_and_set_per_window() {
    let mut wm: WindowManager<u32> = WindowManager::new();
    wm.set(0, small_window("a"), 1);
    wm.set(2, small_window("b"), 2);
    assert_eq!(wm.get_label_text(0, "info"), Some("text".to_string()));
    assert_eq!(wm.get_label_text(1, "info"), None);
    assert_eq!(wm.get_label_text(9, "info"), None);
    assert_eq!(wm.get_label_text(2, "nothing"), None);
    wm.set_label_text(2, "info", "new".to_string());
    assert_eq!(wm.get_label_text(2, "info"), Some("new".to_string()));
    assert_eq!(wm.get_label_text(0, "info"), Some("text".to_string()));
    wm.set_label_text(7, "info", "ignored".to_string());
    assert!(wm.some_win_needs_redraw());
}

#[test]
fn activations_come_in_slot_order_once() {
    let mut wm: WindowManager<&str> = WindowManager::new();
    wm.set(0, small_window("first"), "cb0");
    wm.set(1, small_window("second"), "cb1");
    wm.set(3, small_window("third"), "cb3");
    assert_eq!(wm.get_activated_childs(), None);
    wm.windows[3].as_mut().unwrap().activ_child = Some(0);
    wm.windows[0].as_mut().unwrap().activ_child = Some(0);
    // an activated layout is taken but yields no label
    wm.windows[1].as_mut().unwrap().activ_child = Some(2);
    let acts = wm.get_activated_childs().unwrap();
    assert_eq!(
        acts,
        vec![(0, "first".to_string(), Some("cb0")), (3, "third".to_string(), Some("cb3"))]
    );
    assert!(wm.windows.iter().flatten().all(|w| w.activ_child.is_none()));
    assert_eq!(wm.get_activated_childs(), None);
}

#[test]
fn for_each_window_visits_present_windows() {
    let mut wm: WindowManager<u32> = WindowManager::new();
    wm.set(0, small_window("a"), 1);
    wm.set(2, small_window("b"), 2);
    wm.set(3, small_window("c"), 3);
    let mut seen = vec![];
    wm.for_each_window(|w| seen.push(w.title.clone()));
    assert_eq!(seen, vec!["a", "b", "c"]);
    let mut order = vec![];
    wm.for_each_window_reverse(|w| order.push(w.title.clone()));
    assert_eq!(order, vec!["c", "b", "a"]);
    let mut count = 0;
    wm.for_each_window_stop_on_true(|w| {
        count += 1;
        w.needs_redraw = true;
        count == 2
    });
    assert_eq!(count, 2);
    assert!(wm.windows[0].as_ref().unwrap().needs_redraw);
    assert!(wm.windows[2].as_ref().unwrap().needs_redraw);
    assert!(!wm.windows[3].as_ref().unwrap().needs_redraw);
    assert!(wm.some_win_needs_redraw());
}

#[test]
fn window_state_lists_each_label_name_and_text() {
    let mut wm: WindowManager<u32> = WindowManager::new();
    wm.set(1, small_window("a"), 7);
    assert_eq!(wm.window_label_texts(0), None);
    assert_eq!(wm.window_label_texts(4), None);
    assert_eq!(
        wm.window_label_texts(1),
        Some(vec![("a".to_string(), "a".to_string()), ("info".to_string(), "text".to_string())])
    );
}
