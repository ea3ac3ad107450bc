use sscg::gui::{p2r, BoxDir, HAlign, Label, Size, Widget, WidgetFeedback, Window, WindowEvent};
use sscg::logic::{GamePainter, PaintOp};

/// A painter that records its calls, measures text as 8 by 16 pixels per
/// character and reports the current offset as the screen position.
struct RecPainter {
    offs: Vec<(i32, i32)>,
    calls: Vec<String>,
    fills: Vec<(u8, u8, u8, u8)>,
}

impl RecPainter {
    fn new() -> Self {
        RecPainter { offs: vec![(0, 0)], calls: vec![], fills: vec![] }
    }

    fn cur(&self) -> (i32, i32) {
        *self.offs.last().unwrap()
    }
}

impl GamePainter for RecPainter {
    fn ops(&self) -> Vec<PaintOp> {
        unreachable!("the record of calls is read by contracts only")
    }
    fn screen_pos(&self, xo: i32, yo: i32) -> (i32, i32) {
        self.get_screen_pos(xo, yo)
    }
    fn saved_offs(&self) -> Vec<(i32, i32)> {
        self.offs[..self.offs.len() - 1].to_vec()
    }
    fn push_offs(&mut self, xo: i32, yo: i32) {
        self.offs.push((xo, yo));
    }
    fn push_add_offs(&mut self, xo: i32, yo: i32) {
        let c = self.cur();
        self.offs.push((c.0 + xo, c.1 + yo));
    }
    fn pop_offs(&mut self) {
        if self.offs.len() > 1 {
            self.offs.pop();
        }
    }
    fn get_screen_pos(&self, xo: i32, yo: i32) -> (i32, i32) {
        let c = self.cur();
        (c.0 + xo, c.1 + yo)
    }
    fn get_sprite_size(&self, _id: usize) -> (u32, u32) {
        (0, 0)
    }
    fn disable_clip_rect(&mut self) {
        self.calls.push("noclip".to_string());
    }
    fn set_clip_rect(&mut self, xo: i32, yo: i32, w: u32, h: u32) {
        self.calls.push(format!("clip {} {} {} {}", xo, yo, w, h));
    }
    fn draw_rect(&mut self, xo: i32, yo: i32, w: u32, h: u32, _color: (u8, u8, u8, u8)) {
        self.calls.push(format!("rect {} {} {} {}", xo, yo, w, h));
    }
    fn draw_rect_filled(&mut self, xo: i32, yo: i32, w: u32, h: u32, color: (u8, u8, u8, u8)) {
        self.fills.push(color);
        self.calls.push(format!("fill {} {} {} {}", xo, yo, w, h));
    }
    fn draw_dot(&mut self, xo: i32, yo: i32, r: u32, _color: (u8, u8, u8, u8)) {
        self.calls.push(format!("dot {} {} {}", xo, yo, r));
    }
    fn draw_circle(&mut self, xo: i32, yo: i32, r: u32, _color: (u8, u8, u8, u8)) {
        self.calls.push(format!("circle {} {} {}", xo, yo, r));
    }
    fn draw_line(&mut self, xo: i32, yo: i32, x2o: i32, y2o: i32, t: u32, _color: (u8, u8, u8, u8)) {
        self.calls.push(format!("line {} {} {} {} {}", xo, yo, x2o, y2o, t));
    }
    fn text_size(&mut self, txt: &str) -> (u32, u32) {
        (8 * txt.chars().count() as u32, 16)
    }
    fn draw_text(
        &mut self,
        xo: i32,
        yo: i32,
        max_w: u32,
        _fg: (u8, u8, u8, u8),
        _bg: Option<(u8, u8, u8, u8)>,
        _align: i32,
        txt: &str,
    ) {
        self.calls.push(format!("text {} {} {} {}", xo, yo, max_w, txt));
    }
}

const FG: (u8, u8, u8, u8) = (200, 100, 50, 255);
const BG: (u8, u8, u8, u8) = (0, 0, 0, 255);

fn fixed(min_w: u32, min_h: u32) -> Size {
    Size { min_w, w: 0, min_h, h: 0, margin: 0 }
}

#[test]
fn label_new_defaults() {
    let l = Label::new("Hello", FG, BG);
    assert_eq!(l.text, "Hello");
    assert_eq!(l.lblref, "");
    assert_eq!(l.align, 1);
    assert!(!l.wrap && !l.editable && !l.clickable);
    assert_eq!(l.edit_regex, ".*");
    assert_eq!(l.hlt_color, (55, 155, 205, 255));
    assert_eq!(l.fg_color, FG);
    assert_eq!(l.bg_color, BG);
}

#[test]
fn label_builders() {
    let l = Label::new("x", FG, BG).lblref("name").clickable().right().wrap();
    assert_eq!(l.lblref, "name");
    assert!(l.clickable && l.wrap);
    assert_eq!(l.align, -1);
    assert_eq!(Label::new("x", FG, BG).center().align, 0);
    assert_eq!(Label::new("x", FG, BG).center_no_decor().align, 2);
    assert_eq!(Label::new("x", FG, BG).right().left().align, 1);
    let e = Label::new("12", FG, BG).editable("^[0-9]*$");
    assert!(e.editable);
    assert_eq!(e.edit_regex, "^[0-9]*$");
}

#[test]
fn p2r_per_mille_and_absolute() {
    assert_eq!(p2r(200, 1000), 200);
    assert_eq!(p2r(200, 500), 100);
    assert_eq!(p2r(333, 100), 33);
    assert_eq!(p2r(200, -40), 40);
    assert_eq!(p2r(0, 1000), 0);
}

#[test]
fn size_with_margin_and_minimum() {
    let s = Size { min_w: 10, w: 500, min_h: 50, h: 100, margin: 2 };
    assert_eq!(s.size(200, 100), (104, 54));
    let s = Size { min_w: 10, w: 0, min_h: 0, h: 0, margin: 0 };
    assert_eq!(s.size(200, 100), (10, 0));
}

#[test]
fn halign_offsets() {
    assert_eq!(HAlign::Left.xoffs(10, 50), 0);
    assert_eq!(HAlign::Right.xoffs(10, 50), 40);
    assert_eq!(HAlign::Center.xoffs(10, 50), 20);
}

#[test]
fn feedback_contains_its_borders() {
    let fb = WidgetFeedback { id: 3, x: 10, y: 20, w: 5, h: 5 };
    assert!(fb.is_inside(10, 20));
    assert!(fb.is_inside(15, 25));
    assert!(!fb.is_inside(16, 25));
    assert!(!fb.is_inside(9, 22));
    let z = WidgetFeedback::new();
    assert_eq!((z.id, z.x, z.y, z.w, z.h), (0, 0, 0, 0, 0));
}

fn sample_window() -> Window {
    let mut w = Window::new();
    let a = w.add_label(fixed(50, 20), Label::new("Start", FG, BG).lblref("start").clickable());
    let b = w.add_label(fixed(50, 20), Label::new("12", FG, BG).lblref("num").editable("^[0-9]*$"));
    let c = w.add_label(fixed(50, 20), Label::new("info", FG, BG).lblref("info"));
    let l = w.add_layout(fixed(0, 0), BoxDir::Vert(4), &[a, b, c]);
    w.child = l;
    w.title = "Win".to_string();
    w.w = 1000;
    w.h = 1000;
    w
}

#[test]
fn widget_ids_are_indices() {
    let w = sample_window();
    for (i, wid) in w.widgets.iter().enumerate() {
        assert_eq!(wid.id(), i);
    }
    match &w.widgets[3] {
        Widget::Layout(_, _, l) => assert_eq!(l.childs, vec![0, 1, 2]),
        _ => panic!("layout expected"),
    }
}

#[test]
fn label_text_get_and_set() {
    let mut w = sample_window();
    assert_eq!(w.get_label_text("info"), Some("info".to_string()));
    assert_eq!(w.get_label_text("missing"), None);
    assert!(!w.needs_redraw());
    w.set_label_text("info", "changed".to_string());
    assert_eq!(w.get_label_text("info"), Some("changed".to_string()));
    assert!(w.needs_redraw());
    let mut v = sample_window();
    v.set_label_text("missing", "x".to_string());
    assert!(!v.needs_redraw());
}

#[test]
fn window_draw_frame_and_feedback() {
    let mut w = sample_window();
    let mut p = RecPainter::new();
    w.draw(200, 100, &mut p);
    let f = w.win_feedback;
    assert_eq!((f.x, f.y, f.w, f.h), (0, 0, 200, 100));
    assert_eq!(w.feedback.len(), 4);
    // labels are laid out top to bottom, 4 pixels apart, below the title bar
    let ys: Vec<u32> = (0..3).map(|i| w.feedback[i].y).collect();
    assert_eq!(ys, vec![24, 45, 69]);
    assert!(w.feedback.iter().all(|f| f.x == 4));
    let ids: Vec<usize> = w.feedback.iter().map(|f| f.id).collect();
    assert_eq!(ids, vec![0, 1, 2, 3]);
    // the clickable label rounds its height to an odd number: 17
    assert_eq!((w.feedback[0].w, w.feedback[0].h), (50, 17));
    // the editable field gains an 8 pixel border
    assert_eq!((w.feedback[1].w, w.feedback[1].h), (58, 20));
    assert_eq!((w.feedback[2].w, w.feedback[2].h), (50, 20));
    // the layout: as wide as its widest child, as high as the stack
    assert_eq!((w.feedback[3].w, w.feedback[3].h), (58, 65));
    assert!(p.calls.contains(&"text 28 0 24 Win".to_string()));
    assert_eq!(p.offs.len(), 1);
}

#[test]
fn window_frame_grows_to_fit_decoration() {
    let mut w = sample_window();
    w.w = 100;
    w.h = 100;
    let mut p = RecPainter::new();
    w.draw(200, 100, &mut p);
    let f = w.win_feedback;
    assert_eq!((f.w, f.h), (76, 76));
}

#[test]
fn hover_click_and_collect() {
    let mut w = sample_window();
    let mut p = RecPainter::new();
    w.draw(200, 100, &mut p);
    assert!(w.handle_event(WindowEvent::MousePos(10, 25)));
    assert_eq!(w.hover_child, Some(0));
    assert!(!w.handle_event(WindowEvent::MousePos(500, 25)));
    assert_eq!(w.hover_child, Some(0));
    assert!(w.handle_event(WindowEvent::MousePos(10, 70)));
    assert_eq!(w.hover_child, None);
    assert!(w.handle_event(WindowEvent::Click(10, 25)));
    assert_eq!(w.activ_child, Some(0));
    assert_eq!(w.focus_child, None);
    assert_eq!(w.collect_activated_child(), Some("start".to_string()));
    assert_eq!(w.collect_activated_child(), None);
}

#[test]
fn typing_into_a_field_follows_its_pattern() {
    let mut w = sample_window();
    let mut p = RecPainter::new();
    w.draw(200, 100, &mut p);
    assert!(w.handle_event(WindowEvent::Click(10, 45)));
    assert_eq!(w.focus_child, Some(1));
    assert_eq!(w.activ_child, None);
    assert!(w.handle_event(WindowEvent::TextInput("3".to_string())));
    assert_eq!(w.get_label_text("num"), Some("123".to_string()));
    assert!(w.handle_event(WindowEvent::TextInput("a".to_string())));
    assert_eq!(w.get_label_text("num"), Some("123".to_string()));
    assert!(w.handle_event(WindowEvent::Backspace));
    assert!(w.handle_event(WindowEvent::Backspace));
    assert_eq!(w.get_label_text("num"), Some("1".to_string()));
    assert!(w.handle_event(WindowEvent::Backspace));
    assert!(w.handle_event(WindowEvent::Backspace));
    assert_eq!(w.get_label_text("num"), Some("".to_string()));
}

#[test]
fn an_invalid_pattern_refuses_all_input() {
    let mut w = Window::new();
    let id = w.add_label(fixed(50, 20), Label::new("", FG, BG).lblref("f").editable("(["));
    w.focus_child = Some(id);
    assert!(w.handle_event(WindowEvent::TextInput("x".to_string())));
    assert_eq!(w.get_label_text("f"), Some("".to_string()));
}

#[test]
fn input_without_focus_changes_nothing() {
    let mut w = sample_window();
    assert!(w.handle_event(WindowEvent::TextInput("9".to_string())));
    assert!(w.handle_event(WindowEvent::Backspace));
    assert_eq!(w.get_label_text("num"), Some("12".to_string()));
    assert_eq!(w.get_label_text("start"), Some("Start".to_string()));
}

#[test]
fn label_at_takes_the_first_match() {
    let mut w = sample_window();
    w.feedback = vec![
        WidgetFeedback { id: 0, x: 0, y: 0, w: 10, h: 10 },
        WidgetFeedback { id: 1, x: 0, y: 0, w: 10, h: 10 },
        WidgetFeedback { id: 2, x: 0, y: 0, w: 10, h: 10 },
    ];
    assert_eq!(w.get_label_at(5, 5, |_l: &Label| true), Some(0));
    assert_eq!(w.get_label_at(5, 5, |l: &Label| l.editable), Some(1));
    assert_eq!(w.get_label_at(5, 5, |l: &Label| l.wrap), None);
    assert_eq!(w.get_label_at(50, 5, |_l: &Label| true), None);
}

#[test]
fn wrapped_label_breaks_lines() {
    let mut w = Window::new();
    let id = w.add_label(
        Size { min_w: 24, w: 0, min_h: 48, h: 0, margin: 0 },
        Label::new("abcdefgh", FG, BG).wrap(),
    );
    w.child = id;
    let mut fb = vec![WidgetFeedback::new()];
    let mut p = RecPainter::new();
    let r = w.widgets[id].draw(&w, &mut fb, 100, 100, &mut p);
    assert_eq!(r, (24, 48));
    assert_eq!((fb[0].w, fb[0].h), (24, 48));
    let texts: Vec<&String> = p.calls.iter().filter(|c| c.starts_with("text")).collect();
    assert_eq!(texts, vec!["text 0 8 24 abc", "text 0 24 24 def", "text 0 40 24 gh"]);
}

#[test]
fn a_box_may_list_widgets_added_after_it() {
    let mut w = Window::new();
    let b = w.add_layout(fixed(0, 0), BoxDir::Vert(4), &[1, 2]);
    w.add_label(fixed(50, 20), Label::new("one", FG, BG).lblref("one"));
    w.add_label(fixed(50, 20), Label::new("two", FG, BG).lblref("two"));
    w.child = b;
    w.w = 1000;
    w.h = 1000;
    let mut p = RecPainter::new();
    w.draw(200, 100, &mut p);
    assert_eq!(w.feedback[1].y, 24);
    assert_eq!(w.feedback[2].y, 48);
    assert_eq!((w.feedback[0].w, w.feedback[0].h), (50, 44));
    assert_eq!(p.offs.len(), 1);
}

#[test]
fn top_widget_sits_below_the_title_bar_and_offsets_are_restored() {
    let mut w = sample_window();
    let mut p = RecPainter::new();
    p.push_offs(7, 9);
    w.draw(200, 100, &mut p);
    // padding 4 from the frame, and 4 plus the title height below it
    assert_eq!((w.feedback[3].x, w.feedback[3].y), (4, 24));
    assert_eq!(p.cur(), (7, 9));
    assert_eq!(p.saved_offs(), vec![(0, 0)]);
}

#[test]
fn a_horizontal_box_places_its_children_side_by_side() {
    let mut w = Window::new();
    let a = w.add_label(fixed(50, 20), Label::new("a", FG, BG));
    let b = w.add_label(fixed(50, 20), Label::new("b", FG, BG));
    let c = w.add_label(fixed(50, 20), Label::new("c", FG, BG));
    let l = w.add_layout(fixed(0, 0), BoxDir::Hori(4), &[a, b, c]);
    w.child = l;
    w.title = "Win".to_string();
    w.w = 1000;
    w.h = 1000;
    let mut p = RecPainter::new();
    w.draw(400, 100, &mut p);
    let xs: Vec<u32> = (0..3).map(|i| w.feedback[i].x).collect();
    assert_eq!(xs, vec![4, 58, 112]);
    assert!((0..3).all(|i| w.feedback[i].y == 24));
    assert_eq!((w.feedback[3].x, w.feedback[3].y), (4, 24));
}

#[test]
fn a_focused_button_is_painted_in_its_highlight_colour() {
    let hlt = (55, 155, 205, 255);
    let mut w = sample_window();
    let mut p = RecPainter::new();
    w.draw(200, 100, &mut p);
    assert!(!p.fills.contains(&hlt));
    assert!(p.calls.iter().any(|c| c.ends_with(" Start")));
    let mut w = sample_window();
    w.focus_child = Some(0);
    let mut p = RecPainter::new();
    w.draw(200, 100, &mut p);
    // the button's left end and its face take the highlight
    assert_eq!(p.fills.iter().filter(|c| **c == hlt).count(), 2);
}

#[test]
fn a_plain_label_paints_its_background_then_its_text() {
    let mut w = Window::new();
    let a = w.add_label(fixed(50, 20), Label::new("info", FG, BG));
    w.child = a;
    let mut fb = vec![WidgetFeedback::new()];
    let mut p = RecPainter::new();
    let r = w.widgets[a].draw(&w, &mut fb, 100, 100, &mut p);
    assert_eq!(r, (50, 20));
    assert_eq!(p.calls, vec!["fill 0 0 50 20".to_string(), "text 0 2 50 info".to_string()]);
    assert_eq!(p.fills, vec![BG]);
}

#[test]
fn the_title_bar_is_painted_around_the_title() {
    let mut w = sample_window();
    let mut p = RecPainter::new();
    w.draw(200, 100, &mut p);
    let title: Vec<String> = p.calls[..7].to_vec();
    assert_eq!(
        title,
        vec![
            "fill -4 -4 200 100".to_string(),
            "dot 8 8 8".to_string(),
            "fill 8 0 17 17".to_string(),
            "text 28 0 24 Win".to_string(),
            "fill 56 0 128 17".to_string(),
            "dot 184 8 8".to_string(),
            "fill 184 8 9 88".to_string(),
        ]
    );
    assert_eq!(p.fills[0], (0, 0, 0, 255));
}

#[test]
fn label_texts_are_collected_in_widget_order() {
    let w = sample_window();
    assert_eq!(
        w.collect_label_texts(),
        vec![
            ("start".to_string(), "Start".to_string()),
            ("num".to_string(), "12".to_string()),
            ("info".to_string(), "info".to_string()),
        ]
    );
}
