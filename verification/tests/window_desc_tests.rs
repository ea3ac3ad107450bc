use sscg::gui::{BoxDir, Label, Size, Widget, Window};
use sscg::window_desc::{color_literal_ok, desc2widget, styled_label, WidgetDesc};

fn sz(min_w: u32, min_h: u32) -> Size {
    Size { min_w, w: 0, min_h, h: 0, margin: 1 }
}

fn label(t: &str, text: &str, r: &str) -> WidgetDesc {
    WidgetDesc {
        t: t.to_string(),
        size: sz(10, 5),
        spacing: 0,
        childs: vec![],
        text: text.to_string(),
        fg: "F00".to_string(),
        bg: "00FF0080".to_string(),
        lblref: r.to_string(),
        regex: "^[a-z]*$".to_string(),
    }
}

fn boxed(t: &str, spacing: u32, childs: Vec<WidgetDesc>) -> WidgetDesc {
    WidgetDesc {
        t: t.to_string(),
        size: sz(0, 0),
        spacing,
        childs,
        text: String::new(),
        fg: String::new(),
        bg: String::new(),
        lblref: String::new(),
        regex: ".*".to_string(),
    }
}

#[test]
fn a_description_is_added_children_first() {
    let d = boxed(
        "vbox",
        3,
        vec![
            label("c_button", "Go", "go"),
            boxed("hbox", 2, vec![label("l_label", "a", "a"), label("field", "b", "b")]),
            label("r_text", "long text", "t"),
        ],
    );
    assert!(d.colors_ok());
    assert_eq!(d.count_upto(100), Some(6));
    assert_eq!(d.count_upto(5), None);
    let mut w = Window::new();
    let id = desc2widget(&d, &mut w);
    assert_eq!(id, 5);
    assert_eq!(w.widgets.len(), 6);
    for (i, wid) in w.widgets.iter().enumerate() {
        assert_eq!(wid.id(), i);
    }
    match &w.widgets[5] {
        Widget::Layout(_, _, l) => {
            assert!(matches!(l.dir, BoxDir::Vert(3)));
            assert_eq!(l.childs, vec![0, 3, 4]);
        }
        _ => panic!("box expected"),
    }
    match &w.widgets[3] {
        Widget::Layout(_, _, l) => {
            assert!(matches!(l.dir, BoxDir::Hori(2)));
            assert_eq!(l.childs, vec![1, 2]);
        }
        _ => panic!("box expected"),
    }
    match &w.widgets[0] {
        Widget::Label(_, s, l) => {
            assert_eq!((s.min_w, s.min_h, s.margin), (10, 5, 1));
            assert_eq!(l.text, "Go");
            assert_eq!(l.lblref, "go");
            assert_eq!(l.align, 0);
            assert!(l.clickable && !l.editable && !l.wrap);
            assert_eq!(l.fg_color, (255, 0, 0, 255));
            assert_eq!(l.bg_color, (0, 255, 0, 128));
            assert_eq!(l.hlt_color, (0, 255, 255, 255));
        }
        _ => panic!("label expected"),
    }
    match &w.widgets[2] {
        Widget::Label(_, _, l) => {
            assert!(l.editable);
            assert_eq!(l.edit_regex, "^[a-z]*$");
            assert_eq!(l.align, 1);
        }
        _ => panic!("label expected"),
    }
    match &w.widgets[4] {
        Widget::Label(_, _, l) => {
            assert!(l.wrap);
            assert_eq!(l.align, -1);
        }
        _ => panic!("label expected"),
    }
    assert_eq!(w.get_label_text("t"), Some("long text".to_string()));
}

#[test]
fn a_label_description_adds_its_children_too() {
    let d = WidgetDesc { childs: vec![label("l_label", "inner", "in")], ..label("x_unknown", "outer", "out") };
    let mut w = Window::new();
    w.add_label(sz(1, 1), Label::new("before", (0, 0, 0, 255), (0, 0, 0, 255)));
    let id = desc2widget(&d, &mut w);
    assert_eq!(id, 2);
    assert_eq!(w.widgets.len(), 3);
    match &w.widgets[2] {
        Widget::Label(_, _, l) => {
            assert_eq!(l.text, "outer");
            assert_eq!(l.align, 1);
            assert!(!l.clickable && !l.wrap && !l.editable);
            assert_eq!(l.edit_regex, ".*");
        }
        _ => panic!("label expected"),
    }
}

#[test]
fn colour_literals_must_split_at_character_boundaries() {
    assert!(color_literal_ok("ABC"));
    assert!(color_literal_ok("12345678"));
    assert!(color_literal_ok("whatever, any other length"));
    assert!(!color_literal_ok("é1"));
    assert!(!color_literal_ok("aé1"));
    let mut d = label("l_label", "x", "x");
    d.fg = "aé1".to_string();
    assert!(!d.colors_ok());
    let b = boxed("vbox", 0, vec![d]);
    assert!(!b.colors_ok());
    let mut ok_box = boxed("hbox", 0, vec![]);
    ok_box.fg = "aé1".to_string();
    assert!(ok_box.colors_ok());
}

#[test]
fn label_kinds_set_alignment_and_behaviour() {
    let base = || Label::new("t", (1, 2, 3, 4), (5, 6, 7, 8));
    let l = styled_label(base(), "l_button", "x");
    assert_eq!((l.align, l.clickable), (1, true));
    let l = styled_label(base().right(), "r_button", "x");
    assert_eq!((l.align, l.clickable), (-1, true));
    let l = styled_label(base(), "field", "[0-9]");
    assert_eq!((l.align, l.editable, l.edit_regex.as_str()), (1, true, "[0-9]"));
    let l = styled_label(base(), "c_text", "x");
    assert_eq!((l.align, l.wrap), (0, true));
    let l = styled_label(base().wrap(), "c_label", "x");
    assert_eq!((l.align, l.wrap), (0, true));
    let l = styled_label(base().right(), "l_label", "x");
    assert_eq!(l.align, 1);
    let l = styled_label(base().center(), "nothing", "x");
    assert_eq!((l.align, l.clickable, l.editable, l.wrap), (0, false, false, false));
}
