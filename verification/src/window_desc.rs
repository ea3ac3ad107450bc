//! Windows described by scripts: a tree of boxes and labels, added to a
//! window children first.
use vstd::prelude::*;
use vstd::string::StringSliceAdditionalSpecFns;
use vstd::utf8::encode_utf8;
use crate::gui::{Size, Widget, Window, Label, BoxDir, str_eq};
use crate::color::{color_ok, spec_color, color_hex24tpl};

verus! {

/// A widget as a script describes it. A `t` of `vbox` or `hbox` makes a
/// box of the `childs` with `spacing` between them; any other `t` makes a
/// label of that kind showing `text` in the colours `fg` on `bg`, named
/// `lblref`, whose input, if it is a field, must match `regex`.
pub struct WidgetDesc {
    pub t: String,
    pub size: Size,
    pub spacing: u32,
    pub childs: Vec<WidgetDesc>,
    pub text: String,
    pub fg: String,
    pub bg: String,
    pub lblref: String,
    pub regex: String,
}

/// The number of widgets a description makes: one for itself and those of
/// its children.
pub open spec fn desc_count(d: WidgetDesc) -> nat
    decreases d, d.childs@.len() + 1,
{
    childs_count(d, d.childs@.len() as int) + 1
}

/// The number of widgets the first `n` children of `d` make.
pub open spec fn childs_count(d: WidgetDesc, n: int) -> nat
    decreases d, n,
{
    if n <= 0 || n > d.childs@.len() {
        0
    } else {
        childs_count(d, n - 1) + desc_count(d.childs@[n - 1])
    }
}

/// A colour literal that `color_hex24tpl` can read.
pub open spec fn color_str_ok(s: Seq<char>) -> bool {
    color_ok(encode_utf8(s))
}

/// The colour a literal names.
pub open spec fn color_of(s: Seq<char>) -> (u8, u8, u8, u8) {
    spec_color(encode_utf8(s))
}

/// Every colour literal of a label in the description can be read.
pub open spec fn desc_ok(d: WidgetDesc) -> bool
    decreases d, d.childs@.len() + 1,
{
    &&& !is_box(d.t@) ==> color_str_ok(d.fg@) && color_str_ok(d.bg@)
    &&& childs_ok(d, d.childs@.len() as int)
}

/// The colour literals of the first `n` children of `d` can be read.
pub open spec fn childs_ok(d: WidgetDesc, n: int) -> bool
    decreases d, n,
{
    if n <= 0 || n > d.childs@.len() {
        true
    } else {
        childs_ok(d, n - 1) && desc_ok(d.childs@[n - 1])
    }
}

/// Alignment, wrapping, editability, clickability and input pattern of a
/// label of kind `t` whose field pattern is `rx`.
pub open spec fn kind_style(t: Seq<char>, rx: Seq<char>) -> (i32, bool, bool, bool, Seq<char>) {
    if t == "l_button"@ {
        (1, false, false, true, ".*"@)
    } else if t == "r_button"@ {
        (-1i32, false, false, true, ".*"@)
    } else if t == "c_button"@ {
        (0, false, false, true, ".*"@)
    } else if t == "field"@ {
        (1, false, true, false, rx)
    } else if t == "c_text"@ {
        (0, true, false, false, ".*"@)
    } else if t == "l_text"@ {
        (1, true, false, false, ".*"@)
    } else if t == "r_text"@ {
        (-1i32, true, false, false, ".*"@)
    } else if t == "c_label"@ {
        (0, false, false, false, ".*"@)
    } else if t == "l_label"@ {
        (1, false, false, false, ".*"@)
    } else if t == "r_label"@ {
        (-1i32, false, false, false, ".*"@)
    } else {
        (1, false, false, false, ".*"@)
    }
}

/// `l` is the label that description `d` makes.
pub open spec fn desc_label(d: WidgetDesc, l: Label) -> bool {
    let fg = color_of(d.fg@);
    let st = kind_style(d.t@, d.regex@);
    &&& l.lblref@ == d.lblref@
    &&& l.text@ == d.text@
    &&& l.fg_color == fg
    &&& l.bg_color == color_of(d.bg@)
    &&& l.hlt_color == ((255 - fg.0) as u8, (255 - fg.1) as u8, (255 - fg.2) as u8, fg.3)
    &&& l.align == st.0
    &&& l.wrap == st.1
    &&& l.editable == st.2
    &&& l.clickable == st.3
    &&& l.edit_regex@ == st.4
}

/// Whether a description of kind `t` makes a box.
pub open spec fn is_box(t: Seq<char>) -> bool {
    t == "vbox"@ || t == "hbox"@
}

/// The widgets `ws`, from index `base` on, are those description `d`
/// makes: each child's widgets in turn, then the widget of `d` itself,
/// whose id is its index.
pub open spec fn described(ws: Seq<Widget>, base: int, d: WidgetDesc) -> bool
    decreases d, d.childs@.len() + 1,
{
    let id = base + desc_count(d) - 1;
    &&& 0 <= base
    &&& id < ws.len()
    &&& childs_described(ws, base, d, d.childs@.len() as int)
    &&& if is_box(d.t@) {
        &&& ws[id] matches Widget::Layout(wid, s, l)
        &&& wid == id
        &&& s == d.size
        &&& l.dir == (if d.t@ == "vbox"@ {
            BoxDir::Vert(d.spacing)
        } else {
            BoxDir::Hori(d.spacing)
        })
        &&& l.childs@.len() == d.childs@.len()
        &&& forall|k: int| 0 <= k < l.childs@.len() ==> #[trigger] l.childs@[k] == base + childs_count(d, k + 1) - 1
    } else {
        &&& ws[id] matches Widget::Label(wid, s, l)
        &&& wid == id
        &&& s == d.size
        &&& desc_label(d, l)
    }
}

/// The first `n` children of `d` are described in `ws`, one after the
/// other, from index `base` on.
pub open spec fn childs_described(ws: Seq<Widget>, base: int, d: WidgetDesc, n: int) -> bool
    decreases d, n,
{
    if n <= 0 || n > d.childs@.len() {
        true
    } else {
        childs_described(ws, base, d, n - 1) && described(ws, base + childs_count(d, n - 1), d.childs@[n - 1])
    }
}

/// `r` is label `l` styled as kind `t`, with field pattern `rx`.
pub open spec fn styled(l: Label, t: Seq<char>, rx: Seq<char>, r: Label) -> bool {
    if t == "l_button"@ {
        r == Label { align: 1, clickable: true, ..l }
    } else if t == "r_button"@ {
        r == Label { align: -1i32, clickable: true, ..l }
    } else if t == "c_button"@ {
        r == Label { align: 0, clickable: true, ..l }
    } else if t == "field"@ {
        r == Label { align: 1, editable: true, edit_regex: r.edit_regex, ..l } && r.edit_regex@ == rx
    } else if t == "c_text"@ {
        r == Label { align: 0, wrap: true, ..l }
    } else if t == "l_text"@ {
        r == Label { align: 1, wrap: true, ..l }
    } else if t == "r_text"@ {
        r == Label { align: -1i32, wrap: true, ..l }
    } else if t == "c_label"@ {
        r == Label { align: 0, ..l }
    } else if t == "l_label"@ {
        r == Label { align: 1, ..l }
    } else if t == "r_label"@ {
        r == Label { align: -1i32, ..l }
    } else {
        r == l
    }
}

/// Styles label `l` as a label of kind `t`: a left, right or centred
/// button, an editable field whose input must match `rx`, a wrapped text
/// or a plain label; other kinds leave it as it is.
pub fn styled_label(l: Label, t: &str, rx: &str) -> (r: Label)
    ensures
        styled(l, t@, rx@, r),
{
    if str_eq(t, "l_button") {
        l.left().clickable()
    } else if str_eq(t, "r_button") {
        l.right().clickable()
    } else if str_eq(t, "c_button") {
        l.center().clickable()
    } else if str_eq(t, "field") {
        l.left().editable(rx)
    } else if str_eq(t, "c_text") {
        l.center().wrap()
    } else if str_eq(t, "l_text") {
        l.left().wrap()
    } else if str_eq(t, "r_text") {
        l.right().wrap()
    } else if str_eq(t, "c_label") {
        l.center()
    } else if str_eq(t, "l_label") {
        l.left()
    } else if str_eq(t, "r_label") {
        l.right()
    } else {
        l
    }
}

/// Each child adds at least one widget to those before it.
proof fn lemma_childs_count_mono(d: WidgetDesc, i: int, j: int)
    requires
        0 <= i <= j <= d.childs@.len(),
    ensures
        childs_count(d, i) + (j - i) <= childs_count(d, j),
    decreases j - i,
{
    if i < j {
        lemma_childs_count_mono(d, i, j - 1);
        assert(desc_count(d.childs@[j - 1]) >= 1);
    }
}

/// A child of a description whose colours can be read has readable colours.
proof fn lemma_childs_ok(d: WidgetDesc, n: int, k: int)
    requires
        childs_ok(d, n),
        0 <= k < n <= d.childs@.len(),
    ensures
        desc_ok(d.childs@[k]),
    decreases n,
{
    if k < n - 1 {
        lemma_childs_ok(d, n - 1, k);
    }
}

/// What the first `n` children described stays described when widgets are
/// appended.
proof fn lemma_childs_described_grow(ws: Seq<Widget>, ws2: Seq<Widget>, base: int, d: WidgetDesc, n: int)
    requires
        childs_described(ws, base, d, n),
        ws.len() <= ws2.len(),
        forall|i: int| 0 <= i < ws.len() ==> #[trigger] ws2[i] == ws[i],
    ensures
        childs_described(ws2, base, d, n),
    decreases d, n,
{
    if 0 < n <= d.childs@.len() {
        lemma_childs_described_grow(ws, ws2, base, d, n - 1);
        lemma_described_grow(ws, ws2, base + childs_count(d, n - 1), d.childs@[n - 1]);
    }
}

/// What a description described stays described when widgets are
/// appended.
proof fn lemma_described_grow(ws: Seq<Widget>, ws2: Seq<Widget>, base: int, d: WidgetDesc)
    requires
        described(ws, base, d),
        ws.len() <= ws2.len(),
        forall|i: int| 0 <= i < ws.len() ==> #[trigger] ws2[i] == ws[i],
    ensures
        described(ws2, base, d),
    decreases d, d.childs@.len() + 1,
{
    lemma_childs_described_grow(ws, ws2, base, d, d.childs@.len() as int);
    let id = base + desc_count(d) - 1;
    assert(ws2[id] == ws[id]);
}

impl WidgetDesc {
    /// Whether every colour literal of a label in the description can be
    /// read.
    pub fn colors_ok(&self) -> (b: bool)
        ensures
            b == desc_ok(*self),
        decreases self, self.childs@.len() + 1,
    {
        let boxed = str_eq(self.t.as_str(), "vbox") || str_eq(self.t.as_str(), "hbox");
        if !boxed && (!color_literal_ok(self.fg.as_str()) || !color_literal_ok(self.bg.as_str())) {
            return false;
        }
        let mut i: usize = 0;
        while i < self.childs.len()
            invariant
                i <= self.childs@.len(),
                childs_ok(*self, i as int),
            decreases self.childs@.len() - i,
        {
            if !self.childs[i].colors_ok() {
                proof {
                    if childs_ok(*self, self.childs@.len() as int) {
                        lemma_childs_ok(*self, self.childs@.len() as int, i as int);
                    }
                }
                return false;
            }
            i = i + 1;
        }
        true
    }

    /// The number of widgets the description makes, if it is at most
    /// `room`.
    pub fn count_upto(&self, room: usize) -> (r: Option<usize>)
        ensures
            r == (if desc_count(*self) <= room {
                Some(desc_count(*self) as usize)
            } else {
                None::<usize>
            }),
        decreases self, self.childs@.len() + 1,
    {
        let mut n: usize = 0;
        let mut i: usize = 0;
        while i < self.childs.len()
            invariant
                i <= self.childs@.len(),
                n == childs_count(*self, i as int),
                n <= room,
            decreases self.childs@.len() - i,
        {
            match self.childs[i].count_upto(room - n) {
                Some(c) => {
                    n = n + c;
                },
                None => {
                    proof {
                        lemma_childs_count_mono(*self, i as int + 1, self.childs@.len() as int);
                    }
                    return None;
                },
            }
            i = i + 1;
        }
        if n < room {
            Some(n + 1)
        } else {
            None
        }
    }
}

/// Whether `color_hex24tpl` can read the colour literal `s`.
pub fn color_literal_ok(s: &str) -> (b: bool)
    ensures
        b == color_ok(s.spec_bytes()),
{
    let n = s.as_bytes().len();
    if n == 8 {
        s.is_char_boundary(2) && s.is_char_boundary(4) && s.is_char_boundary(6)
    } else if n == 6 {
        s.is_char_boundary(2) && s.is_char_boundary(4)
    } else if n == 4 {
        s.is_char_boundary(1) && s.is_char_boundary(2) && s.is_char_boundary(3)
    } else if n == 3 {
        s.is_char_boundary(1) && s.is_char_boundary(2)
    } else {
        true
    }
}

/// The window fields other than its widgets are those of `w1`.
pub open spec fn same_frame(w1: Window, w2: Window) -> bool {
    &&& w2.title == w1.title
    &&& w2.title_color == w1.title_color
    &&& w2.feedback == w1.feedback
    &&& w2.child == w1.child
    &&& w2.focus_child == w1.focus_child
    &&& w2.hover_child == w1.hover_child
    &&& w2.activ_child == w1.activ_child
    &&& w2.x == w1.x && w2.y == w1.y && w2.w == w1.w && w2.h == w1.h
    &&& w2.needs_redraw == w1.needs_redraw
    &&& w2.win_feedback == w1.win_feedback
}

/// Adds the widgets that `d` describes to `win`, children before their
/// box, and returns the id of the widget of `d` itself.
pub fn desc2widget(d: &WidgetDesc, win: &mut Window) -> (id: usize)
    requires
        old(win).layout_ok(),
        desc_ok(*d),
        old(win).widgets@.len() + desc_count(*d) <= usize::MAX,
    ensures
        final(win).layout_ok(),
        same_frame(*old(win), *final(win)),
        final(win).widgets@.len() == old(win).widgets@.len() + desc_count(*d),
        id == final(win).widgets@.len() - 1,
        final(win).widgets@.take(old(win).widgets@.len() as int) == old(win).widgets@,
        described(final(win).widgets@, old(win).widgets@.len() as int, *d),
    decreases d, d.childs@.len() + 1,
{
    let ghost w0 = *win;
    let base = win.widgets.len();
    let mut childs: Vec<usize> = Vec::new();
    let mut i: usize = 0;
    while i < d.childs.len()
        invariant
            i <= d.childs@.len(),
            win.layout_ok(),
            desc_ok(*d),
            base == w0.widgets@.len(),
            w0.widgets@.len() + desc_count(*d) <= usize::MAX,
            same_frame(w0, *win),
            win.widgets@.len() == base + childs_count(*d, i as int),
            forall|j: int| 0 <= j < base ==> #[trigger] win.widgets@[j] == w0.widgets@[j],
            childs_described(win.widgets@, base as int, *d, i as int),
            childs@.len() == i,
            forall|k: int| 0 <= k < i ==> #[trigger] childs@[k] == base + childs_count(*d, k + 1) - 1,
        decreases d.childs@.len() - i,
    {
        let ghost before = win.widgets@;
        proof {
            lemma_childs_ok(*d, d.childs@.len() as int, i as int);
            lemma_childs_count_mono(*d, i as int + 1, d.childs@.len() as int);
        }
        let cid = desc2widget(&d.childs[i], win);
        childs.push(cid);
        proof {
            assert forall|j: int| 0 <= j < before.len() implies #[trigger] win.widgets@[j] == before[j] by {
                assert(win.widgets@.take(before.len() as int)[j] == win.widgets@[j]);
            }
            lemma_childs_described_grow(before, win.widgets@, base as int, *d, i as int);
        }
        i = i + 1;
    }
    let ghost before = win.widgets@;
    proof {
        lemma_childs_count_mono(*d, 0, d.childs@.len() as int);
    }
    let size = Size { min_w: d.size.min_w, w: d.size.w, min_h: d.size.min_h, h: d.size.h, margin: d.size.margin };
    let id = if str_eq(d.t.as_str(), "vbox") {
        proof {
            assert forall|k: int| 0 <= k < childs@.len() implies #[trigger] childs@[k] < before.len() by {
                lemma_childs_count_mono(*d, k + 1, d.childs@.len() as int);
            }
        }
        win.add_layout(size, BoxDir::Vert(d.spacing), childs.as_slice())
    } else if str_eq(d.t.as_str(), "hbox") {
        proof {
            assert forall|k: int| 0 <= k < childs@.len() implies #[trigger] childs@[k] < before.len() by {
                lemma_childs_count_mono(*d, k + 1, d.childs@.len() as int);
            }
        }
        win.add_layout(size, BoxDir::Hori(d.spacing), childs.as_slice())
    } else {
        let lbl = Label::new(d.text.as_str(), color_hex24tpl(d.fg.as_str()), color_hex24tpl(d.bg.as_str()))
            .lblref(d.lblref.as_str());
        let lbl = styled_label(lbl, d.t.as_str(), d.regex.as_str());
        win.add_label(size, lbl)
    };
    proof {
        assert forall|j: int| 0 <= j < before.len() implies #[trigger] win.widgets@[j] == before[j] by {
            assert(win.widgets@.take(before.len() as int)[j] == win.widgets@[j]);
        }
        lemma_childs_described_grow(before, win.widgets@, base as int, *d, d.childs@.len() as int);
        assert(win.widgets@.take(base as int) =~= w0.widgets@);
    }
    id
}

/// Styling a label sets the alignment that `kind_style` gives its kind.
proof fn lemma_styled_align(l: Label, t: Seq<char>, rx: Seq<char>, r: Label)
    requires
        styled(l, t, rx, r),
    ensures
        t == "l_button"@ || t == "r_button"@ || t == "c_button"@ || t == "field"@ || t == "c_text"@ || t
            == "l_text"@ || t == "r_text"@ || t == "c_label"@ || t == "l_label"@ || t == "r_label"@ ==> r.align
            == kind_style(t, rx).0,
{
}

/// The alignment `kind_style` gives each kind, by its first letter.
proof fn lemma_kind_align(t: Seq<char>, rx: Seq<char>)
    ensures
        (t == "r_label"@ || t == "r_button"@ || t == "r_text"@) ==> kind_style(t, rx).0 == -1,
        (t == "l_label"@ || t == "l_button"@ || t == "l_text"@ || t == "field"@) ==> kind_style(t, rx).0 == 1,
        (t == "c_label"@ || t == "c_button"@ || t == "c_text"@) ==> kind_style(t, rx).0 == 0,
{
    reveal_strlit("l_button");
    reveal_strlit("r_button");
    reveal_strlit("c_button");
    reveal_strlit("field");
    reveal_strlit("c_text");
    reveal_strlit("l_text");
    reveal_strlit("r_text");
    reveal_strlit("c_label");
    reveal_strlit("l_label");
    reveal_strlit("r_label");
    assert("l_button"@.len() == 8 && "l_button"@[0] == 'l');
    assert("r_button"@.len() == 8 && "r_button"@[0] == 'r');
    assert("c_button"@.len() == 8 && "c_button"@[0] == 'c');
    assert("field"@.len() == 5 && "field"@[0] == 'f');
    assert("c_text"@.len() == 6 && "c_text"@[0] == 'c');
    assert("l_text"@.len() == 6 && "l_text"@[0] == 'l');
    assert("r_text"@.len() == 6 && "r_text"@[0] == 'r');
    assert("c_label"@.len() == 7 && "c_label"@[0] == 'c');
    assert("l_label"@.len() == 7 && "l_label"@[0] == 'l');
    assert("r_label"@.len() == 7 && "r_label"@[0] == 'r');
    if t.len() > 0 {
        assert(t[0] == t[0]);
    }
}

/// A label's kind sets its alignment by its prefix: `r_label`, `r_button`
/// and `r_text` align right (-1), `l_label`, `l_button`, `l_text` and
/// `field` left (1), `c_label`, `c_button` and `c_text` centre (0), both
/// when a label is styled and when a description makes one.
pub proof fn law_kind_prefix_sets_alignment(l: Label, t: Seq<char>, rx: Seq<char>, r: Label)
    ensures
        styled(l, t, rx, r) && (t == "r_label"@ || t == "r_button"@ || t == "r_text"@) ==> r.align == -1,
        styled(l, t, rx, r) && (t == "l_label"@ || t == "l_button"@ || t == "l_text"@ || t == "field"@)
            ==> r.align == 1,
        styled(l, t, rx, r) && (t == "c_label"@ || t == "c_button"@ || t == "c_text"@) ==> r.align == 0,
        (t == "r_label"@ || t == "r_button"@ || t == "r_text"@) ==> kind_style(t, rx).0 == -1,
        (t == "l_label"@ || t == "l_button"@ || t == "l_text"@ || t == "field"@) ==> kind_style(t, rx).0 == 1,
        (t == "c_label"@ || t == "c_button"@ || t == "c_text"@) ==> kind_style(t, rx).0 == 0,
{
    lemma_kind_align(t, rx);
    if styled(l, t, rx, r) {
        lemma_styled_align(l, t, rx, r);
    }
}

} // verus!
