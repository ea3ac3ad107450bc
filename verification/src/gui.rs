//! The data model of the in-game window toolkit: widgets, labels, layout
//! sizes and the event handling that does not depend on painting.
use vstd::prelude::*;
use vstd::wrapping::{u32_specs, i32_specs};
use crate::logic::{GamePainter, PaintOp, Rgba};
use vstd::string::StringExecFns;

verus! {

/// The two font sizes a painter offers.
#[derive(Debug, Clone, PartialEq, Hash, Copy)]
pub enum FontSize {
    Normal,
    Small,
}

/// Calls `<str as PartialEq>::eq`. Trusted: two string slices are equal
/// exactly when they hold the same characters.
#[verifier::external_body]
pub(crate) fn str_eq(a: &str, b: &str) -> (r: bool)
    ensures
        r == (a@ == b@),
{
    a == b
}

/// Calls `String::pop`. Trusted: the last character of `s` is removed if
/// there is one, and an empty string stays empty.
#[verifier::external_body]
fn string_pop(s: &mut String)
    ensures
        final(s)@ == (if old(s)@.len() > 0 {
            old(s)@.drop_last()
        } else {
            old(s)@
        }),
{
    s.pop();
}

#[verifier::external_type_specification]
#[verifier::external_body]
pub struct ExRegex(regex::Regex);

/// Whether `regex::Regex::new` accepts `pattern`.
pub uninterp spec fn regex_compiles(pattern: Seq<char>) -> bool;

/// Whether `regex::Regex::find`, for the regex compiled from `pattern`,
/// finds a match anywhere in `haystack`.
pub uninterp spec fn regex_finds(pattern: Seq<char>, haystack: Seq<char>) -> bool;

/// A compiled edit pattern together with the text it was compiled from.
/// Only `compile_edit_pattern` builds one, so `rx` is always the regex
/// compiled from `source`.
pub struct EditPattern {
    source: String,
    rx: regex::Regex,
}

impl View for EditPattern {
    type V = Seq<char>;

    closed spec fn view(&self) -> Seq<char> {
        self.source@
    }
}

/// Calls `regex::Regex::new(pattern)`. Trusted: the result is present
/// exactly when the regex crate accepts the pattern (a fixed function of
/// the pattern text, named `regex_compiles`), and it remembers the pattern.
#[verifier::external_body]
fn compile_edit_pattern(pattern: &str) -> (r: Option<EditPattern>)
    ensures
        r is Some == regex_compiles(pattern@),
        r matches Some(ep) ==> ep@ == pattern@,
{
    match regex::Regex::new(pattern) {
        Ok(rx) => Some(EditPattern { source: pattern.to_string(), rx }),
        Err(_) => None,
    }
}

/// Calls `regex::Regex::find(haystack)` on the compiled pattern. Trusted:
/// a match is found exactly when `regex_finds` holds of the pattern text and
/// the haystack.
#[verifier::external_body]
fn edit_pattern_finds(ep: &EditPattern, haystack: &str) -> (b: bool)
    ensures
        b == regex_finds(ep@, haystack@),
{
    ep.rx.find(haystack).is_some()
}

/// Calls `String::push`. Trusted: `c` is appended to `s`.
#[verifier::external_body]
fn string_push(s: &mut String, c: char)
    ensures
        final(s)@ == old(s)@.push(c),
{
    s.push(c);
}

/// The width and height of a label laid out in a box of `mw` by `mh`
/// (a zero width meaning `max_w`, a zero height the text's height) whose
/// text measures `tw` by `th`: an editable field gains a border, a
/// clickable button rounds its height to an odd number that fits its
/// corners.
pub open spec fn label_extent(l: Label, mw: u32, mh: u32, max_w: u32, tw: u32, th: u32) -> (u32, u32) {
    let mw1 = if mw == 0 {
        max_w
    } else {
        mw
    };
    let mh1 = if mh == 0 {
        th
    } else {
        mh
    };
    let mh2 = if mh1 < th {
        th
    } else {
        mh1
    };
    if l.editable {
        (u32_specs::wrapping_add(mw1, 8), mh2)
    } else if l.wrap && tw > mw1 {
        (mw1, mh2)
    } else if l.clickable {
        (mw1, button_height(mw1, mh2, th))
    } else {
        (mw1, mh2)
    }
}

/// The number of bytes `s` takes in UTF-8, as `str::len` reports it.
pub open spec fn utf8_len(s: Seq<char>) -> usize {
    vstd::utf8::encode_utf8(s).len() as usize
}

/// The state of breaking a text into lines: the line being filled, the
/// height reached, the lines finished (each with its height), and whether
/// the box is full.
pub type WrapState = (Seq<char>, i32, Seq<(i32, Seq<char>)>, bool);

/// One character `c` of the text, whose line with `c` added measures `m`,
/// taken into a box of `mw` by `mh`: when the line no longer fits below
/// the lines before it the box is full; when it is too wide the line ends
/// before `c` (at `c` if it holds a single byte) and `c` starts the next.
pub open spec fn wrap_step(st: WrapState, c: char, m: (u32, u32), mw: u32, mh: u32) -> WrapState {
    let (line, y, lines, done) = st;
    if done {
        st
    } else {
        let line1 = line.push(c);
        if u32_specs::wrapping_add(#[verifier::truncate] (y as u32), m.1) > mh {
            (Seq::empty(), y, lines, true)
        } else if m.0 > mw {
            let line2 = if utf8_len(line1) > 1 {
                line1.drop_last()
            } else {
                line1
            };
            let y2 = i32_specs::wrapping_add(y, #[verifier::truncate] (m.1 as i32));
            if utf8_len(line2) > 1 {
                (seq![c], y2, lines.push((y, line2)), false)
            } else {
                (Seq::empty(), y2, lines.push((y, line2)), false)
            }
        } else {
            (line1, y, lines, false)
        }
    }
}

/// The first `k` characters of `chars` taken in turn, the `j`-th line
/// measuring `ms[j]`.
pub open spec fn wrap_run(chars: Seq<char>, ms: Seq<(u32, u32)>, mw: u32, mh: u32, k: nat) -> WrapState
    decreases k,
{
    if k == 0 {
        (Seq::empty(), 0i32, Seq::empty(), false)
    } else {
        wrap_step(wrap_run(chars, ms, mw, mh, (k - 1) as nat), chars[k - 1], ms[k - 1], mw, mh)
    }
}

/// The lines, each with its height, that `chars` breaks into in a box of
/// `mw` by `mh` when the lines measure `ms`, and the height reached.
pub open spec fn wrapped_lines(chars: Seq<char>, ms: Seq<(u32, u32)>, mw: u32, mh: u32) -> (Seq<(i32, Seq<char>)>, i32) {
    let st = wrap_run(chars, ms, mw, mh, chars.len());
    (if utf8_len(st.0) > 0 {
        st.2.push((st.1, st.0))
    } else {
        st.2
    }, st.1)
}

proof fn lemma_wrap_run_prefix(chars: Seq<char>, ms: Seq<(u32, u32)>, x: (u32, u32), mw: u32, mh: u32, k: nat)
    requires
        k <= ms.len(),
    ensures
        wrap_run(chars, ms.push(x), mw, mh, k) == wrap_run(chars, ms, mw, mh, k),
    decreases k,
{
    if k > 0 {
        lemma_wrap_run_prefix(chars, ms, x, mw, mh, (k - 1) as nat);
        assert(ms.push(x)[k - 1] == ms[k - 1]);
    }
}

/// The lines `v` as heights and texts.
pub open spec fn lines_view(v: Seq<(i32, i32, String)>) -> Seq<(i32, Seq<char>)> {
    Seq::new(v.len(), |k: int| (v[k].1, v[k].2@))
}

/// The texts of wrapped `lines`, moved down by `yo`, in a box `mw` wide.
pub open spec fn wrapped_texts(lines: Seq<(i32, Seq<char>)>, yo: u32, mw: u32, fg: Rgba, align: i32) -> Seq<PaintOp> {
    Seq::new(
        lines.len(),
        |k: int|
            PaintOp::Text(
                0,
                i32_specs::wrapping_add(lines[k].0, #[verifier::truncate] (yo as i32)),
                mw,
                fg,
                None,
                align,
                lines[k].1,
            ),
    )
}

/// The background of label `l`, widget `id` of `win`: its highlight
/// colour when it is hovered or focused.
pub open spec fn label_bg(win: Window, id: usize, l: Label) -> Rgba {
    let b = match win.hover_child {
        Some(h) => if id == h {
            l.hlt_color
        } else {
            l.bg_color
        },
        None => l.bg_color,
    };
    match win.focus_child {
        Some(f) => if id == f {
            l.hlt_color
        } else {
            b
        },
        None => b,
    }
}

/// The corner radius of a button in a box of `mw` by `mh` whose text is
/// `th` high.
pub open spec fn button_radius(mw: u32, mh: u32, th: u32) -> u32 {
    let cr0 = if mw < mh {
        mw / 4
    } else {
        mh / 4
    };
    if cr0 < th / 2 {
        th / 2
    } else {
        cr0
    }
}

/// The height of a button in a box of `mw` by `mh` whose text is `th`
/// high: twice its corner radius, at least the text's height, made odd.
pub open spec fn button_height(mw: u32, mh: u32, th: u32) -> u32 {
    let mh3 = (button_radius(mw, mh, th) * 2) as u32;
    let mh4 = if mh3 < th {
        th
    } else {
        mh3
    };
    if mh4 % 2 == 0 {
        (mh4 + 1) as u32
    } else {
        mh4
    }
}

/// What a clickable label with background `bg` paints in a box `mw`
/// wide (`fb_w` as it was given) and `mh` high when its text is `th`
/// high: its rounded ends as `align` asks, then the button and the text.
pub open spec fn button_paint(l: Label, bg: Rgba, fb_w: u32, mw: u32, mh: u32, th: u32) -> Seq<PaintOp> {
    let cr = button_radius(mw, mh, th);
    let mh5 = button_height(mw, mh, th);
    let cri = #[verifier::truncate] (cr as i32);
    let mwi = #[verifier::truncate] (mw as i32);
    let side = i32_specs::wrapping_sub(mwi, #[verifier::truncate] ((4 + cr) as i32));
    let (ends, xo, tw0) = if l.align == -1 {
        (
            seq![
                PaintOp::Dot(cri, cri, cr, bg),
                PaintOp::RectFilled(#[verifier::truncate] (u32_specs::wrapping_sub(mw, 4) as i32), 0, 4, mh5, bg),
            ],
            cri,
            side,
        )
    } else if l.align == 1 {
        (
            seq![
                PaintOp::Dot(i32_specs::wrapping_sub(mwi, cri), cri, cr, bg),
                PaintOp::RectFilled(0, 0, 4, mh5, bg),
            ],
            4i32,
            side,
        )
    } else if l.align == 2 {
        (Seq::empty(), 0i32, mwi)
    } else {
        (
            seq![
                PaintOp::Dot(cri, cri, cr, bg),
                PaintOp::Dot(i32_specs::wrapping_sub(#[verifier::truncate] (fb_w as i32), cri), cri, cr, bg),
            ],
            cri,
            i32_specs::wrapping_sub(mwi, i32_specs::wrapping_mul(2, cri)),
        )
    };
    let tw1: u32 = if tw0 < 0 {
        0
    } else {
        tw0 as u32
    };
    ends + seq![
        PaintOp::RectFilled(xo, 0, tw1, mh5, bg),
        PaintOp::Text(xo, #[verifier::truncate] (((mh5 - th) / 2) as i32), tw1, l.fg_color, None, l.align, l.text@),
    ]
}

/// What an editable label with background `bg` paints in a box `mw`
/// wide (before its border) and `mh` high when its text is `th` high: its
/// border lines, its field and its text.
pub open spec fn field_paint(l: Label, bg: Rgba, mw: u32, mh: u32, th: u32) -> Seq<PaintOp> {
    let mw2 = u32_specs::wrapping_add(mw, 8);
    let bottom = i32_specs::wrapping_sub(#[verifier::truncate] (mh as i32), 1);
    let right = i32_specs::wrapping_sub(#[verifier::truncate] (mw2 as i32), 1);
    let fw = u32_specs::wrapping_sub(mw2, 8);
    seq![
        PaintOp::Line(1, 0, 1, bottom, 2, bg),
        PaintOp::Line(right, 0, right, bottom, 2, bg),
        PaintOp::RectFilled(4, 0, fw, mh, l.bg_color),
        PaintOp::Text(4, #[verifier::truncate] (((mh - th) / 2) as i32), fw, l.fg_color, None, l.align, l.text@),
    ]
}

/// What a wrapping label with background `bg` paints in a box of `mw` by
/// `mh` when its lines measure `ms`: its background, then its lines
/// centred in height.
pub open spec fn wrapped_paint(l: Label, bg: Rgba, mw: u32, mh: u32, ms: Seq<(u32, u32)>) -> Seq<PaintOp> {
    let (lines, y) = wrapped_lines(l.text@, ms, mw, mh);
    let h = #[verifier::truncate] (y as u32);
    let yo: u32 = if h < mh {
        ((mh - h) / 2) as u32
    } else {
        0
    };
    seq![PaintOp::RectFilled(0, 0, mw, mh, bg)] + wrapped_texts(lines, yo, mw, l.fg_color, l.align)
}

/// What a plain label paints in a box of `mw` by `mh` when its text is
/// `th` high: its background and its text centred in height.
pub open spec fn plain_paint(l: Label, mw: u32, mh: u32, th: u32) -> Seq<PaintOp> {
    seq![
        PaintOp::RectFilled(0, 0, mw, mh, l.bg_color),
        PaintOp::Text(0, #[verifier::truncate] (((mh - th) / 2) as i32), mw, l.fg_color, None, l.align, l.text@),
    ]
}

/// What label `l` with background `bg` paints in a box of `mw` by `mh`
/// (fitted as `label_extent` fits it) when its text measures `tw` by `th`
/// and, when it wraps, its lines measure `ms`.
pub open spec fn label_paint(
    l: Label,
    bg: Rgba,
    mw: u32,
    mh: u32,
    max_w: u32,
    tw: u32,
    th: u32,
    ms: Seq<(u32, u32)>,
) -> Seq<PaintOp> {
    let mw1 = if mw == 0 {
        max_w
    } else {
        mw
    };
    let mh1 = if mh == 0 {
        th
    } else {
        mh
    };
    let mh2 = if mh1 < th {
        th
    } else {
        mh1
    };
    if l.editable {
        field_paint(l, bg, mw1, mh2, th)
    } else if l.wrap && tw > mw1 {
        wrapped_paint(l, bg, mw1, mh2, ms)
    } else if l.clickable {
        button_paint(l, bg, mw, mw1, mh2, th)
    } else {
        plain_paint(l, mw1, mh2, th)
    }
}

/// Breaks `txt` into lines that fit a box of `mw` by `mh`, measuring each
/// line as it grows; stops at the line that would not fit below the
/// others.
fn wrap_lines<P: GamePainter>(p: &mut P, txt: &str, mw: u32, mh: u32) -> (r: (Vec<(i32, i32, String)>, i32))
    ensures
        exists|ms: Seq<(u32, u32)>|
            #[trigger] wrapped_lines(txt@, ms, mw, mh) == (lines_view(r.0@), r.1),
        forall|k: int| 0 <= k < r.0@.len() ==> (#[trigger] r.0@[k]).0 == 0,
        final(p).ops()@ == old(p).ops()@,
        final(p).screen_pos(0, 0) == old(p).screen_pos(0, 0),
        final(p).saved_offs()@ == old(p).saved_offs()@,
{
    let mut line = String::new();
    let mut y: i32 = 0;
    let mut lines: Vec<(i32, i32, String)> = Vec::new();
    let mut done = false;
    let ghost mut ms: Seq<(u32, u32)> = Seq::empty();
    let ghost ops0 = p.ops()@;
    let ghost pos0 = p.screen_pos(0, 0);
    let ghost sv0 = p.saved_offs()@;
    proof {
        assert(lines_view(lines@) =~= Seq::<(i32, Seq<char>)>::empty());
    }
    for c in it: txt.chars()
        invariant
            it.seq() == txt@,
            ms.len() == it.index(),
            wrap_run(txt@, ms, mw, mh, it.index() as nat) == (line@, y, lines_view(lines@), done),
            forall|k: int| 0 <= k < lines@.len() ==> (#[trigger] lines@[k]).0 == 0,
            p.ops()@ == ops0,
            p.screen_pos(0, 0) == pos0,
            p.saved_offs()@ == sv0,
    {
        let ghost k = it.index();
        let ghost st = wrap_run(txt@, ms, mw, mh, k as nat);
        assert(c == txt@[k as int]);
        let ghost lines0 = lines@;
        let mut m: (u32, u32) = (0, 0);
        if !done {
            string_push(&mut line, c);
            let ghost line1 = line@;
            let (ltw, lth) = p.text_size(line.as_str());
            m = (ltw, lth);
            if (#[verifier::truncate] (y as u32)).wrapping_add(lth) > mh {
                line = String::new();
                done = true;
            } else if ltw > mw {
                if line.as_str().len() > 1 {
                    string_pop(&mut line);
                }
                let ghost line2 = line@;
                if line.as_str().len() > 1 {
                    lines.push((0, y, line));
                    line = String::new();
                    string_push(&mut line, c);
                    assert(line@ =~= seq![c]);
                } else {
                    lines.push((0, y, line));
                    line = String::new();
                }
                y = y.wrapping_add(#[verifier::truncate] (lth as i32));
                proof {
                    assert(lines_view(lines@) =~= lines_view(lines0).push((st.1, line2)));
                }
            }
        }
        proof {
            lemma_wrap_run_prefix(txt@, ms, m, mw, mh, k as nat);
            ms = ms.push(m);
            assert(ms[k as int] == m);
            assert(wrap_run(txt@, ms, mw, mh, (k + 1) as nat) == wrap_step(st, txt@[k as int], m, mw, mh));
            assert((line@, y, lines_view(lines@), done) == wrap_step(st, c, m, mw, mh));
        }
    }
    let ghost st_end = (line@, y, lines_view(lines@), done);
    assert(wrap_run(txt@, ms, mw, mh, txt@.len()) == st_end);
    if line.as_str().len() > 0 {
        let ghost lines0 = lines@;
        lines.push((0, y, line));
        proof {
            assert(lines_view(lines@) =~= lines_view(lines0).push((y, line@)));
        }
    }
    assert(wrapped_lines(txt@, ms, mw, mh) == (lines_view(lines@), y));
    (lines, y)
}

/// Paints an editable field in a box `mw` wide (before its border) and
/// `mh` high; returns the width with the border.
fn paint_field<P: GamePainter>(p: &mut P, lbl: &Label, bg: Rgba, mw: u32, mh: u32, th: u32) -> (w: u32)
    requires
        mh >= th,
    ensures
        w == u32_specs::wrapping_add(mw, 8),
        final(p).ops()@ == old(p).ops()@ + field_paint(*lbl, bg, mw, mh, th),
        final(p).screen_pos(0, 0) == old(p).screen_pos(0, 0),
        final(p).saved_offs()@ == old(p).saved_offs()@,
{
    let ghost ops0 = p.ops()@;
    let border_pad: u32 = 4;
    let mw2 = mw.wrapping_add(2 * border_pad);
    let bottom = (#[verifier::truncate] (mh as i32)).wrapping_sub(1);
    let right = (#[verifier::truncate] (mw2 as i32)).wrapping_sub(1);
    p.draw_line(1, 0, 1, bottom, 2, bg);
    p.draw_line(right, 0, right, bottom, 2, bg);
    let text_field_width = mw2.wrapping_sub(2 * border_pad);
    p.draw_rect_filled(4, 0, text_field_width, mh, lbl.bg_color);
    p.draw_text(
        4,
        #[verifier::truncate] (((mh - th) / 2) as i32),
        text_field_width,
        lbl.fg_color,
        None,
        lbl.align,
        lbl.text.as_str(),
    );
    assert(p.ops()@ =~= ops0 + field_paint(*lbl, bg, mw, mh, th));
    mw2
}

/// Paints a wrapping label's background and lines in a box of `mw` by
/// `mh`.
fn paint_wrapped<P: GamePainter>(p: &mut P, lbl: &Label, bg: Rgba, mw: u32, mh: u32)
    ensures
        exists|ms: Seq<(u32, u32)>| final(p).ops()@ == old(p).ops()@ + #[trigger] wrapped_paint(*lbl, bg, mw, mh, ms),
        final(p).screen_pos(0, 0) == old(p).screen_pos(0, 0),
        final(p).saved_offs()@ == old(p).saved_offs()@,
{
    let ghost ops0 = p.ops()@;
    let txt = lbl.text.as_str();
    let (lines, y) = wrap_lines(p, txt, mw, mh);
    let ghost ms = choose|ms: Seq<(u32, u32)>| #[trigger] wrapped_lines(txt@, ms, mw, mh) == (lines_view(lines@), y);
    let text_lines_h = #[verifier::truncate] (y as u32);
    let yo = if text_lines_h < mh {
        (mh - text_lines_h) / 2
    } else {
        0
    };
    p.draw_rect_filled(0, 0, mw, mh, bg);
    let ghost ops_r = p.ops()@;
    let ghost texts = wrapped_texts(lines_view(lines@), yo, mw, lbl.fg_color, lbl.align);
    let mut k: usize = 0;
    while k < lines.len()
        invariant
            k <= lines@.len(),
            texts == wrapped_texts(lines_view(lines@), yo, mw, lbl.fg_color, lbl.align),
            forall|j: int| 0 <= j < lines@.len() ==> (#[trigger] lines@[j]).0 == 0,
            p.ops()@ == ops_r + texts.take(k as int),
            p.screen_pos(0, 0) == old(p).screen_pos(0, 0),
            p.saved_offs()@ == old(p).saved_offs()@,
        decreases lines@.len() - k,
    {
        let (lx, ly, ref l) = lines[k];
        p.draw_text(
            lx,
            ly.wrapping_add(#[verifier::truncate] (yo as i32)),
            mw,
            lbl.fg_color,
            None,
            lbl.align,
            l.as_str(),
        );
        proof {
            assert(texts[k as int] == PaintOp::Text(
                lx,
                i32_specs::wrapping_add(ly, #[verifier::truncate] (yo as i32)),
                mw,
                lbl.fg_color,
                None,
                lbl.align,
                l@,
            ));
            assert(texts.take(k + 1) =~= texts.take(k as int).push(texts[k as int]));
        }
        k = k + 1;
    }
    proof {
        assert(texts.take(lines@.len() as int) =~= texts);
        assert(p.ops()@ =~= ops0 + wrapped_paint(*lbl, bg, mw, mh, ms));
    }
}

/// Paints a button with rounded ends in a box `mw` wide (`fb_w` as it was
/// given) and `mh` high; returns its height.
fn paint_button<P: GamePainter>(p: &mut P, lbl: &Label, bg: Rgba, fb_w: u32, mw: u32, mh: u32, th: u32) -> (h: u32)
    requires
        mh >= th,
    ensures
        h == button_height(mw, mh, th),
        final(p).ops()@ == old(p).ops()@ + button_paint(*lbl, bg, fb_w, mw, mh, th),
        final(p).screen_pos(0, 0) == old(p).screen_pos(0, 0),
        final(p).saved_offs()@ == old(p).saved_offs()@,
{
    let ghost ops0 = p.ops()@;
    let ghost mh_in = mh;
    let mut mh = mh;
    let mut corner_radius: u32 = if mw < mh {
        mw / 4
    } else {
        mh / 4
    };
    if corner_radius < th / 2 {
        corner_radius = th / 2;
    }
    mh = corner_radius * 2;
    if mh < th {
        mh = th;
    }
    if mh % 2 == 0 {
        mh = mh + 1;
    }
    let text_pad: u32 = 4;
    let cr = #[verifier::truncate] (corner_radius as i32);
    let mut text_width: i32 = #[verifier::truncate] (mw as i32);
    let mut xo: i32 = 0;
    if lbl.align == -1 {
        p.draw_dot(cr, cr, corner_radius, bg);
        p.draw_rect_filled(#[verifier::truncate] ((mw.wrapping_sub(text_pad)) as i32), 0, text_pad, mh, bg);
        xo = cr;
        text_width = (#[verifier::truncate] (mw as i32)).wrapping_sub(#[verifier::truncate] ((text_pad + corner_radius) as i32));
    } else if lbl.align == 1 {
        p.draw_dot((#[verifier::truncate] (mw as i32)).wrapping_sub(cr), cr, corner_radius, bg);
        p.draw_rect_filled(0, 0, text_pad, mh, bg);
        xo = 4;
        text_width = (#[verifier::truncate] (mw as i32)).wrapping_sub(#[verifier::truncate] ((text_pad + corner_radius) as i32));
    } else if lbl.align == 2 {
    } else {
        p.draw_dot(cr, cr, corner_radius, bg);
        p.draw_dot((#[verifier::truncate] (fb_w as i32)).wrapping_sub(cr), cr, corner_radius, bg);
        xo = cr;
        text_width = (#[verifier::truncate] (mw as i32)).wrapping_sub(2i32.wrapping_mul(cr));
    }
    let text_width: u32 = if text_width < 0 {
        0
    } else {
        text_width as u32
    };
    p.draw_rect_filled(xo, 0, text_width, mh, bg);
    p.draw_text(
        xo,
        #[verifier::truncate] (((mh - th) / 2) as i32),
        text_width,
        lbl.fg_color,
        None,
        lbl.align,
        lbl.text.as_str(),
    );
    assert(corner_radius == button_radius(mw, mh_in, th));
    assert(p.ops()@ =~= ops0 + button_paint(*lbl, bg, fb_w, mw, mh_in, th));
    mh
}

/// Draws label `lbl` of widget `id` in a box of `mw` by `mh` and returns
/// the box it took.
fn draw_label<P: GamePainter>(
    win: &Window,
    id: usize,
    lbl: &Label,
    mw: u32,
    mh: u32,
    max_w: u32,
    p: &mut P,
) -> (r: (u32, u32))
    ensures
        exists|tw: u32, th: u32, ms: Seq<(u32, u32)>|
            #![trigger label_paint(*lbl, label_bg(*win, id, *lbl), mw, mh, max_w, tw, th, ms)]
            r == label_extent(*lbl, mw, mh, max_w, tw, th) && final(p).ops()@ == old(p).ops()@ + label_paint(
                *lbl,
                label_bg(*win, id, *lbl),
                mw,
                mh,
                max_w,
                tw,
                th,
                ms,
            ),
        final(p).screen_pos(0, 0) == old(p).screen_pos(0, 0),
        final(p).saved_offs()@ == old(p).saved_offs()@,
{
    let ghost ops0 = p.ops()@;
    let fb_w = mw;
    let mut mw = mw;
    let mut mh = mh;
    let ghost mw0 = mw;
    let ghost mh0 = mh;
    let ghost mut ms: Seq<(u32, u32)> = Seq::empty();
    let mut bg_color = match win.hover_child {
        Some(h) => if id == h {
            lbl.hlt_color
        } else {
            lbl.bg_color
        },
        None => lbl.bg_color,
    };
    if let Some(f) = win.focus_child {
        if id == f {
            bg_color = lbl.hlt_color;
        }
    }
    assert(bg_color == label_bg(*win, id, *lbl));
    let (tw, th) = p.text_size(lbl.text.as_str());
    if mw == 0 {
        mw = max_w;
    }
    if mh == 0 {
        mh = th;
    }
    if mh < th {
        mh = th;
    }
    let ghost ops1 = p.ops()@;
    if lbl.editable {
        mw = paint_field(p, lbl, bg_color, mw, mh, th);
    } else if lbl.wrap && tw > mw {
        paint_wrapped(p, lbl, bg_color, mw, mh);
        proof {
            ms = choose|ms: Seq<(u32, u32)>| p.ops()@ == ops1 + #[trigger] wrapped_paint(*lbl, bg_color, mw, mh, ms);
        }
    } else if lbl.clickable {
        mh = paint_button(p, lbl, bg_color, fb_w, mw, mh, th);
    } else {
        p.draw_rect_filled(0, 0, mw, mh, lbl.bg_color);
        p.draw_text(0, #[verifier::truncate] (((mh - th) / 2) as i32), mw, lbl.fg_color, None, lbl.align, lbl.text.as_str());
        assert(p.ops()@ =~= ops1 + plain_paint(*lbl, mw, mh, th));
    }
    assert((mw, mh) == label_extent(*lbl, mw0, mh0, max_w, tw, th));
    assert(p.ops()@ == ops0 + label_paint(*lbl, label_bg(*win, id, *lbl), mw0, mh0, max_w, tw, th, ms));
    (mw, mh)
}

/// A stack of widgets laid out up to its `k`-th child, whose children
/// returned the sizes `rs`: the largest extent across the stack so far
/// (starting from the stack's own fitted size) and the offset along it.
pub open spec fn stack_state(dir: BoxDir, fit: (u32, u32), rs: Seq<(u32, u32)>, k: nat) -> (u32, i32)
    decreases k,
{
    if k == 0 {
        (match dir {
            BoxDir::Vert(_) => fit.0,
            BoxDir::Hori(_) => fit.1,
        }, 0i32)
    } else {
        let prev = stack_state(dir, fit, rs, (k - 1) as nat);
        let spacing = match dir {
            BoxDir::Vert(sp) => sp,
            BoxDir::Hori(sp) => sp,
        };
        let o1 = if prev.1 > 0 {
            i32_specs::wrapping_add(prev.1, (#[verifier::truncate] (spacing as i32)))
        } else {
            prev.1
        };
        let r = rs[k - 1];
        let cross = match dir {
            BoxDir::Vert(_) => r.0,
            BoxDir::Hori(_) => r.1,
        };
        let main = match dir {
            BoxDir::Vert(_) => r.1,
            BoxDir::Hori(_) => r.0,
        };
        (if cross > prev.0 {
            cross
        } else {
            prev.0
        }, i32_specs::wrapping_add(o1, (#[verifier::truncate] (main as i32))))
    }
}

/// The space in which the `k`-th child of a stack is drawn: the running
/// extent across the stack, and the stack's own fitted size along it.
#[verifier::opaque]
pub open spec fn child_space(dir: BoxDir, fit: (u32, u32), rs: Seq<(u32, u32)>, k: nat) -> (u32, u32) {
    let m = stack_state(dir, fit, rs, k).0;
    match dir {
        BoxDir::Vert(_) => (m, fit.1),
        BoxDir::Hori(_) => (fit.0, m),
    }
}

/// The size of a stack whose children returned the sizes `rs`.
pub open spec fn stack_result(dir: BoxDir, fit: (u32, u32), rs: Seq<(u32, u32)>) -> (u32, u32) {
    let st = stack_state(dir, fit, rs, rs.len());
    match dir {
        BoxDir::Vert(_) => (st.0, (#[verifier::truncate] (st.1 as u32))),
        BoxDir::Hori(_) => ((#[verifier::truncate] (st.1 as u32)), st.0),
    }
}

/// A call that draws, as opposed to one that moves the painter's offset.
pub open spec fn is_paint(o: PaintOp) -> bool {
    !(o is PushOffs) && !(o is PushAddOffs) && !(o is PopOffs)
}

/// What a label with margin `m` paints: it moves inside its margin, only
/// draws, and moves back.
pub open spec fn label_ops_ok(m: u32, ops: Seq<PaintOp>) -> bool {
    &&& ops.len() >= 2
    &&& ops[0] == PaintOp::PushAddOffs(m as i32, m as i32)
    &&& ops.last() == PaintOp::PopOffs
    &&& forall|k: int| 1 <= k < ops.len() - 1 ==> is_paint(ops[k])
}

/// The offset by which the `k`-th child of a stack is drawn: along the
/// stack, after the children before it and the spacing.
pub open spec fn child_offs(dir: BoxDir, fit: (u32, u32), rs: Seq<(u32, u32)>, k: nat) -> (i32, i32) {
    let o = stack_state(dir, fit, rs, k).1;
    let sp = match dir {
        BoxDir::Vert(sp) => sp,
        BoxDir::Hori(sp) => sp,
    };
    let o1 = if o > 0 {
        i32_specs::wrapping_add(o, (#[verifier::truncate] (sp as i32)))
    } else {
        o
    };
    match dir {
        BoxDir::Vert(_) => (0i32, o1),
        BoxDir::Hori(_) => (o1, 0i32),
    }
}

/// What the first `n` children of a stack paint: each child's calls
/// `cops[k]`, moved to its offset and back.
pub open spec fn stack_ops(
    dir: BoxDir,
    fit: (u32, u32),
    rs: Seq<(u32, u32)>,
    cops: Seq<Seq<PaintOp>>,
    n: int,
) -> Seq<PaintOp>
    decreases n,
{
    if n <= 0 {
        Seq::empty()
    } else {
        let o = child_offs(dir, fit, rs, (n - 1) as nat);
        stack_ops(dir, fit, rs, cops, n - 1) + seq![PaintOp::PushAddOffs(o.0, o.1)] + cops[n - 1] + seq![
            PaintOp::PopOffs,
        ]
    }
}

/// The calls `inner` framed by the move inside a margin `m` and back.
pub open spec fn framed(m: u32, inner: Seq<PaintOp>) -> Seq<PaintOp> {
    seq![PaintOp::PushAddOffs(m as i32, m as i32)] + inner + seq![PaintOp::PopOffs]
}

/// Drawing widget `i` of `win` in a space of `max_w` by `max_h` returned
/// the size `r` and made the painter calls `ops`, for some answers of the
/// painter's text measurements: a label's `label_extent`, moving inside
/// its margin and only drawing there; a stack's `stack_result`, drawing
/// each child at its offset inside the stack's margin.
#[verifier::opaque]
pub open spec fn drawn_size(win: Window, i: int, max_w: u32, max_h: u32, r: (u32, u32), ops: Seq<PaintOp>) -> bool
    decreases win.widget_rank()[i], 1int,
{
    if 0 <= i < win.widgets@.len() {
        match win.widgets@[i] {
            Widget::Label(_, s, l) => label_painted(win, i, l, s.spec_fit(max_w, max_h), max_w, s.margin, r, ops)
                && label_ops_ok(s.margin, ops),
            Widget::Layout(_, s, l) => exists|rs: Seq<(u32, u32)>, cops: Seq<Seq<PaintOp>>|
                #[trigger] one_per_child(l, rs, cops) && stack_drawn(win, i, l, s.spec_fit(max_w, max_h), rs, cops)
                    && r == stack_result(l.dir, s.spec_fit(max_w, max_h), rs) && ops == framed(
                    s.margin,
                    stack_ops(l.dir, s.spec_fit(max_w, max_h), rs, cops, rs.len() as int),
                ),
        }
    } else {
        false
    }
}

/// Label `l`, widget `i` of `win`, fitted to `fit` took the box `r` and
/// made the calls `ops`: moving inside its margin, painting as
/// `label_paint` says for some answers of the painter's text measurement,
/// and moving back.
pub open spec fn label_painted(
    win: Window,
    i: int,
    l: Label,
    fit: (u32, u32),
    max_w: u32,
    margin: u32,
    r: (u32, u32),
    ops: Seq<PaintOp>,
) -> bool {
    exists|tw: u32, th: u32, ms: Seq<(u32, u32)>|
        #![trigger label_paint(l, label_bg(win, i as usize, l), fit.0, fit.1, max_w, tw, th, ms)]
        r == label_extent(l, fit.0, fit.1, max_w, tw, th) && ops == framed(
            margin,
            label_paint(l, label_bg(win, i as usize, l), fit.0, fit.1, max_w, tw, th, ms),
        )
}

/// `rs` and `cops` hold one size and one list of calls for each child of
/// stack `l`.
pub open spec fn one_per_child(l: Layout, rs: Seq<(u32, u32)>, cops: Seq<Seq<PaintOp>>) -> bool {
    rs.len() == l.childs@.len() && cops.len() == l.childs@.len()
}

/// The children of stack `l`, widget `i` of `win`, rank below it and,
/// drawn in turn, returned the sizes `rs` and made the calls `cops`.
pub open spec fn stack_drawn(
    win: Window,
    i: int,
    l: Layout,
    fit: (u32, u32),
    rs: Seq<(u32, u32)>,
    cops: Seq<Seq<PaintOp>>,
) -> bool
    decreases win.widget_rank()[i], 0int,
{
    &&& rs.len() == l.childs@.len()
    &&& cops.len() == l.childs@.len()
    &&& forall|k: int|
        0 <= k < rs.len() ==> win.widget_rank()[l.childs@[k] as int] < win.widget_rank()[i] && drawn_size(
            win,
            l.childs@[k] as int,
            child_space(l.dir, fit, rs, k as nat).0,
            child_space(l.dir, fit, rs, k as nat).1,
            #[trigger] rs[k],
            cops[k],
        )
}

proof fn lemma_layout_drawn(
    win: Window,
    i: int,
    max_w: u32,
    max_h: u32,
    id: usize,
    s: Size,
    l: Layout,
    rs: Seq<(u32, u32)>,
    cops: Seq<Seq<PaintOp>>,
    r: (u32, u32),
    ops: Seq<PaintOp>,
)
    requires
        0 <= i < win.widgets@.len(),
        win.widgets@[i] == Widget::Layout(id, s, l),
        stack_drawn(win, i, l, s.spec_fit(max_w, max_h), rs, cops),
        r == stack_result(l.dir, s.spec_fit(max_w, max_h), rs),
        ops == framed(s.margin, stack_ops(l.dir, s.spec_fit(max_w, max_h), rs, cops, rs.len() as int)),
    ensures
        drawn_size(win, i, max_w, max_h, r, ops),
{
    assert(one_per_child(l, rs, cops));
    reveal_with_fuel(drawn_size, 1);
}

/// Drawing one more child of a stack extends what its children drew.
proof fn lemma_stack_step(
    win: Window,
    l: Layout,
    fit: (u32, u32),
    rs: Seq<(u32, u32)>,
    cops: Seq<Seq<PaintOp>>,
    x: (u32, u32),
    y: Seq<PaintOp>,
)
    requires
        rs.len() < l.childs@.len(),
        cops.len() == rs.len(),
        forall|k: int|
            0 <= k < rs.len() ==> drawn_size(
                win,
                l.childs@[k] as int,
                child_space(l.dir, fit, rs, k as nat).0,
                child_space(l.dir, fit, rs, k as nat).1,
                #[trigger] rs[k],
                cops[k],
            ),
        drawn_size(
            win,
            l.childs@[rs.len() as int] as int,
            child_space(l.dir, fit, rs, rs.len()).0,
            child_space(l.dir, fit, rs, rs.len()).1,
            x,
            y,
        ),
    ensures
        forall|k: int|
            0 <= k <= rs.len() ==> drawn_size(
                win,
                l.childs@[k] as int,
                child_space(l.dir, fit, rs.push(x), k as nat).0,
                child_space(l.dir, fit, rs.push(x), k as nat).1,
                #[trigger] rs.push(x)[k],
                cops.push(y)[k],
            ),
{
    assert forall|k: int| 0 <= k <= rs.len() implies drawn_size(
        win,
        l.childs@[k] as int,
        child_space(l.dir, fit, rs.push(x), k as nat).0,
        child_space(l.dir, fit, rs.push(x), k as nat).1,
        #[trigger] rs.push(x)[k],
        cops.push(y)[k],
    ) by {
        if k < rs.len() {
            assert(drawn_size(
                win,
                l.childs@[k] as int,
                child_space(l.dir, fit, rs, k as nat).0,
                child_space(l.dir, fit, rs, k as nat).1,
                rs[k],
                cops[k],
            ));
            lemma_child_push(win, l.childs@[k] as int, l.dir, fit, rs, x, k as nat, rs[k], cops[k]);
            assert(rs.push(x)[k] == rs[k]);
            assert(cops.push(y)[k] == cops[k]);
        } else {
            lemma_child_push(win, l.childs@[k] as int, l.dir, fit, rs, x, k as nat, x, y);
            assert(rs.push(x)[k] == x);
            assert(cops.push(y)[k] == y);
        }
    }
}

/// What a child drew stays what it drew once a later sibling's size is known.
proof fn lemma_child_push(
    win: Window,
    c: int,
    dir: BoxDir,
    fit: (u32, u32),
    rs: Seq<(u32, u32)>,
    x: (u32, u32),
    k: nat,
    v: (u32, u32),
    o: Seq<PaintOp>,
)
    requires
        k <= rs.len(),
        drawn_size(win, c, child_space(dir, fit, rs, k).0, child_space(dir, fit, rs, k).1, v, o),
    ensures
        drawn_size(win, c, child_space(dir, fit, rs.push(x), k).0, child_space(dir, fit, rs.push(x), k).1, v, o),
{
    lemma_stack_state_push(dir, fit, rs, x, k);
    reveal(child_space);
}

/// What the first `n` children painted stays so once a later sibling is
/// known.
proof fn lemma_stack_ops_push(
    dir: BoxDir,
    fit: (u32, u32),
    rs: Seq<(u32, u32)>,
    cops: Seq<Seq<PaintOp>>,
    x: (u32, u32),
    y: Seq<PaintOp>,
    n: int,
)
    requires
        0 <= n <= rs.len(),
        n <= cops.len(),
    ensures
        stack_ops(dir, fit, rs.push(x), cops.push(y), n) == stack_ops(dir, fit, rs, cops, n),
    decreases n,
{
    if n > 0 {
        lemma_stack_ops_push(dir, fit, rs, cops, x, y, n - 1);
        lemma_stack_state_push(dir, fit, rs, x, (n - 1) as nat);
        assert(cops.push(y)[n - 1] == cops[n - 1]);
    }
}

proof fn lemma_label_drawn(
    win: Window,
    i: int,
    max_w: u32,
    max_h: u32,
    id: usize,
    s: Size,
    l: Label,
    tw: u32,
    th: u32,
    ms: Seq<(u32, u32)>,
    r: (u32, u32),
    ops: Seq<PaintOp>,
)
    requires
        0 <= i < win.widgets@.len(),
        win.widgets@[i] == Widget::Label(id, s, l),
        id == i,
        r == label_extent(l, s.spec_fit(max_w, max_h).0, s.spec_fit(max_w, max_h).1, max_w, tw, th),
        ops == framed(
            s.margin,
            label_paint(l, label_bg(win, id, l), s.spec_fit(max_w, max_h).0, s.spec_fit(max_w, max_h).1, max_w, tw, th, ms),
        ),
    ensures
        drawn_size(win, i, max_w, max_h, r, ops),
{
    let paint = label_paint(l, label_bg(win, id, l), s.spec_fit(max_w, max_h).0, s.spec_fit(max_w, max_h).1, max_w, tw, th, ms);
    lemma_label_paint_paints(l, label_bg(win, id, l), s.spec_fit(max_w, max_h).0, s.spec_fit(max_w, max_h).1, max_w, tw, th, ms);
    assert(label_ops_ok(s.margin, ops)) by {
        assert forall|k: int| 1 <= k < ops.len() - 1 implies is_paint(ops[k]) by {
            assert(ops[k] == paint[k - 1]);
        }
    }
    assert(label_bg(win, i as usize, l) == label_bg(win, id, l));
    assert(ops == framed(
        s.margin,
        label_paint(l, label_bg(win, i as usize, l), s.spec_fit(max_w, max_h).0, s.spec_fit(max_w, max_h).1, max_w, tw, th, ms),
    ));
    assert(label_painted(win, i, l, s.spec_fit(max_w, max_h), max_w, s.margin, r, ops));
    reveal_with_fuel(drawn_size, 1);
}

/// Everything a label paints only draws.
proof fn lemma_label_paint_paints(
    l: Label,
    bg: Rgba,
    mw: u32,
    mh: u32,
    max_w: u32,
    tw: u32,
    th: u32,
    ms: Seq<(u32, u32)>,
)
    ensures
        forall|k: int|
            0 <= k < label_paint(l, bg, mw, mh, max_w, tw, th, ms).len() ==> is_paint(
                #[trigger] label_paint(l, bg, mw, mh, max_w, tw, th, ms)[k],
            ),
{
    let ps = label_paint(l, bg, mw, mh, max_w, tw, th, ms);
    assert forall|k: int| 0 <= k < ps.len() implies is_paint(#[trigger] ps[k]) by {
        let mw1 = if mw == 0 {
            max_w
        } else {
            mw
        };
        let mh1 = if mh == 0 {
            th
        } else {
            mh
        };
        let mh2 = if mh1 < th {
            th
        } else {
            mh1
        };
        if !l.editable && l.wrap && tw > mw1 {
            let (lines, y) = wrapped_lines(l.text@, ms, mw1, mh2);
            let h = #[verifier::truncate] (y as u32);
            let yo: u32 = if h < mh2 {
                ((mh2 - h) / 2) as u32
            } else {
                0
            };
            let ts = wrapped_texts(lines, yo, mw1, l.fg_color, l.align);
            if k > 0 {
                assert(ps[k] == ts[k - 1]);
            }
        }
    }
}

/// The children of a box; a label has none.
pub open spec fn kids(w: Widget) -> Seq<usize> {
    match w {
        Widget::Layout(_, _, l) => l.childs@,
        Widget::Label(_, _, _) => Seq::empty(),
    }
}

/// Widget `j` is widget `i` of `win` or lies inside it: a child of a box
/// that is `i` or lies inside it.
pub open spec fn in_tree(win: Window, i: int, j: int) -> bool
    decreases win.widget_rank()[i],
{
    i == j || (0 <= i < win.widgets@.len() && exists|k: int|
        0 <= k < kids(win.widgets@[i]).len() && win.widget_rank()[#[trigger] kids(win.widgets@[i])[k] as int]
            < win.widget_rank()[i] && in_tree(win, kids(win.widgets@[i])[k] as int, j))
}

/// What lies inside a child of a box lies inside the box.
proof fn lemma_in_tree_child(win: Window, i: int, l: Layout, k: int, j: int)
    requires
        win.layout_ok(),
        0 <= i < win.widgets@.len(),
        win.widgets@[i] matches Widget::Layout(_, _, m) && m == l,
        0 <= k < l.childs@.len(),
        in_tree(win, l.childs@[k] as int, j),
    ensures
        in_tree(win, i, j),
{
    assert(ranks(win.widgets@, win.widget_rank()));
    let ks = kids(win.widgets@[i]);
    assert(ks == l.childs@);
    assert(win.widget_rank()[ks[k] as int] < win.widget_rank()[i]);
    assert(in_tree(win, ks[k] as int, j));
}

/// Drawing child `i` of box `lid` changes no feedback outside the box.
proof fn lemma_frame_step(
    win: Window,
    lid: int,
    l: Layout,
    i: int,
    fb0: Seq<WidgetFeedback>,
    fb1: Seq<WidgetFeedback>,
    fb2: Seq<WidgetFeedback>,
)
    requires
        win.layout_ok(),
        0 <= lid < win.widgets@.len(),
        win.widgets@[lid] matches Widget::Layout(_, _, m) && m == l,
        0 <= i < l.childs@.len(),
        fb1.len() == fb0.len(),
        fb2.len() == fb0.len(),
        forall|j: int| 0 <= j < fb0.len() && !in_tree(win, lid, j) ==> #[trigger] fb1[j] == fb0[j],
        forall|j: int|
            0 <= j < fb0.len() && !in_tree(win, l.childs@[i] as int, j) ==> #[trigger] fb2[j] == fb1[j],
    ensures
        forall|j: int| 0 <= j < fb0.len() && !in_tree(win, lid, j) ==> #[trigger] fb2[j] == fb0[j],
{
    assert forall|j: int| 0 <= j < fb0.len() && !in_tree(win, lid, j) implies #[trigger] fb2[j] == fb0[j] by {
        if in_tree(win, l.childs@[i] as int, j) {
            lemma_in_tree_child(win, lid, l, i, j);
        }
        assert(fb1[j] == fb0[j]);
    }
}

/// Feedback `f` was recorded at `origin` moved by `o`.
pub open spec fn placed_at(f: WidgetFeedback, origin: (i32, i32), o: (i32, i32)) -> bool {
    &&& f.x == #[verifier::truncate] (i32_specs::wrapping_add(origin.0, o.0) as u32)
    &&& f.y == #[verifier::truncate] (i32_specs::wrapping_add(origin.1, o.1) as u32)
}

/// Of the first `n` children of stack `l`, whose children returned the
/// sizes `rs`, each one that no later child of the first `n` contains is
/// recorded in `fb` at its offset in the stack from `origin`.
pub open spec fn children_placed(
    win: Window,
    l: Layout,
    fit: (u32, u32),
    rs: Seq<(u32, u32)>,
    origin: (i32, i32),
    fb: Seq<WidgetFeedback>,
    n: int,
) -> bool {
    forall|k: int|
        #![trigger l.childs@[k]]
        0 <= k < n && (forall|m: int|
            k < m < n ==> !in_tree(win, #[trigger] l.childs@[m] as int, l.childs@[k] as int)) ==> placed_at(
            fb[l.childs@[k] as int],
            origin,
            child_offs(l.dir, fit, rs, k as nat),
        )
}

/// Drawing child `i` of a stack keeps the earlier children that it does
/// not contain where they were recorded, and records it at its offset.
proof fn lemma_children_placed_step(
    win: Window,
    lid: int,
    c: Layout,
    fit: (u32, u32),
    rs: Seq<(u32, u32)>,
    x: (u32, u32),
    origin: (i32, i32),
    fb0: Seq<WidgetFeedback>,
    fb1: Seq<WidgetFeedback>,
    i: int,
)
    requires
        0 <= i < c.childs@.len(),
        rs.len() == i,
        fb1.len() == fb0.len(),
        forall|k: int| 0 <= k < c.childs@.len() ==> #[trigger] c.childs@[k] < fb0.len(),
        children_placed(win, c, fit, rs, origin, fb0, i),
        forall|j: int|
            0 <= j < fb0.len() && !in_tree(win, c.childs@[i] as int, j) ==> #[trigger] fb1[j] == fb0[j],
        placed_at(fb1[c.childs@[i] as int], origin, child_offs(c.dir, fit, rs.push(x), i as nat)),
    ensures
        children_placed(win, c, fit, rs.push(x), origin, fb1, i + 1),
{
    assert forall|k: int|
        #![trigger c.childs@[k]]
        0 <= k < i + 1 && (forall|m: int|
            k < m < i + 1 ==> !in_tree(win, #[trigger] c.childs@[m] as int, c.childs@[k] as int)) implies placed_at(
        fb1[c.childs@[k] as int],
        origin,
        child_offs(c.dir, fit, rs.push(x), k as nat),
    ) by {
        if k < i {
            lemma_stack_state_push(c.dir, fit, rs, x, k as nat);
            assert(!in_tree(win, c.childs@[i] as int, c.childs@[k] as int));
            assert(fb1[c.childs@[k] as int] == fb0[c.childs@[k] as int]);
            assert(forall|m: int| k < m < i ==> !in_tree(win, #[trigger] c.childs@[m] as int, c.childs@[k] as int));
        }
    }
}

proof fn lemma_stack_state_push(dir: BoxDir, fit: (u32, u32), rs: Seq<(u32, u32)>, x: (u32, u32), k: nat)
    requires
        k <= rs.len(),
    ensures
        stack_state(dir, fit, rs.push(x), k) == stack_state(dir, fit, rs, k),
    decreases k,
{
    if k > 0 {
        lemma_stack_state_push(dir, fit, rs, x, (k - 1) as nat);
        assert(rs.push(x)[k - 1] == rs[k - 1]);
    }
}

/// Read from the start, the calls `s` taken at offset depth `d` never move
/// the offset absolutely, undo a move only when one is open, and end at
/// depth `e`.
pub open spec fn nests(s: Seq<PaintOp>, d: int, e: int) -> bool
    decreases s.len(),
{
    if s.len() == 0 {
        d == e
    } else {
        match s[0] {
            PaintOp::PushOffs(_, _) => false,
            PaintOp::PushAddOffs(_, _) => nests(s.drop_first(), d + 1, e),
            PaintOp::PopOffs => d > 0 && nests(s.drop_first(), d - 1, e),
            _ => nests(s.drop_first(), d, e),
        }
    }
}

/// Every move of the offset in `s` is relative and undone later in `s`,
/// moves and their undoing nest, and `s` never sets the offset outright.
pub open spec fn balanced(s: Seq<PaintOp>) -> bool {
    nests(s, 0, 0)
}

proof fn lemma_nests_concat(a: Seq<PaintOp>, b: Seq<PaintOp>, d: int, e: int, f: int)
    requires
        nests(a, d, e),
        nests(b, e, f),
    ensures
        nests(a + b, d, f),
    decreases a.len(),
{
    if a.len() > 0 {
        assert((a + b).drop_first() =~= a.drop_first() + b);
        assert((a + b)[0] == a[0]);
        match a[0] {
            PaintOp::PushAddOffs(_, _) => lemma_nests_concat(a.drop_first(), b, d + 1, e, f),
            PaintOp::PopOffs => lemma_nests_concat(a.drop_first(), b, d - 1, e, f),
            _ => lemma_nests_concat(a.drop_first(), b, d, e, f),
        }
    } else {
        assert(a + b =~= b);
    }
}

proof fn lemma_nests_shift(s: Seq<PaintOp>, d: int, e: int, c: int)
    requires
        nests(s, d, e),
        c >= 0,
    ensures
        nests(s, d + c, e + c),
    decreases s.len(),
{
    if s.len() > 0 {
        match s[0] {
            PaintOp::PushAddOffs(_, _) => lemma_nests_shift(s.drop_first(), d + 1, e, c),
            PaintOp::PopOffs => lemma_nests_shift(s.drop_first(), d - 1, e, c),
            _ => lemma_nests_shift(s.drop_first(), d, e, c),
        }
    }
}

proof fn lemma_nests_paint(s: Seq<PaintOp>, d: int)
    requires
        forall|k: int| 0 <= k < s.len() ==> is_paint(s[k]),
    ensures
        nests(s, d, d),
    decreases s.len(),
{
    if s.len() > 0 {
        assert(is_paint(s[0]));
        lemma_nests_paint(s.drop_first(), d);
    }
}

proof fn lemma_framed_balanced(m: u32, inner: Seq<PaintOp>)
    requires
        balanced(inner),
    ensures
        balanced(framed(m, inner)),
{
    let push = seq![PaintOp::PushAddOffs(m as i32, m as i32)];
    let pop = seq![PaintOp::PopOffs];
    reveal_with_fuel(nests, 2);
    assert(push.drop_first() =~= Seq::<PaintOp>::empty());
    assert(nests(push, 0, 1));
    lemma_nests_shift(inner, 0, 0, 1);
    assert(pop.drop_first() =~= Seq::<PaintOp>::empty());
    assert(nests(pop, 1, 0));
    lemma_nests_concat(push, inner, 0, 1, 1);
    lemma_nests_concat(push + inner, pop, 0, 1, 0);
}

proof fn lemma_stack_ops_balanced(dir: BoxDir, fit: (u32, u32), rs: Seq<(u32, u32)>, cops: Seq<Seq<PaintOp>>, n: int)
    requires
        n <= cops.len(),
        forall|k: int| 0 <= k < n ==> balanced(#[trigger] cops[k]),
    ensures
        balanced(stack_ops(dir, fit, rs, cops, n)),
    decreases n,
{
    if n <= 0 {
        assert(stack_ops(dir, fit, rs, cops, n) =~= Seq::<PaintOp>::empty());
    } else {
        lemma_stack_ops_balanced(dir, fit, rs, cops, n - 1);
        let o = child_offs(dir, fit, rs, (n - 1) as nat);
        let push = seq![PaintOp::PushAddOffs(o.0, o.1)];
        let pop = seq![PaintOp::PopOffs];
        assert(cops[n - 1] == cops[n - 1]);
        reveal_with_fuel(nests, 2);
        assert(push.drop_first() =~= Seq::<PaintOp>::empty());
        assert(nests(push, 0, 1));
        lemma_nests_shift(cops[n - 1], 0, 0, 1);
        assert(pop.drop_first() =~= Seq::<PaintOp>::empty());
        assert(nests(pop, 1, 0));
        let prev = stack_ops(dir, fit, rs, cops, n - 1);
        lemma_nests_concat(prev, push, 0, 0, 1);
        lemma_nests_concat(prev + push, cops[n - 1], 0, 1, 1);
        lemma_nests_concat(prev + push + cops[n - 1], pop, 0, 1, 0);
    }
}

/// Whatever drawing a widget does to the painter's offset it undoes: the
/// calls it makes only move the offset relatively, each move is undone
/// later and the moves nest.
pub proof fn law_widget_draw_balanced(win: Window, i: int, max_w: u32, max_h: u32, r: (u32, u32), ops: Seq<PaintOp>)
    requires
        drawn_size(win, i, max_w, max_h, r, ops),
    ensures
        balanced(ops),
    decreases win.widget_rank()[i], 1int,
{
    reveal_with_fuel(drawn_size, 1);
    match win.widgets@[i] {
        Widget::Label(_, s, l) => {
            let inner = ops.subrange(1, ops.len() - 1);
            assert(ops =~= framed(s.margin, inner));
            lemma_nests_paint(inner, 0);
            lemma_framed_balanced(s.margin, inner);
        },
        Widget::Layout(_, s, l) => {
            let fit = s.spec_fit(max_w, max_h);
            let (rs, cops) = choose|rs: Seq<(u32, u32)>, cops: Seq<Seq<PaintOp>>|
                #[trigger] one_per_child(l, rs, cops) && stack_drawn(win, i, l, fit, rs, cops) && r
                    == stack_result(l.dir, fit, rs) && ops == framed(
                    s.margin,
                    stack_ops(l.dir, fit, rs, cops, rs.len() as int),
                );
            lemma_children_balanced(win, i, l, fit, rs, cops);
            lemma_stack_ops_balanced(l.dir, fit, rs, cops, rs.len() as int);
            lemma_framed_balanced(s.margin, stack_ops(l.dir, fit, rs, cops, rs.len() as int));
        },
    }
}

proof fn lemma_children_balanced(
    win: Window,
    i: int,
    l: Layout,
    fit: (u32, u32),
    rs: Seq<(u32, u32)>,
    cops: Seq<Seq<PaintOp>>,
)
    requires
        stack_drawn(win, i, l, fit, rs, cops),
    ensures
        forall|k: int| 0 <= k < rs.len() ==> balanced(#[trigger] cops[k]),
    decreases win.widget_rank()[i], 0int,
{
    reveal_with_fuel(drawn_size, 1);
    assert forall|k: int| 0 <= k < rs.len() implies balanced(#[trigger] cops[k]) by {
        assert(rs[k] == rs[k]);
        assert(win.widget_rank()[l.childs@[k] as int] < win.widget_rank()[i]);
        assert(drawn_size(
            win,
            l.childs@[k] as int,
            child_space(l.dir, fit, rs, k as nat).0,
            child_space(l.dir, fit, rs, k as nat).1,
            rs[k],
            cops[k],
        ));
        law_widget_draw_balanced(
            win,
            l.childs@[k] as int,
            child_space(l.dir, fit, rs, k as nat).0,
            child_space(l.dir, fit, rs, k as nat).1,
            rs[k],
            cops[k],
        );
    }
}

/// A widget of a window, tagged with its id (its index in the window).
#[derive(Debug)]
pub enum Widget {
    Layout(usize, Size, Layout),
    Label(usize, Size, Label),
}

impl Widget {
    /// The id stored in the widget.
    pub open spec fn spec_id(&self) -> usize {
        match self {
            Widget::Layout(id, _, _) => *id,
            Widget::Label(id, _, _) => *id,
        }
    }

    pub fn id(&self) -> (id: usize)
        ensures
            id == self.spec_id(),
    {
        match self {
            Widget::Layout(id, _, _) => *id,
            Widget::Label(id, _, _) => *id,
        }
    }

    /// The size constraints of the widget.
    pub open spec fn spec_size_of(&self) -> Size {
        match self {
            Widget::Layout(_, s, _) => *s,
            Widget::Label(_, s, _) => *s,
        }
    }

    /// The widget's rectangle before its content is laid out: its screen
    /// position as the painter reports it and its fitted outer size. Also
    /// moves the painter's offset inside the margin.
    pub fn calc_feedback<P: GamePainter>(&self, max_w: u32, max_h: u32, p: &mut P) -> (fb: WidgetFeedback)
        ensures
            fb.id == self.spec_id(),
            fb.x == #[verifier::truncate] (old(p).screen_pos(0, 0).0 as u32),
            fb.y == #[verifier::truncate] (old(p).screen_pos(0, 0).1 as u32),
            fb.w == self.spec_size_of().spec_fit(max_w, max_h).0,
            fb.h == self.spec_size_of().spec_fit(max_w, max_h).1,
            final(p).ops()@ == old(p).ops()@.push(
                PaintOp::PushAddOffs(self.spec_size_of().margin as i32, self.spec_size_of().margin as i32),
            ),
            final(p).screen_pos(0, 0) == (
                i32_specs::wrapping_add(old(p).screen_pos(0, 0).0, self.spec_size_of().margin as i32),
                i32_specs::wrapping_add(old(p).screen_pos(0, 0).1, self.spec_size_of().margin as i32),
            ),
            final(p).saved_offs()@ == old(p).saved_offs()@.push(old(p).screen_pos(0, 0)),
    {
        let pos = p.get_screen_pos(0, 0);
        let (id, (mw, mh)) = match self {
            Widget::Layout(id, l, _) => {
                p.push_add_offs(#[verifier::truncate] (l.margin as i32), #[verifier::truncate] (l.margin as i32));
                (*id, l.fit(max_w, max_h))
            },
            Widget::Label(id, l, _) => {
                p.push_add_offs(#[verifier::truncate] (l.margin as i32), #[verifier::truncate] (l.margin as i32));
                (*id, l.fit(max_w, max_h))
            },
        };
        WidgetFeedback {
            id,
            x: #[verifier::truncate] (pos.0 as u32),
            y: #[verifier::truncate] (pos.1 as u32),
            w: mw,
            h: mh,
        }
    }

    /// Draws the widget and, for a layout, its children, in a space of
    /// `max_w` by `max_h`; records its drawn rectangle, at the painter's
    /// screen position on entry, in `fb` and returns its width and height.
    /// The painter calls it makes are those `drawn_size` describes: moves
    /// of the offset that are undone in turn, and drawing; the painter's
    /// offset ends as it began. A layout records each child at its offset
    /// in the stack, inside its margin, unless a later child contains it;
    /// no feedback outside the widget changes.
    #[verifier::rlimit(80)]
    #[verifier::spinoff_prover]
    pub fn draw<P: GamePainter>(
        &self,
        win: &Window,
        fb: &mut Vec<WidgetFeedback>,
        max_w: u32,
        max_h: u32,
        p: &mut P,
    ) -> (r: (u32, u32))
        requires
            win.layout_ok(),
            self.spec_id() < win.widgets@.len(),
            win.widgets@[self.spec_id() as int] == *self,
            old(fb)@.len() == win.widgets@.len(),
        ensures
            final(fb)@.len() == old(fb)@.len(),
            final(fb)@[self.spec_id() as int] == (WidgetFeedback {
                id: self.spec_id(),
                x: #[verifier::truncate] (old(p).screen_pos(0, 0).0 as u32),
                y: #[verifier::truncate] (old(p).screen_pos(0, 0).1 as u32),
                w: r.0,
                h: r.1,
            }),
            forall|j: int|
                0 <= j < old(fb)@.len() && j != self.spec_id() && win.widget_rank()[j] >= win.widget_rank()[
                self.spec_id() as int] ==> #[trigger] final(fb)@[j] == old(fb)@[j],
            *self is Label ==> forall|j: int|
                0 <= j < old(fb)@.len() && j != self.spec_id() ==> #[trigger] final(fb)@[j] == old(fb)@[j],
            old(p).ops()@.len() <= final(p).ops()@.len(),
            final(p).ops()@.take(old(p).ops()@.len() as int) == old(p).ops()@,
            drawn_size(
                *win,
                self.spec_id() as int,
                max_w,
                max_h,
                r,
                final(p).ops()@.skip(old(p).ops()@.len() as int),
            ),
            balanced(final(p).ops()@.skip(old(p).ops()@.len() as int)),
            final(p).screen_pos(0, 0) == old(p).screen_pos(0, 0),
            final(p).saved_offs()@ == old(p).saved_offs()@,
            forall|j: int|
                0 <= j < old(fb)@.len() && !in_tree(*win, self.spec_id() as int, j) ==> #[trigger] final(fb)@[j]
                    == old(fb)@[j],
            *self matches Widget::Layout(_, s, l) ==> exists|rs: Seq<(u32, u32)>, cops: Seq<Seq<PaintOp>>|
                #[trigger] one_per_child(l, rs, cops) && stack_drawn(
                    *win,
                    self.spec_id() as int,
                    l,
                    s.spec_fit(max_w, max_h),
                    rs,
                    cops,
                ) && final(p).ops()@.skip(old(p).ops()@.len() as int) == framed(
                    s.margin,
                    stack_ops(l.dir, s.spec_fit(max_w, max_h), rs, cops, rs.len() as int),
                ) && children_placed(
                    *win,
                    l,
                    s.spec_fit(max_w, max_h),
                    rs,
                    (
                        i32_specs::wrapping_add(old(p).screen_pos(0, 0).0, s.margin as i32),
                        i32_specs::wrapping_add(old(p).screen_pos(0, 0).1, s.margin as i32),
                    ),
                    final(fb)@,
                    l.childs@.len() as int,
                ),
        decreases win.widget_rank()[self.spec_id() as int],
    {
        let ghost ops0 = p.ops()@;
        let ghost pos0 = p.screen_pos(0, 0);
        let ghost sv0 = p.saved_offs()@;
        let mut w_fb = self.calc_feedback(max_w, max_h, p);
        let ghost ops1 = p.ops()@;
        let ghost inner = p.screen_pos(0, 0);
        let mut mw = w_fb.w;
        let mut mh = w_fb.h;
        let ghost fb0 = fb@;
        let ghost m = self.spec_size_of().margin;
        let ghost mut rs_out: Seq<(u32, u32)> = Seq::empty();
        let ghost mut cops_out: Seq<Seq<PaintOp>> = Seq::empty();
        let ghost mut fb_loop: Seq<WidgetFeedback> = fb@;
        proof {
            assert(ranks(win.widgets@, win.widget_rank()));
            assert(win.widgets@[self.spec_id() as int] == *self);
        }
        match self {
            Widget::Layout(lid, _size, c) => {
                let (vert, spacing) = match c.dir {
                    BoxDir::Vert(sp) => (true, sp),
                    BoxDir::Hori(sp) => (false, sp),
                };
                let mut offs: i32 = 0;
                let mut i: usize = 0;
                let ghost mut rs: Seq<(u32, u32)> = Seq::empty();
                let ghost mut cops: Seq<Seq<PaintOp>> = Seq::empty();
                while i < c.childs.len()
                    invariant
                        win.layout_ok(),
                        *lid == self.spec_id(),
                        self.spec_id() < win.widgets@.len(),
                        win.widgets@[self.spec_id() as int] == *self,
                        forall|k: int|
                            0 <= k < c.childs@.len() ==> #[trigger] c.childs@[k] < win.widgets@.len()
                                && win.widget_rank()[c.childs@[k] as int] < win.widget_rank()[*lid as int],
                        fb@.len() == fb0.len(),
                        fb0.len() == win.widgets@.len(),
                        forall|j: int|
                            0 <= j < fb0.len() && win.widget_rank()[j] >= win.widget_rank()[*lid as int] ==> #[trigger] fb@[j]
                                == fb0[j],
                        vert ==> c.dir == BoxDir::Vert(spacing),
                        !vert ==> c.dir == BoxDir::Hori(spacing),
                        rs.len() == i,
                        cops.len() == i,
                        i <= c.childs@.len(),
                        vert ==> mh == w_fb.h,
                        !vert ==> mw == w_fb.w,
                        stack_state(c.dir, (w_fb.w, w_fb.h), rs, i as nat) == (if vert {
                            mw
                        } else {
                            mh
                        }, offs),
                        forall|k: int|
                            0 <= k < i ==> drawn_size(
                                *win,
                                c.childs@[k] as int,
                                child_space(c.dir, (w_fb.w, w_fb.h), rs, k as nat).0,
                                child_space(c.dir, (w_fb.w, w_fb.h), rs, k as nat).1,
                                #[trigger] rs[k],
                                cops[k],
                            ),
                        p.ops()@ == ops1 + stack_ops(c.dir, (w_fb.w, w_fb.h), rs, cops, i as int),
                        p.screen_pos(0, 0) == inner,
                        p.saved_offs()@ == sv0.push(pos0),
                        forall|j: int|
                            0 <= j < fb0.len() && !in_tree(*win, *lid as int, j) ==> #[trigger] fb@[j] == fb0[j],
                        children_placed(*win, *c, (w_fb.w, w_fb.h), rs, inner, fb@, i as int),
                        win.widgets@[*lid as int] == Widget::Layout(*lid, *_size, *c),
                    decreases c.childs@.len() - i,
                {
                    let c_id = c.childs[i];
                    let ghost mw0 = mw;
                    let ghost mh0 = mh;
                    let ghost pre = p.ops()@;
                    let ghost offs0 = offs;
                    if offs > 0 {
                        offs = offs.wrapping_add(#[verifier::truncate] (spacing as i32));
                    }
                    if vert {
                        p.push_add_offs(0, offs);
                    } else {
                        p.push_add_offs(offs, 0);
                    }
                    let ghost mid = p.ops()@;
                    let ghost pos_mid = p.screen_pos(0, 0);
                    let ghost fb_before = fb@;
                    let (w, h) = win.widgets[c_id].draw(win, fb, mw, mh, p);
                    let ghost child_ops = p.ops()@.skip(mid.len() as int);
                    let ghost after_child = p.ops()@;
                    p.pop_offs();
                    if vert {
                        if w > mw {
                            mw = w;
                        }
                        offs = offs.wrapping_add(#[verifier::truncate] (h as i32));
                    } else {
                        if h > mh {
                            mh = h;
                        }
                        offs = offs.wrapping_add(#[verifier::truncate] (w as i32));
                    }
                    proof {
                        let old_rs = rs;
                        let old_cops = cops;
                        assert(win.widgets@[c_id as int].spec_id() == c_id);
                        reveal(child_space);
                        assert(child_space(c.dir, (w_fb.w, w_fb.h), old_rs, i as nat) == (mw0, mh0));
                        lemma_stack_step(*win, *c, (w_fb.w, w_fb.h), old_rs, old_cops, (w, h), child_ops);
                        lemma_stack_state_push(c.dir, (w_fb.w, w_fb.h), old_rs, (w, h), i as nat);
                        lemma_stack_ops_push(c.dir, (w_fb.w, w_fb.h), old_rs, old_cops, (w, h), child_ops, i as int);
                        rs = old_rs.push((w, h));
                        cops = old_cops.push(child_ops);
                        let o = child_offs(c.dir, (w_fb.w, w_fb.h), rs, i as nat);
                        assert(stack_state(c.dir, (w_fb.w, w_fb.h), rs, i as nat).1 == offs0);
                        assert(mid =~= pre.push(PaintOp::PushAddOffs(o.0, o.1)));
                        assert(after_child =~= mid + child_ops);
                        assert(cops[i as int] == child_ops);
                        assert(stack_ops(c.dir, (w_fb.w, w_fb.h), rs, cops, i + 1) == stack_ops(
                            c.dir,
                            (w_fb.w, w_fb.h),
                            old_rs,
                            old_cops,
                            i as int,
                        ) + seq![PaintOp::PushAddOffs(o.0, o.1)] + child_ops + seq![PaintOp::PopOffs]);
                        assert(p.ops()@ =~= ops1 + stack_ops(c.dir, (w_fb.w, w_fb.h), rs, cops, i + 1));
                        assert(pos_mid == (i32_specs::wrapping_add(inner.0, o.0), i32_specs::wrapping_add(inner.1, o.1)));
                        lemma_frame_step(*win, *lid as int, *c, i as int, fb0, fb_before, fb@);
                        lemma_children_placed_step(
                            *win,
                            *lid as int,
                            *c,
                            (w_fb.w, w_fb.h),
                            old_rs,
                            (w, h),
                            inner,
                            fb_before,
                            fb@,
                            i as int,
                        );
                    }
                    i = i + 1;
                }
                if vert {
                    mh = #[verifier::truncate] (offs as u32);
                } else {
                    mw = #[verifier::truncate] (offs as u32);
                }
                p.pop_offs();
                proof {
                    assert(stack_drawn(*win, *lid as int, *c, (w_fb.w, w_fb.h), rs, cops)) by {
                        reveal_with_fuel(drawn_size, 1);
                    }
                    assert((mw, mh) == stack_result(c.dir, (w_fb.w, w_fb.h), rs));
                    assert(p.ops()@.skip(ops0.len() as int) =~= framed(
                        m,
                        stack_ops(c.dir, (w_fb.w, w_fb.h), rs, cops, rs.len() as int),
                    ));
                    lemma_layout_drawn(
                        *win,
                        self.spec_id() as int,
                        max_w,
                        max_h,
                        *lid,
                        *_size,
                        *c,
                        rs,
                        cops,
                        (mw, mh),
                        p.ops()@.skip(ops0.len() as int),
                    );
                    rs_out = rs;
                    cops_out = cops;
                    fb_loop = fb@;
                }
            },
            Widget::Label(id, _size, lbl) => {
                let r = draw_label(win, *id, lbl, mw, mh, max_w, p);
                let ghost after = p.ops()@;
                mw = r.0;
                mh = r.1;
                p.pop_offs();
                proof {
                    let bg = label_bg(*win, *id, *lbl);
                    let (tw, th, ms) = choose|tw: u32, th: u32, ms: Seq<(u32, u32)>|
                        #![trigger label_paint(*lbl, label_bg(*win, *id, *lbl), w_fb.w, w_fb.h, max_w, tw, th, ms)]
                        r == label_extent(*lbl, w_fb.w, w_fb.h, max_w, tw, th) && after == ops1 + label_paint(
                            *lbl,
                            label_bg(*win, *id, *lbl),
                            w_fb.w,
                            w_fb.h,
                            max_w,
                            tw,
                            th,
                            ms,
                        );
                    let paint = label_paint(*lbl, bg, w_fb.w, w_fb.h, max_w, tw, th, ms);
                    let g = p.ops()@.skip(ops0.len() as int);
                    assert(g =~= framed(m, paint));
                    lemma_label_drawn(*win, self.spec_id() as int, max_w, max_h, *id, *_size, *lbl, tw, th, ms, (mw, mh), g);
                }
            },
        }
        w_fb.w = mw;
        w_fb.h = mh;
        let wid = self.id();
        fb.set(wid, w_fb);
        proof {
            assert(ranks(win.widgets@, win.widget_rank()));
            if let Widget::Layout(_, _, l) = self {
                assert(one_per_child(*l, rs_out, cops_out));
                assert forall|k: int| 0 <= k < l.childs@.len() implies #[trigger] fb@[l.childs@[k] as int]
                    == fb_loop[l.childs@[k] as int] by {
                    assert(win.widget_rank()[l.childs@[k] as int] < win.widget_rank()[self.spec_id() as int]);
                }
            }
            law_widget_draw_balanced(
                *win,
                self.spec_id() as int,
                max_w,
                max_h,
                (mw, mh),
                p.ops()@.skip(ops0.len() as int),
            );
        }
        (mw, mh)
    }
}

/// Where a widget was drawn: the screen rectangle it covered.
#[derive(Debug, Copy, Clone)]
pub struct WidgetFeedback {
    pub id: usize,
    pub x: u32,
    pub y: u32,
    pub w: u32,
    pub h: u32,
}

impl WidgetFeedback {
    /// A zero rectangle for widget 0.
    pub fn new() -> (fb: Self)
        ensures
            fb == (WidgetFeedback { id: 0, x: 0, y: 0, w: 0, h: 0 }),
    {
        WidgetFeedback { id: 0, x: 0, y: 0, w: 0, h: 0 }
    }

    /// `is_inside(x, y)` computes without overflow.
    pub open spec fn inside_ok(&self, x: u32, y: u32) -> bool {
        &&& x >= self.x ==> self.x + self.w <= u32::MAX
        &&& (x >= self.x && x <= self.x + self.w && y >= self.y) ==> self.y + self.h <= u32::MAX
    }

    /// (`x`, `y`) lies in the rectangle, borders included.
    pub open spec fn contains(&self, x: u32, y: u32) -> bool {
        self.x <= x <= self.x + self.w && self.y <= y <= self.y + self.h
    }

    pub fn is_inside(&self, x: u32, y: u32) -> (b: bool)
        requires
            self.inside_ok(x, y),
        ensures
            b == self.contains(x, y),
    {
        x >= self.x && x <= (self.x + self.w) && y >= self.y && y <= (self.y + self.h)
    }
}

/// `value` scaled by `ratio` per mille, or `-ratio` itself if `ratio` is
/// negative.
pub open spec fn spec_p2r(value: u32, ratio: i32) -> int {
    if ratio < 0 {
        -ratio
    } else {
        (value * ratio) / 1000
    }
}

/// `p2r(value, ratio)` computes without overflow.
pub open spec fn p2r_ok(value: u32, ratio: i32) -> bool {
    ratio != i32::MIN && (ratio >= 0 ==> value * ratio <= u32::MAX)
}

/// All values are in 0.1% scale. That means, to represent 100% you have to
/// supply 1000 as ratio to get the full value. A negative ratio is an
/// absolute value.
pub fn p2r(value: u32, ratio: i32) -> (r: u32)
    requires
        p2r_ok(value, ratio),
    ensures
        r == spec_p2r(value, ratio),
{
    if ratio < 0 {
        (-ratio) as u32
    } else {
        (value * ratio as u32) / 1000
    }
}

/// An input event for a window.
pub enum WindowEvent {
    MousePos(i32, i32),
    Click(i32, i32),
    TextInput(String),
    Backspace,
}

/// Direction and spacing of a box layout.
#[derive(Debug, Copy, Clone)]
pub enum BoxDir {
    Vert(u32),
    Hori(u32),
}

/// A box of child widgets, given by their ids.
#[derive(Debug)]
pub struct Layout {
    pub dir: BoxDir,
    pub childs: Vec<usize>,
}

/// Horizontal text alignment.
#[derive(Debug, Copy, Clone)]
pub enum HAlign {
    Left,
    Center,
    Right,
}

impl HAlign {
    /// The x offset of a text of width `tw` in a field of width `mw`.
    pub fn xoffs(&self, tw: u32, mw: u32) -> (r: i32)
        requires
            !(*self is Left) ==> tw <= mw,
        ensures
            r == (#[verifier::truncate] (match self {
                HAlign::Left => 0,
                HAlign::Right => (mw - tw) as u32,
                HAlign::Center => ((mw - tw) / 2) as u32,
            } as i32)),
    {
        (#[verifier::truncate] (match self {
            HAlign::Left => 0,
            HAlign::Right => mw - tw,
            HAlign::Center => (mw - tw) / 2,
        } as i32))
    }
}

/// Size constraints of a widget: minimum and per-mille sizes and a margin.
#[derive(Debug, Clone)]
pub struct Size {
    pub min_w: u32,
    pub w: u32,
    pub min_h: u32,
    pub h: u32,
    pub margin: u32,
}

impl Size {
    /// `size(max_w, max_h)` computes without overflow.
    pub open spec fn size_ok(&self, max_w: u32, max_h: u32) -> bool {
        let m2 = self.margin * 2;
        &&& m2 <= u32::MAX
        &&& p2r_ok(max_w, (#[verifier::truncate] (self.w as i32)))
        &&& spec_p2r(max_w, (#[verifier::truncate] (self.w as i32))) + m2 <= u32::MAX
        &&& p2r_ok(max_h, (#[verifier::truncate] (self.h as i32)))
        &&& spec_p2r(max_h, (#[verifier::truncate] (self.h as i32))) + m2 <= u32::MAX
        &&& self.min_w + m2 <= u32::MAX
        &&& self.min_h + m2 <= u32::MAX
    }

    /// The outer width and height, margins included, in a space of
    /// `max_w` by `max_h`.
    pub open spec fn spec_size(&self, max_w: u32, max_h: u32) -> (int, int) {
        let m2 = self.margin * 2;
        let rw = spec_p2r(max_w, (#[verifier::truncate] (self.w as i32))) + m2;
        let rh = spec_p2r(max_h, (#[verifier::truncate] (self.h as i32))) + m2;
        (
            if rw < self.min_w + m2 {
                self.min_w + m2
            } else {
                rw
            },
            if rh < self.min_h + m2 {
                self.min_h + m2
            } else {
                rh
            },
        )
    }

    pub fn size(&self, max_w: u32, max_h: u32) -> (r: (u32, u32))
        requires
            self.size_ok(max_w, max_h),
        ensures
            r.0 == self.spec_size(max_w, max_h).0,
            r.1 == self.spec_size(max_w, max_h).1,
    {
        let margin2 = self.margin * 2;
        let rw = p2r(max_w, #[verifier::truncate] (self.w as i32)) + margin2;
        let rh = p2r(max_h, #[verifier::truncate] (self.h as i32)) + margin2;
        (
            if rw < (self.min_w + margin2) {
                self.min_w + margin2
            } else {
                rw
            },
            if rh < (self.min_h + margin2) {
                self.min_h + margin2
            } else {
                rh
            },
        )
    }
}

/// `p2r` with the arithmetic wrapping around instead of overflowing.
pub open spec fn spec_p2r_wrapping(value: u32, ratio: i32) -> u32 {
    if ratio < 0 {
        if ratio == i32::MIN {
            0x8000_0000u32
        } else {
            (-ratio) as u32
        }
    } else {
        (u32_specs::wrapping_mul(value, ratio as u32) / 1000) as u32
    }
}

/// `p2r` for values that may come from a painter: the arithmetic wraps
/// around where `p2r` would overflow.
fn p2r_wrapping(value: u32, ratio: i32) -> (r: u32)
    ensures
        r == spec_p2r_wrapping(value, ratio),
        p2r_ok(value, ratio) ==> r == spec_p2r(value, ratio),
{
    if ratio < 0 {
        if ratio == i32::MIN {
            0x8000_0000u32
        } else {
            (-ratio) as u32
        }
    } else {
        let r = value.wrapping_mul(ratio as u32) / 1000;
        proof {
            if p2r_ok(value, ratio) {
                assert(value * (ratio as u32) <= u32::MAX);
                assert(u32_specs::wrapping_mul(value, ratio as u32) == value * (ratio as u32)) by {
                    assert((value as nat * (ratio as u32) as nat) % 0x1_0000_0000 == value as nat * (ratio as u32) as nat)
                        by (nonlinear_arith)
                        requires
                            value as nat * (ratio as u32) as nat <= u32::MAX,
                    ;
                }
            }
        }
        r
    }
}

impl Size {
    /// `size` with the arithmetic wrapping around instead of overflowing.
    pub open spec fn spec_fit(&self, max_w: u32, max_h: u32) -> (u32, u32) {
        let m2 = u32_specs::wrapping_mul(self.margin, 2);
        let rw = u32_specs::wrapping_add(spec_p2r_wrapping(max_w, (#[verifier::truncate] (self.w as i32))), m2);
        let rh = u32_specs::wrapping_add(spec_p2r_wrapping(max_h, (#[verifier::truncate] (self.h as i32))), m2);
        let mw = u32_specs::wrapping_add(self.min_w, m2);
        let mh = u32_specs::wrapping_add(self.min_h, m2);
        (if rw < mw {
            mw
        } else {
            rw
        }, if rh < mh {
            mh
        } else {
            rh
        })
    }

    /// The outer size in a space that a painter measured: like `size`,
    /// and equal to it wherever `size` computes without overflow.
    fn fit(&self, max_w: u32, max_h: u32) -> (r: (u32, u32))
        ensures
            r == self.spec_fit(max_w, max_h),
            self.size_ok(max_w, max_h) ==> r.0 == self.spec_size(max_w, max_h).0 && r.1 == self.spec_size(
                max_w,
                max_h,
            ).1,
    {
        let m2 = self.margin.wrapping_mul(2);
        let rw = p2r_wrapping(max_w, #[verifier::truncate] (self.w as i32)).wrapping_add(m2);
        let rh = p2r_wrapping(max_h, #[verifier::truncate] (self.h as i32)).wrapping_add(m2);
        let mw = self.min_w.wrapping_add(m2);
        let mh = self.min_h.wrapping_add(m2);
        proof {
            if self.size_ok(max_w, max_h) {
                assert(u32_specs::wrapping_mul(self.margin, 2) == self.margin * 2) by {
                    assert((self.margin as nat * 2) % 0x1_0000_0000 == self.margin as nat * 2);
                }
            }
        }
        (if rw < mw {
            mw
        } else {
            rw
        }, if rh < mh {
            mh
        } else {
            rh
        })
    }
}

/// A text label; it can be clickable, or an editable text field whose
/// content must match a regular expression.
#[derive(Debug)]
pub struct Label {
    pub lblref: String,
    pub text: String,
    pub wrap: bool,
    pub align: i32,
    pub editable: bool,
    pub edit_regex: String,
    pub clickable: bool,
    pub hlt_color: (u8, u8, u8, u8),
    pub fg_color: (u8, u8, u8, u8),
    pub bg_color: (u8, u8, u8, u8),
}

impl Label {
    /// A left-aligned, plain label showing `txt`, highlighted in the
    /// inverse of `fg`.
    pub fn new(txt: &str, fg: (u8, u8, u8, u8), bg: (u8, u8, u8, u8)) -> (l: Self)
        ensures
            l.lblref@ == Seq::<char>::empty(),
            l.text@ == txt@,
            l.align == 1,
            !l.wrap,
            !l.editable,
            l.edit_regex@ == ".*"@,
            !l.clickable,
            l.hlt_color == ((255 - fg.0) as u8, (255 - fg.1) as u8, (255 - fg.2) as u8, fg.3),
            l.fg_color == fg,
            l.bg_color == bg,
    {
        Label {
            lblref: String::new(),
            text: txt.to_owned(),
            align: 1,
            wrap: false,
            editable: false,
            edit_regex: ".*".to_owned(),
            clickable: false,
            hlt_color: (255 - fg.0, 255 - fg.1, 255 - fg.2, fg.3),
            fg_color: fg,
            bg_color: bg,
        }
    }

    /// The label with reference name `r`.
    pub fn lblref(self, r: &str) -> (l: Self)
        ensures
            l.lblref@ == r@,
            l.text == self.text,
            l.wrap == self.wrap,
            l.align == self.align,
            l.editable == self.editable,
            l.edit_regex == self.edit_regex,
            l.clickable == self.clickable,
            l.hlt_color == self.hlt_color,
            l.fg_color == self.fg_color,
            l.bg_color == self.bg_color,
    {
        let mut s = self;
        s.lblref = r.to_owned();
        s
    }

    /// The label centred without decoration.
    pub fn center_no_decor(self) -> (l: Self)
        ensures
            l == (Label { align: 2, ..self }),
    {
        let mut s = self;
        s.align = 2;
        s
    }

    /// The label centred.
    pub fn center(self) -> (l: Self)
        ensures
            l == (Label { align: 0, ..self }),
    {
        let mut s = self;
        s.align = 0;
        s
    }

    /// The label right-aligned.
    pub fn right(self) -> (l: Self)
        ensures
            l == (Label { align: -1i32, ..self }),
    {
        let mut s = self;
        s.align = -1;
        s
    }

    /// The label left-aligned.
    pub fn left(self) -> (l: Self)
        ensures
            l == (Label { align: 1, ..self }),
    {
        let mut s = self;
        s.align = 1;
        s
    }

    /// The label made clickable.
    pub fn clickable(self) -> (l: Self)
        ensures
            l == (Label { clickable: true, ..self }),
    {
        let mut s = self;
        s.clickable = true;
        s
    }

    /// The label made an editable field whose text must match `rx`.
    pub fn editable(self, rx: &str) -> (l: Self)
        ensures
            l.editable,
            l.edit_regex@ == rx@,
            l.lblref == self.lblref,
            l.text == self.text,
            l.wrap == self.wrap,
            l.align == self.align,
            l.clickable == self.clickable,
            l.hlt_color == self.hlt_color,
            l.fg_color == self.fg_color,
            l.bg_color == self.bg_color,
    {
        let mut s = self;
        s.editable = true;
        s.edit_regex = rx.to_owned();
        s
    }

    /// The label with line wrapping.
    pub fn wrap(self) -> (l: Self)
        ensures
            l == (Label { wrap: true, ..self }),
    {
        let mut s = self;
        s.wrap = true;
        s
    }
}

/// What the window `win` with frame `f` paints of its decoration when
/// its title measures `tw` by `th`: the black frame, the left end of the
/// title bar, the title (cut to the width there is), the rest of the bar,
/// its right end and the side below it.
pub open spec fn title_paint(win: Window, f: WidgetFeedback, tw: u32, th: u32) -> Seq<PaintOp> {
    let cru = th / 2;
    let cr = #[verifier::truncate] (cru as i32);
    let tc = win.title_color;
    let min_size = u32_specs::wrapping_add(u32_specs::wrapping_mul(4, cru), 44);
    let avail = u32_specs::wrapping_sub(f.w, u32_specs::wrapping_sub(min_size, 20));
    let tw1: u32 = if avail == 0 {
        20
    } else if tw > avail {
        avail
    } else {
        tw
    };
    let text_pos = i32_specs::wrapping_add(i32_specs::wrapping_mul(3, cr), 4);
    let after_text = i32_specs::wrapping_add(i32_specs::wrapping_add(text_pos, 4), #[verifier::truncate] (tw1 as i32));
    let to_max = i32_specs::wrapping_sub(#[verifier::truncate] (f.w as i32), after_text);
    let bar_w = i32_specs::wrapping_sub(to_max, i32_specs::wrapping_mul(2, cr));
    let right = i32_specs::wrapping_sub(i32_specs::wrapping_add(after_text, to_max), i32_specs::wrapping_mul(2, cr));
    let bh = (2 * cru + 1) as u32;
    seq![
        PaintOp::RectFilled(-4i32, -4i32, f.w, f.h, (0u8, 0u8, 0u8, 255u8)),
        PaintOp::Dot(cr, cr, cru, tc),
        PaintOp::RectFilled(cr, 0, bh, bh, tc),
        PaintOp::Text(text_pos, 0, tw1, tc, None, 1, win.title@),
        PaintOp::RectFilled(after_text, 0, #[verifier::truncate] (bar_w as u32), bh, tc),
        PaintOp::Dot(right, cr, cru, tc),
        PaintOp::RectFilled(right, cr, (cru + 1) as u32, u32_specs::wrapping_sub(f.h, (cru + 4) as u32), tc),
    ]
}

/// The painter calls `g` that drawing window `win` in a space of `max_w`
/// by `max_h` makes when its title text is `th` high and its top widget
/// comes out `r` in size: the window's frame becomes the offset, the title
/// bar and frame are drawn as `title_paint` says, the offset moves below the title bar and
/// clipping is set to the inner space, the top widget is drawn there as
/// `drawn_size` describes, leaving the offset as it found it, and
/// clipping and both offsets are undone.
pub open spec fn window_ops_ok(win: Window, max_w: u32, max_h: u32, th: u32, r: (u32, u32), g: Seq<PaintOp>) -> bool {
    let f = win.frame(max_w, max_h, th);
    let inner = Window::inner_space(f, th);
    let n = g.len() as int;
    &&& n >= 13
    &&& g[0] == PaintOp::PushOffs(i32_specs::wrapping_add(4, f.x as i32), i32_specs::wrapping_add(4, f.y as i32))
    &&& exists|tw: u32| g.subrange(1, 8) == #[trigger] title_paint(win, f, tw, th)
    &&& g[8] == PaintOp::PushAddOffs(0, i32_specs::wrapping_add(4, i32_specs::wrapping_mul(2, (th / 2) as i32)))
    &&& g[9] == PaintOp::Clip(0, 0, inner.0, inner.1)
    &&& drawn_size(win, win.child as int, inner.0, inner.1, r, g.subrange(10, n - 3))
    &&& balanced(g.subrange(10, n - 3))
    &&& g[n - 3] == PaintOp::ClipOff
    &&& g[n - 2] == PaintOp::PopOffs
    &&& g[n - 1] == PaintOp::PopOffs
}

/// Where a window whose frame is `win.frame(max_w, max_h, th)` draws its
/// top widget: inside the padding and below the title bar.
pub open spec fn child_origin(win: Window, max_w: u32, max_h: u32, th: u32) -> (i32, i32) {
    let f = win.frame(max_w, max_h, th);
    (
        i32_specs::wrapping_add(i32_specs::wrapping_add(4, f.x as i32), 0),
        i32_specs::wrapping_add(
            i32_specs::wrapping_add(4, f.y as i32),
            i32_specs::wrapping_add(4, i32_specs::wrapping_mul(2, (th / 2) as i32)),
        ),
    )
}

/// When a window's top widget is a box, each of its children that no
/// later child contains is recorded in `fb` at its offset in the box,
/// inside the box's margin from `child_origin`.
pub open spec fn top_children_placed(win: Window, max_w: u32, max_h: u32, th: u32, fb: Seq<WidgetFeedback>) -> bool {
    let inner = Window::inner_space(win.frame(max_w, max_h, th), th);
    let o = child_origin(win, max_w, max_h, th);
    win.widgets@[win.child as int] matches Widget::Layout(_, s, l) ==> exists|
        rs: Seq<(u32, u32)>,
        cops: Seq<Seq<PaintOp>>,
    |
        #[trigger] one_per_child(l, rs, cops) && stack_drawn(
            win,
            win.child as int,
            l,
            s.spec_fit(inner.0, inner.1),
            rs,
            cops,
        ) && children_placed(
            win,
            l,
            s.spec_fit(inner.0, inner.1),
            rs,
            (i32_specs::wrapping_add(o.0, s.margin as i32), i32_specs::wrapping_add(o.1, s.margin as i32)),
            fb,
            l.childs@.len() as int,
        )
}

/// `rank` ranks every child of a box in `ws`, a stored widget, below the
/// box.
pub open spec fn ranks(ws: Seq<Widget>, rank: Seq<nat>) -> bool {
    &&& rank.len() == ws.len()
    &&& forall|i: int|
        0 <= i < ws.len() ==> (#[trigger] ws[i] matches Widget::Layout(_, _, l) ==> forall|k: int|
            0 <= k < l.childs@.len() ==> #[trigger] l.childs@[k] < ws.len() && rank[l.childs@[k] as int] < rank[i])
}

/// The largest rank in `rank`, or 0.
pub open spec fn max_rank(rank: Seq<nat>) -> nat
    decreases rank.len(),
{
    if rank.len() == 0 {
        0
    } else {
        let m = max_rank(rank.drop_last());
        if rank.last() > m {
            rank.last()
        } else {
            m
        }
    }
}

proof fn lemma_max_rank(rank: Seq<nat>, k: int)
    requires
        0 <= k < rank.len(),
    ensures
        rank[k] <= max_rank(rank),
    decreases rank.len(),
{
    if k < rank.len() - 1 {
        lemma_max_rank(rank.drop_last(), k);
    }
}

/// A window: a title bar and a tree of widgets stored flat, plus the state
/// of hovering, focus and activation.
#[derive(Debug)]
pub struct Window {
    pub title: String,
    pub title_color: (u8, u8, u8, u8),
    pub widgets: Vec<Widget>,
    pub feedback: Vec<WidgetFeedback>,
    pub child: usize,
    pub focus_child: Option<usize>,
    pub hover_child: Option<usize>,
    pub activ_child: Option<usize>,
    pub x: i32,
    pub y: i32,
    pub w: i32,
    pub h: i32,
    pub needs_redraw: bool,
    pub win_feedback: WidgetFeedback,
}

/// Widget `w` is a label with reference name `r`.
pub open spec fn is_label_ref(w: Widget, r: Seq<char>) -> bool {
    w matches Widget::Label(_, _, l) && l.lblref@ == r
}

/// Widget `w2` is `w1` after the labels named `r` were set to read `t`.
pub open spec fn label_updated(w1: Widget, w2: Widget, r: Seq<char>, t: Seq<char>) -> bool {
    if is_label_ref(w1, r) {
        relabeled(w1, w2, t)
    } else {
        w2 == w1
    }
}

/// The text of the first label from widget `j` on named `r`.
pub open spec fn label_lookup(ws: Seq<Widget>, r: Seq<char>, j: int) -> Option<Seq<char>>
    decreases ws.len() - j,
{
    if j < 0 || j >= ws.len() {
        None
    } else if is_label_ref(ws[j], r) {
        Some(label_text(ws[j]))
    } else {
        label_lookup(ws, r, j + 1)
    }
}

/// The text of widget `w` if it is a label.
pub open spec fn label_text(w: Widget) -> Seq<char> {
    match w {
        Widget::Label(_, _, l) => l.text@,
        _ => Seq::empty(),
    }
}

/// Widget number `j` is a label for which `p` holds and whose drawn
/// rectangle contains (`x`, `y`).
pub open spec fn label_hit(
    widgets: Seq<Widget>,
    feedback: Seq<WidgetFeedback>,
    x: u32,
    y: u32,
    p: spec_fn(Label) -> bool,
    j: int,
) -> bool {
    &&& widgets[j] is Label
    &&& p(widgets[j]->Label_2)
    &&& feedback[j].contains(x, y)
}

/// The feedback id of the first widget from `j` on that `label_hit`s.
pub open spec fn label_at_from(
    widgets: Seq<Widget>,
    feedback: Seq<WidgetFeedback>,
    x: u32,
    y: u32,
    p: spec_fn(Label) -> bool,
    j: int,
) -> Option<usize>
    decreases feedback.len() - j,
{
    if j >= feedback.len() || j < 0 {
        None
    } else if label_hit(widgets, feedback, x, y, p, j) {
        Some(feedback[j].id)
    } else {
        label_at_from(widgets, feedback, x, y, p, j + 1)
    }
}

/// The hit test of `get_label_at` stays in bounds and does not overflow.
pub open spec fn label_at_ok(widgets: Seq<Widget>, feedback: Seq<WidgetFeedback>, x: u32, y: u32) -> bool {
    &&& feedback.len() <= widgets.len()
    &&& forall|j: int| 0 <= j < feedback.len() ==> (#[trigger] feedback[j]).inside_ok(x, y)
}

/// The new text of widget `w` after `s` was typed into it: only a label
/// changes, and only if its edit pattern compiles and finds a match in the
/// extended text.
pub open spec fn typed_text(w: Widget, s: Seq<char>) -> Option<Seq<char>> {
    match w {
        Widget::Label(_, _, l) => {
            let new = l.text@ + s;
            if regex_compiles(l.edit_regex@) && regex_finds(l.edit_regex@, new) {
                Some(new)
            } else {
                None
            }
        },
        _ => None,
    }
}

/// The new text of widget `w` after a backspace: a label with text loses
/// its last character.
pub open spec fn erased_text(w: Widget) -> Option<Seq<char>> {
    match w {
        Widget::Label(_, _, l) => {
            if l.text@.len() > 0 {
                Some(l.text@.drop_last())
            } else {
                None
            }
        },
        _ => None,
    }
}

/// The focus `fc` is on widget `j`.
pub open spec fn is_focused(fc: Option<usize>, j: int) -> bool {
    fc matches Some(f) && f == j
}

/// `w2` is the label `w1` with its text replaced by one reading `t`.
pub open spec fn relabeled(w1: Widget, w2: Widget, t: Seq<char>) -> bool {
    w1 matches Widget::Label(i1, s1, l1) && w2 matches Widget::Label(i2, s2, l2) && i1 == i2 && s1
        == s2 && l2 == (Label { text: l2.text, ..l1 }) && l2.text@ == t
}

/// Widget `w2` is `w1` after an edit that yields `t` (no edit: unchanged).
pub open spec fn edited(w1: Widget, w2: Widget, t: Option<Seq<char>>) -> bool {
    match t {
        Some(t) => relabeled(w1, w2, t),
        None => w2 == w1,
    }
}

/// A label reacts to the mouse if it can be clicked or edited.
pub open spec fn reacts_to_mouse(l: Label) -> bool {
    l.clickable || l.editable
}

/// Hovering highlights labels that react to the mouse.
fn clickable_or_editable(l: &Label) -> (b: bool)
    ensures
        b == reacts_to_mouse(*l),
{
    l.clickable || l.editable
}

/// Clicks activate clickable labels.
fn is_clickable(l: &Label) -> (b: bool)
    ensures
        b == l.clickable,
{
    l.clickable
}

/// Clicks focus editable labels.
fn is_editable(l: &Label) -> (b: bool)
    ensures
        b == l.editable,
{
    l.editable
}

/// Every answer of the closure `p` agrees with the predicate `q`.
pub open spec fn decides<P: Fn(&Label) -> bool>(p: P, q: spec_fn(Label) -> bool) -> bool {
    forall|l: &Label, b: bool| #[trigger] call_ensures(p, (l,), b) ==> b == q(*l)
}

impl Window {
    /// Every widget's id is its index, and the boxes nest without a cycle:
    /// some ranking puts every child of a box, a stored widget, below the
    /// box.
    pub open spec fn layout_ok(&self) -> bool {
        &&& forall|i: int| 0 <= i < self.widgets@.len() ==> (#[trigger] self.widgets@[i]).spec_id() == i
        &&& exists|rank: Seq<nat>| #[trigger] ranks(self.widgets@, rank)
    }

    /// A ranking of the window's widgets as `layout_ok` asks for, if there
    /// is one.
    pub open spec fn widget_rank(&self) -> Seq<nat> {
        choose|rank: Seq<nat>| ranks(self.widgets@, rank)
    }

    /// The rectangle that `draw` gives the window in a space of `max_w` by
    /// `max_h` when its title text is `th` high: position and size per
    /// mille of the space (or absolute where negative), enlarged to fit
    /// the title decoration.
    pub open spec fn frame(&self, max_w: u32, max_h: u32, th: u32) -> WidgetFeedback {
        let x = spec_p2r(max_w, self.x);
        let y = spec_p2r(max_h, self.y);
        let w0 = if self.x >= 0 {
            spec_p2r(max_w, self.w)
        } else {
            spec_p2r((max_w - x) as u32, self.h)
        };
        let h0 = if self.y >= 0 {
            spec_p2r(max_h, self.h)
        } else {
            spec_p2r((max_h - y) as u32, self.h)
        };
        let decor = u32_specs::wrapping_add(u32_specs::wrapping_mul(4, th / 2), 44);
        WidgetFeedback {
            id: 0,
            x: x as u32,
            y: y as u32,
            w: if w0 <= decor {
                decor
            } else {
                w0 as u32
            },
            h: if h0 <= decor {
                decor
            } else {
                h0 as u32
            },
        }
    }

    /// The space inside a window frame `f` whose title text is `th` high,
    /// in which the top widget is drawn.
    pub open spec fn inner_space(f: WidgetFeedback, th: u32) -> (u32, u32) {
        (
            u32_specs::wrapping_sub(f.w, (th / 2 + 12) as u32),
            u32_specs::wrapping_sub(f.h, u32_specs::wrapping_add((2 * (th / 2)) as u32, 12)),
        )
    }

    /// `draw(max_w, max_h, ..)` reads only stored widgets, terminates, and
    /// its frame arithmetic does not overflow.
    pub open spec fn draw_ok(&self, max_w: u32, max_h: u32) -> bool {
        let x = spec_p2r(max_w, self.x);
        let y = spec_p2r(max_h, self.y);
        &&& self.layout_ok()
        &&& self.child < self.widgets@.len()
        &&& p2r_ok(max_w, self.x)
        &&& p2r_ok(max_h, self.y)
        &&& self.x >= 0 ==> p2r_ok(max_w, self.w)
        &&& self.x < 0 ==> x <= max_w && p2r_ok((max_w - x) as u32, self.h)
        &&& self.y >= 0 ==> p2r_ok(max_h, self.h)
        &&& self.y < 0 ==> y <= max_h && p2r_ok((max_h - y) as u32, self.h)
    }

    /// Draws the window's frame and title bar and its top widget in a
    /// space of `max_w` by `max_h`, and records where every widget and the
    /// window itself were drawn; the top widget sits at `child_origin`,
    /// and the painter's offset ends as it began.
    #[verifier::rlimit(60)]
    #[verifier::spinoff_prover]
    pub fn draw<P: GamePainter>(&mut self, max_w: u32, max_h: u32, p: &mut P)
        requires
            old(self).draw_ok(max_w, max_h),
        ensures
            final(self).feedback@.len() == old(self).widgets@.len(),
            old(p).ops()@.len() <= final(p).ops()@.len(),
            final(p).ops()@.take(old(p).ops()@.len() as int) == old(p).ops()@,
            exists|th: u32|
                final(self).win_feedback == #[trigger] old(self).frame(max_w, max_h, th) && window_ops_ok(
                    *old(self),
                    max_w,
                    max_h,
                    th,
                    (final(self).feedback@[old(self).child as int].w, final(self).feedback@[old(self).child as int].h),
                    final(p).ops()@.skip(old(p).ops()@.len() as int),
                ) && final(self).feedback@[old(self).child as int].x == #[verifier::truncate] (child_origin(
                    *old(self),
                    max_w,
                    max_h,
                    th,
                ).0 as u32) && final(self).feedback@[old(self).child as int].y == #[verifier::truncate] (child_origin(
                    *old(self),
                    max_w,
                    max_h,
                    th,
                ).1 as u32) && top_children_placed(*old(self), max_w, max_h, th, final(self).feedback@),
            final(p).screen_pos(0, 0) == old(p).screen_pos(0, 0),
            final(p).saved_offs()@ == old(p).saved_offs()@,
            final(self).widgets == old(self).widgets,
            final(self).title == old(self).title,
            final(self).title_color == old(self).title_color,
            final(self).child == old(self).child,
            final(self).focus_child == old(self).focus_child,
            final(self).hover_child == old(self).hover_child,
            final(self).activ_child == old(self).activ_child,
            final(self).x == old(self).x && final(self).y == old(self).y,
            final(self).w == old(self).w && final(self).h == old(self).h,
            final(self).needs_redraw == old(self).needs_redraw,
    {
        let mut feedback: Vec<WidgetFeedback> = Vec::new();
        let blank = WidgetFeedback::new();
        let mut k: usize = 0;
        while k < self.widgets.len()
            invariant
                k <= self.widgets@.len(),
                feedback@.len() == k,
            decreases self.widgets@.len() - k,
        {
            feedback.push(blank);
            k = k + 1;
        }
        let mut w_fb = WidgetFeedback::new();
        w_fb.x = p2r(max_w, self.x);
        w_fb.y = p2r(max_h, self.y);
        if self.x >= 0 {
            w_fb.w = p2r(max_w, self.w);
        } else {
            w_fb.w = p2r(max_w - w_fb.x, self.h);
        }
        if self.y >= 0 {
            w_fb.h = p2r(max_h, self.h);
        } else {
            w_fb.h = p2r(max_h - w_fb.y, self.h);
        }
        let ghost ops0 = p.ops()@;
        let mut ts = p.text_size(self.title.as_str());
        let ghost tw0 = ts.0;
        let corner_radius: u32 = ts.1 / 2;
        let text_lr_pad: i32 = 4;
        let padding: i32 = 4;
        let title_color = self.title_color;
        let min_text_width: u32 = 20;
        let min_size_due_to_decor = 4u32.wrapping_mul(corner_radius).wrapping_add(44);
        if w_fb.w <= min_size_due_to_decor {
            w_fb.w = min_size_due_to_decor;
        }
        if w_fb.h <= min_size_due_to_decor {
            w_fb.h = min_size_due_to_decor;
        }
        let ghost frame = w_fb;
        let available_text_width = w_fb.w.wrapping_sub(min_size_due_to_decor.wrapping_sub(min_text_width));
        ts.0 = if available_text_width == 0 {
            min_text_width
        } else if ts.0 > available_text_width {
            available_text_width
        } else {
            ts.0
        };
        p.push_offs(
            padding.wrapping_add(#[verifier::truncate] (w_fb.x as i32)),
            padding.wrapping_add(#[verifier::truncate] (w_fb.y as i32)),
        );
        let cr = #[verifier::truncate] (corner_radius as i32);
        p.draw_rect_filled(-padding, -padding, w_fb.w, w_fb.h, (0, 0, 0, 255));
        p.draw_dot(cr, cr, corner_radius, title_color);
        p.draw_rect_filled(cr, 0, 2 * corner_radius + 1, 2 * corner_radius + 1, title_color);
        let text_pos = 3i32.wrapping_mul(cr).wrapping_add(text_lr_pad);
        p.draw_text(text_pos, 0, ts.0, title_color, None, 1, self.title.as_str());
        let after_text = text_pos.wrapping_add(text_lr_pad).wrapping_add(#[verifier::truncate] (ts.0 as i32));
        let after_text_to_win_max_x = (#[verifier::truncate] (w_fb.w as i32)).wrapping_sub(after_text);
        let bar_w = after_text_to_win_max_x.wrapping_sub(2i32.wrapping_mul(cr));
        p.draw_rect_filled(
            after_text,
            0,
            #[verifier::truncate] (bar_w as u32),
            2 * corner_radius + 1,
            title_color,
        );
        let right_dot_x = after_text.wrapping_add(after_text_to_win_max_x).wrapping_sub(2i32.wrapping_mul(cr));
        p.draw_dot(right_dot_x, cr, corner_radius, title_color);
        p.draw_rect_filled(
            right_dot_x,
            cr,
            corner_radius + 1,
            w_fb.h.wrapping_sub(corner_radius + 4),
            title_color,
        );
        let ww = w_fb.w.wrapping_sub(corner_radius + 12);
        let wh = w_fb.h.wrapping_sub((2 * corner_radius).wrapping_add(12));
        p.push_add_offs(0, padding.wrapping_add(2i32.wrapping_mul(cr)));
        p.set_clip_rect(0, 0, ww, wh);
        let child = &self.widgets[self.child];
        proof {
            assert(self.widgets@[self.child as int].spec_id() == self.child);
        }
        let ghost ops_c = p.ops()@;
        let ghost origin = p.screen_pos(0, 0);
        let r = child.draw(&*self, &mut feedback, ww, wh, p);
        let ghost child_ops = p.ops()@.skip(ops_c.len() as int);
        p.disable_clip_rect();
        p.pop_offs();
        p.pop_offs();
        self.feedback = feedback;
        self.win_feedback = w_fb;
        assert(self.win_feedback == old(self).frame(max_w, max_h, ts.1));
        assert((ww, wh) == Self::inner_space(frame, ts.1));
        proof {
            let g = p.ops()@.skip(ops0.len() as int);
            assert(p.ops()@ =~= ops_c + child_ops + seq![PaintOp::ClipOff, PaintOp::PopOffs, PaintOp::PopOffs]);
            assert(ops_c.len() == ops0.len() + 10);
            assert(g.subrange(10, g.len() - 3) =~= child_ops);
            law_widget_draw_balanced(*old(self), self.child as int, ww, wh, r, child_ops);
            assert(p.ops()@.take(ops0.len() as int) =~= ops0);
            assert(g.subrange(1, 8) =~= title_paint(*old(self), frame, tw0, ts.1));
            assert(window_ops_ok(*old(self), max_w, max_h, ts.1, r, g));
            assert(origin == child_origin(*old(self), max_w, max_h, ts.1));
            assert(top_children_placed(*old(self), max_w, max_h, ts.1, self.feedback@));
        }
    }

    /// An empty, untitled window.
    pub fn new() -> (w: Self)
        ensures
            w.title@ == Seq::<char>::empty(),
            w.title_color == (255u8, 128u8, 128u8, 255u8),
            w.widgets@.len() == 0,
            w.feedback@.len() == 0,
            w.child == 0,
            w.focus_child is None,
            w.hover_child is None,
            w.activ_child is None,
            w.x == 0 && w.y == 0 && w.w == 0 && w.h == 0,
            !w.needs_redraw,
            w.win_feedback == (WidgetFeedback { id: 0, x: 0, y: 0, w: 0, h: 0 }),
            w.layout_ok(),
    {
        let w = Window {
            title: String::new(),
            title_color: (255, 128, 128, 255),
            widgets: Vec::new(),
            feedback: Vec::new(),
            child: 0,
            focus_child: None,
            hover_child: None,
            activ_child: None,
            x: 0,
            y: 0,
            w: 0,
            h: 0,
            needs_redraw: false,
            win_feedback: WidgetFeedback::new(),
        };
        assert(ranks(w.widgets@, Seq::<nat>::empty()));
        w
    }

    /// Adds a box layout of the widgets `c` and returns its id.
    pub fn add_layout(&mut self, s: Size, dir: BoxDir, c: &[usize]) -> (id: usize)
        requires
            old(self).widgets@.len() < usize::MAX,
        ensures
            id == old(self).widgets@.len(),
            final(self).widgets@.len() == id + 1,
            final(self).widgets@.take(id as int) == old(self).widgets@,
            final(self).widgets@[id as int] matches Widget::Layout(wid, ws, l) && wid == id && ws
                == s && l.dir == dir && l.childs@ == c@,
            final(self).title == old(self).title,
            final(self).title_color == old(self).title_color,
            final(self).feedback == old(self).feedback,
            final(self).child == old(self).child,
            final(self).focus_child == old(self).focus_child,
            final(self).hover_child == old(self).hover_child,
            final(self).activ_child == old(self).activ_child,
            final(self).x == old(self).x && final(self).y == old(self).y,
            final(self).w == old(self).w && final(self).h == old(self).h,
            final(self).needs_redraw == old(self).needs_redraw,
            final(self).win_feedback == old(self).win_feedback,
            old(self).layout_ok() && (forall|k: int| 0 <= k < c@.len() ==> #[trigger] c@[k] < id)
                ==> final(self).layout_ok(),
    {
        let id = self.widgets.len();
        let mut childs: Vec<usize> = Vec::new();
        let mut i: usize = 0;
        while i < c.len()
            invariant
                i <= c@.len(),
                childs@ == c@.take(i as int),
            decreases c@.len() - i,
        {
            childs.push(c[i]);
            i = i + 1;
            proof {
                assert(childs@ =~= c@.take(i as int));
            }
        }
        proof {
            assert(c@.take(c@.len() as int) =~= c@);
        }
        self.widgets.push(Widget::Layout(id, s, Layout { dir, childs }));
        proof {
            assert(self.widgets@.take(id as int) =~= old(self).widgets@);
            assert forall|i: int| 0 <= i < old(self).widgets@.len() implies #[trigger] self.widgets@[i]
                == old(self).widgets@[i] by {
                assert(self.widgets@.take(id as int)[i] == self.widgets@[i]);
            }
            if old(self).layout_ok() && (forall|k: int| 0 <= k < c@.len() ==> #[trigger] c@[k] < id) {
                let rank = old(self).widget_rank();
                assert(ranks(old(self).widgets@, rank));
                let top = max_rank(rank) + 1;
                assert forall|k: int| 0 <= k < c@.len() implies rank.push(top)[c@[k] as int] < top by {
                    lemma_max_rank(rank, c@[k] as int);
                }
                assert(ranks(self.widgets@, rank.push(top)));
            }
        }
        id
    }

    /// Adds the label `l` and returns its id.
    pub fn add_label(&mut self, s: Size, l: Label) -> (id: usize)
        requires
            old(self).widgets@.len() < usize::MAX,
        ensures
            id == old(self).widgets@.len(),
            final(self).widgets@ == old(self).widgets@.push(Widget::Label(id, s, l)),
            final(self).title == old(self).title,
            final(self).title_color == old(self).title_color,
            final(self).feedback == old(self).feedback,
            final(self).child == old(self).child,
            final(self).focus_child == old(self).focus_child,
            final(self).hover_child == old(self).hover_child,
            final(self).activ_child == old(self).activ_child,
            final(self).x == old(self).x && final(self).y == old(self).y,
            final(self).w == old(self).w && final(self).h == old(self).h,
            final(self).needs_redraw == old(self).needs_redraw,
            final(self).win_feedback == old(self).win_feedback,
            old(self).layout_ok() ==> final(self).layout_ok(),
    {
        let id = self.widgets.len();
        self.widgets.push(Widget::Label(id, s, l));
        proof {
            assert forall|i: int| 0 <= i < old(self).widgets@.len() implies #[trigger] self.widgets@[i]
                == old(self).widgets@[i] by {}
            if old(self).layout_ok() {
                let rank = old(self).widget_rank();
                assert(ranks(old(self).widgets@, rank));
                assert(ranks(self.widgets@, rank.push(0)));
            }
        }
        id
    }

    pub fn needs_redraw(&self) -> (b: bool)
        ensures
            b == self.needs_redraw,
    {
        self.needs_redraw
    }

    /// The name and text of every label, in widget order.
    pub fn collect_label_texts(&self) -> (r: Vec<(String, String)>)
        ensures
            pairs_view(r@) == label_texts(self.widgets@),
    {
        let mut out: Vec<(String, String)> = Vec::new();
        let mut j: usize = 0;
        while j < self.widgets.len()
            invariant
                j <= self.widgets@.len(),
                pairs_view(out@) == label_texts(self.widgets@.take(j as int)),
            decreases self.widgets@.len() - j,
        {
            let ghost before = out@;
            assert(self.widgets@.take(j + 1).drop_last() =~= self.widgets@.take(j as int));
            match &self.widgets[j] {
                Widget::Label(_, _, lbl) => {
                    out.push((lbl.lblref.clone(), lbl.text.clone()));
                    assert(pairs_view(out@) =~= pairs_view(before).push((lbl.lblref@, lbl.text@)));
                },
                _ => {},
            }
            j = j + 1;
        }
        assert(self.widgets@.take(self.widgets@.len() as int) =~= self.widgets@);
        out
    }

    /// The text of the first label named `lblref`.
    pub fn get_label_text(&self, lblref: &str) -> (r: Option<String>)
        ensures
            (match r {
                Some(t) => Some(t@),
                None => None,
            }) == label_lookup(self.widgets@, lblref@, 0),
            match r {
                None => forall|j: int|
                    0 <= j < self.widgets@.len() ==> !is_label_ref(#[trigger] self.widgets@[j], lblref@),
                Some(t) => exists|j: int|
                    0 <= j < self.widgets@.len() && is_label_ref(#[trigger] self.widgets@[j], lblref@)
                        && t@ == label_text(self.widgets@[j]) && forall|i: int|
                        0 <= i < j ==> !is_label_ref(#[trigger] self.widgets@[i], lblref@),
            },
    {
        let mut j: usize = 0;
        while j < self.widgets.len()
            invariant
                j <= self.widgets@.len(),
                forall|i: int| 0 <= i < j ==> !is_label_ref(#[trigger] self.widgets@[i], lblref@),
                label_lookup(self.widgets@, lblref@, 0) == label_lookup(self.widgets@, lblref@, j as int),
            decreases self.widgets@.len() - j,
        {
            match &self.widgets[j] {
                Widget::Label(_, _, lbl) => {
                    if str_eq(lbl.lblref.as_str(), lblref) {
                        return Some(lbl.text.clone());
                    }
                },
                _ => {},
            }
            j = j + 1;
        }
        None
    }

    /// Sets the text of every label named `lblref` to `text`; the window
    /// then needs a redraw if any label matched.
    pub fn set_label_text(&mut self, lblref: &str, text: String)
        ensures
            final(self).widgets@.len() == old(self).widgets@.len(),
            forall|j: int|
                0 <= j < old(self).widgets@.len() ==> label_updated(
                    #[trigger] old(self).widgets@[j],
                    final(self).widgets@[j],
                    lblref@,
                    text@,
                ),
            final(self).needs_redraw == (old(self).needs_redraw || exists|j: int|
                0 <= j < old(self).widgets@.len() && is_label_ref(#[trigger] old(self).widgets@[j], lblref@)),
            final(self).title == old(self).title,
            final(self).title_color == old(self).title_color,
            final(self).feedback == old(self).feedback,
            final(self).child == old(self).child,
            final(self).focus_child == old(self).focus_child,
            final(self).hover_child == old(self).hover_child,
            final(self).activ_child == old(self).activ_child,
            final(self).x == old(self).x && final(self).y == old(self).y,
            final(self).w == old(self).w && final(self).h == old(self).h,
            final(self).win_feedback == old(self).win_feedback,
    {
        let ghost ow = self.widgets@;
        let mut j: usize = 0;
        while j < self.widgets.len()
            invariant
                j <= self.widgets@.len(),
                self.widgets@.len() == ow.len(),
                ow == old(self).widgets@,
                forall|i: int|
                    j <= i < ow.len() ==> #[trigger] self.widgets@[i] == ow[i],
                forall|i: int| 0 <= i < j ==> label_updated(#[trigger] ow[i], self.widgets@[i], lblref@, text@),
                self.needs_redraw == (old(self).needs_redraw || exists|i: int|
                    0 <= i < j && is_label_ref(#[trigger] ow[i], lblref@)),
                self.title == old(self).title,
                self.title_color == old(self).title_color,
                self.feedback == old(self).feedback,
                self.child == old(self).child,
                self.focus_child == old(self).focus_child,
                self.hover_child == old(self).hover_child,
                self.activ_child == old(self).activ_child,
                self.x == old(self).x && self.y == old(self).y,
                self.w == old(self).w && self.h == old(self).h,
                self.win_feedback == old(self).win_feedback,
            decreases ow.len() - j,
        {
            let ghost before = self.widgets@;
            let ghost before_redraw = self.needs_redraw;
            let hit = match &self.widgets[j] {
                Widget::Label(_, _, lbl) => str_eq(lbl.lblref.as_str(), lblref),
                _ => false,
            };
            assert(hit == is_label_ref(ow[j as int], lblref@));
            if hit {
                match &mut self.widgets[j] {
                    Widget::Label(_, _, lbl) => {
                        lbl.text = text.clone();
                    },
                    _ => {},
                }
                self.needs_redraw = true;
            }
            proof {
                assert forall|i: int| 0 <= i < ow.len() && i != j implies #[trigger] self.widgets@[i] == before[i] by {}
                if hit {
                    assert(exists|i: int| 0 <= i < j + 1 && is_label_ref(#[trigger] ow[i], lblref@)) by {
                        assert(is_label_ref(ow[j as int], lblref@));
                    }
                } else {
                    assert(self.widgets@ == before);
                    if exists|i: int| 0 <= i < j + 1 && is_label_ref(#[trigger] ow[i], lblref@) {
                        let i = choose|i: int| 0 <= i < j + 1 && is_label_ref(#[trigger] ow[i], lblref@);
                        assert(i != j);
                    }
                }
            }
            j = j + 1;
        }
    }

    /// Takes the activated widget and returns its reference name if it is a
    /// label.
    pub fn collect_activated_child(&mut self) -> (r: Option<String>)
        requires
            old(self).activ_child matches Some(idx) ==> idx < old(self).widgets@.len(),
        ensures
            final(self).activ_child is None,
            r == (match old(self).activ_child {
                Some(idx) => match old(self).widgets@[idx as int] {
                    Widget::Label(_, _, l) => Some(l.lblref),
                    _ => None,
                },
                None => None,
            }),
            final(self).widgets == old(self).widgets,
            final(self).title == old(self).title,
            final(self).title_color == old(self).title_color,
            final(self).feedback == old(self).feedback,
            final(self).child == old(self).child,
            final(self).focus_child == old(self).focus_child,
            final(self).hover_child == old(self).hover_child,
            final(self).x == old(self).x && final(self).y == old(self).y,
            final(self).w == old(self).w && final(self).h == old(self).h,
            final(self).needs_redraw == old(self).needs_redraw,
            final(self).win_feedback == old(self).win_feedback,
    {
        if let Some(idx) = self.activ_child {
            self.activ_child = None;
            match &self.widgets[idx] {
                Widget::Label(_, _, lbl) => {
                    return Some(lbl.lblref.clone());
                },
                _ => (),
            }
        }
        None
    }

    /// `handle_event(ev)` reads only stored widgets and computes without
    /// overflow.
    pub open spec fn handle_ok(&self, ev: WindowEvent) -> bool {
        match ev {
            WindowEvent::MousePos(x, y) | WindowEvent::Click(x, y) => {
                let ux = (#[verifier::truncate] (x as u32));
                let uy = (#[verifier::truncate] (y as u32));
                &&& self.win_feedback.inside_ok(ux, uy)
                &&& self.win_feedback.contains(ux, uy) ==> label_at_ok(self.widgets@, self.feedback@, ux, uy)
            },
            _ => self.focus_child matches Some(id) ==> id < self.widgets@.len(),
        }
    }

    /// Feeds an input event to the window: mouse moves update the hovered
    /// label, clicks the activated and the focused one, text input and
    /// backspace edit the focused field. Returns whether the event was
    /// consumed.
    pub fn handle_event(&mut self, ev: WindowEvent) -> (handled: bool)
        requires
            old(self).handle_ok(ev),
        ensures
            final(self).title == old(self).title,
            final(self).title_color == old(self).title_color,
            final(self).feedback == old(self).feedback,
            final(self).child == old(self).child,
            final(self).x == old(self).x && final(self).y == old(self).y,
            final(self).w == old(self).w && final(self).h == old(self).h,
            final(self).needs_redraw == old(self).needs_redraw,
            final(self).win_feedback == old(self).win_feedback,
            final(self).widgets@.len() == old(self).widgets@.len(),
            match ev {
                WindowEvent::MousePos(x, y) => {
                    let ux = (#[verifier::truncate] (x as u32));
                    let uy = (#[verifier::truncate] (y as u32));
                    &&& handled == old(self).win_feedback.contains(ux, uy)
                    &&& final(self).hover_child == (if handled {
                        label_at_from(old(self).widgets@, old(self).feedback@, ux, uy, |l: Label| reacts_to_mouse(l), 0)
                    } else {
                        old(self).hover_child
                    })
                    &&& final(self).activ_child == old(self).activ_child
                    &&& final(self).focus_child == old(self).focus_child
                    &&& final(self).widgets == old(self).widgets
                },
                WindowEvent::Click(x, y) => {
                    let ux = (#[verifier::truncate] (x as u32));
                    let uy = (#[verifier::truncate] (y as u32));
                    &&& handled == old(self).win_feedback.contains(ux, uy)
                    &&& final(self).activ_child == (if handled {
                        label_at_from(old(self).widgets@, old(self).feedback@, ux, uy, |l: Label| l.clickable, 0)
                    } else {
                        old(self).activ_child
                    })
                    &&& final(self).focus_child == (if handled {
                        label_at_from(old(self).widgets@, old(self).feedback@, ux, uy, |l: Label| l.editable, 0)
                    } else {
                        old(self).focus_child
                    })
                    &&& final(self).hover_child == old(self).hover_child
                    &&& final(self).widgets == old(self).widgets
                },
                WindowEvent::TextInput(s) => {
                    &&& handled
                    &&& final(self).hover_child == old(self).hover_child
                    &&& final(self).activ_child == old(self).activ_child
                    &&& final(self).focus_child == old(self).focus_child
                    &&& forall|j: int|
                        0 <= j < old(self).widgets@.len() ==> if is_focused(old(self).focus_child, j) {
                            edited(old(self).widgets@[j], #[trigger] final(self).widgets@[j], typed_text(old(self).widgets@[j], s@))
                        } else {
                            final(self).widgets@[j] == old(self).widgets@[j]
                        }
                },
                WindowEvent::Backspace => {
                    &&& handled
                    &&& final(self).hover_child == old(self).hover_child
                    &&& final(self).activ_child == old(self).activ_child
                    &&& final(self).focus_child == old(self).focus_child
                    &&& forall|j: int|
                        0 <= j < old(self).widgets@.len() ==> if is_focused(old(self).focus_child, j) {
                            edited(old(self).widgets@[j], #[trigger] final(self).widgets@[j], erased_text(old(self).widgets@[j]))
                        } else {
                            final(self).widgets@[j] == old(self).widgets@[j]
                        }
                },
            },
    {
        let ghost ow = self.widgets@;
        match ev {
            WindowEvent::MousePos(x, y) => {
                let ux = #[verifier::truncate] (x as u32);
                let uy = #[verifier::truncate] (y as u32);
                if self.win_feedback.is_inside(ux, uy) {
                    let h = self.get_label_at(
                        ux,
                        uy,
                        clickable_or_editable,
                    );
                    proof {
                        let q = |l: Label| reacts_to_mouse(l);
                        assert(decides(clickable_or_editable, q));
                        assert(h == label_at_from(self.widgets@, self.feedback@, ux, uy, q, 0));
                    }
                    self.hover_child = h;
                    true
                } else {
                    false
                }
            },
            WindowEvent::Click(x, y) => {
                let ux = #[verifier::truncate] (x as u32);
                let uy = #[verifier::truncate] (y as u32);
                if self.win_feedback.is_inside(ux, uy) {
                    let a = self.get_label_at(
                        ux,
                        uy,
                        is_clickable,
                    );
                    proof {
                        let q = |l: Label| l.clickable;
                        assert(a == label_at_from(self.widgets@, self.feedback@, ux, uy, q, 0));
                    }
                    self.activ_child = a;
                    let f = self.get_label_at(
                        ux,
                        uy,
                        is_editable,
                    );
                    proof {
                        let q = |l: Label| l.editable;
                        assert(f == label_at_from(self.widgets@, self.feedback@, ux, uy, q, 0));
                    }
                    self.focus_child = f;
                    true
                } else {
                    false
                }
            },
            WindowEvent::TextInput(s) => {
                if let Some(id) = self.focus_child {
                    match &mut self.widgets[id] {
                        Widget::Label(_, _, lbl) => {
                            let ghost ol = *lbl;
                            let new = lbl.text.clone().concat(s.as_str());
                            assert(new@ == ol.text@ + s@);
                            if let Some(rx) = compile_edit_pattern(lbl.edit_regex.as_str()) {
                                if edit_pattern_finds(&rx, new.as_str()) {
                                    lbl.text = new;
                                    assert(lbl.text@ == ol.text@ + s@);
                                    assert(*lbl == Label { text: lbl.text, ..ol });
                                }
                            }
                        },
                        _ => (),
                    }
                    proof {
                        assert forall|j: int| 0 <= j < ow.len() && j != id implies #[trigger] self.widgets@[j] == ow[j] by {}
                        assert(edited(ow[id as int], self.widgets@[id as int], typed_text(ow[id as int], s@)));
                    }
                }
                true
            },
            WindowEvent::Backspace => {
                if let Some(id) = self.focus_child {
                    match &mut self.widgets[id] {
                        Widget::Label(_, _, lbl) => {
                            if !lbl.text.as_str().is_empty() {
                                string_pop(&mut lbl.text);
                            }
                        },
                        _ => (),
                    }
                    proof {
                        assert forall|j: int| 0 <= j < ow.len() && j != id implies #[trigger] self.widgets@[j] == ow[j] by {}
                    }
                }
                true
            },
        }
    }

    /// The feedback id of the first label for which `p` holds and whose
    /// drawn rectangle contains (`x`, `y`).
    pub fn get_label_at<P>(&self, x: u32, y: u32, p: P) -> (r: Option<usize>) where
        P: Fn(&Label) -> bool,
        requires
            label_at_ok(self.widgets@, self.feedback@, x, y),
            forall|l: &Label| #[trigger] call_requires(p, (l,)),
        ensures
            forall|q: spec_fn(Label) -> bool|
                #![trigger label_at_from(self.widgets@, self.feedback@, x, y, q, 0)]
                decides(p, q) ==> r == label_at_from(self.widgets@, self.feedback@, x, y, q, 0),
    {
        let mut idx: usize = 0;
        while idx < self.feedback.len()
            invariant
                idx <= self.feedback@.len(),
                label_at_ok(self.widgets@, self.feedback@, x, y),
                forall|l: &Label| #[trigger] call_requires(p, (l,)),
                forall|q: spec_fn(Label) -> bool|
                    #![trigger label_at_from(self.widgets@, self.feedback@, x, y, q, 0)]
                    decides(p, q) ==> label_at_from(self.widgets@, self.feedback@, x, y, q, 0)
                        == label_at_from(self.widgets@, self.feedback@, x, y, q, idx as int),
            decreases self.feedback@.len() - idx,
        {
            let fb = self.feedback[idx];
            assert(fb.inside_ok(x, y));
            match &self.widgets[idx] {
                Widget::Label(_, _, lbl) => {
                    let hit = p(&*lbl);
                    proof {
                        assert(call_ensures(p, (&(*lbl),), hit));
                    }
                    if hit {
                        if fb.is_inside(x, y) {
                            proof {
                                assert forall|q: spec_fn(Label) -> bool|
                                    #![trigger label_at_from(self.widgets@, self.feedback@, x, y, q, 0)]
                                    decides(p, q) implies Some(fb.id) == label_at_from(
                                        self.widgets@, self.feedback@, x, y, q, 0) by {
                                    assert(label_at_from(self.widgets@, self.feedback@, x, y, q, idx as int)
                                        == label_at_from(self.widgets@, self.feedback@, x, y, q, 0));
                                    assert(hit == q(*lbl));
                                }
                            }
                            return Some(fb.id);
                        }
                    }
                    proof {
                        assert forall|q: spec_fn(Label) -> bool|
                            #![trigger label_at_from(self.widgets@, self.feedback@, x, y, q, 0)]
                            decides(p, q) implies label_at_from(self.widgets@, self.feedback@, x, y, q, 0)
                                == label_at_from(self.widgets@, self.feedback@, x, y, q, idx + 1) by {
                            assert(label_at_from(self.widgets@, self.feedback@, x, y, q, idx as int)
                                == label_at_from(self.widgets@, self.feedback@, x, y, q, 0));
                            assert(hit == q(*lbl));
                        }
                    }
                },
                _ => {
                    proof {
                        assert forall|q: spec_fn(Label) -> bool|
                            #![trigger label_at_from(self.widgets@, self.feedback@, x, y, q, 0)]
                            decides(p, q) implies label_at_from(self.widgets@, self.feedback@, x, y, q, 0)
                                == label_at_from(self.widgets@, self.feedback@, x, y, q, idx + 1) by {
                            assert(label_at_from(self.widgets@, self.feedback@, x, y, q, idx as int)
                                == label_at_from(self.widgets@, self.feedback@, x, y, q, 0));
                        }
                    }
                },
            }
            idx = idx + 1;
        }
        None
    }
}

/// The name and text of every label of `ws`, in order.
pub open spec fn label_texts(ws: Seq<Widget>) -> Seq<(Seq<char>, Seq<char>)>
    decreases ws.len(),
{
    if ws.len() == 0 {
        Seq::empty()
    } else {
        let p = label_texts(ws.drop_last());
        match ws.last() {
            Widget::Label(_, _, l) => p.push((l.lblref@, l.text@)),
            Widget::Layout(_, _, _) => p,
        }
    }
}

/// Pairs of strings as pairs of texts.
pub open spec fn pairs_view(v: Seq<(String, String)>) -> Seq<(Seq<char>, Seq<char>)> {
    Seq::new(v.len(), |k: int| (v[k].0@, v[k].1@))
}

/// Across a stack, the running extent after `k` children is the largest
/// of the stack's own fitted extent and the extents the children
/// returned.
proof fn lemma_stack_cross(dir: BoxDir, fit: (u32, u32), rs: Seq<(u32, u32)>, k: nat)
    requires
        k <= rs.len(),
    ensures
        dir is Hori ==> {
            let c = stack_state(dir, fit, rs, k).0;
            &&& c >= fit.1
            &&& forall|j: int| 0 <= j < k ==> c >= #[trigger] rs[j].1
            &&& c == fit.1 || exists|j: int| 0 <= j < k && c == #[trigger] rs[j].1
        },
        dir is Vert ==> {
            let c = stack_state(dir, fit, rs, k).0;
            &&& c >= fit.0
            &&& forall|j: int| 0 <= j < k ==> c >= #[trigger] rs[j].0
            &&& c == fit.0 || exists|j: int| 0 <= j < k && c == #[trigger] rs[j].0
        },
    decreases k,
{
    if k > 0 {
        lemma_stack_cross(dir, fit, rs, (k - 1) as nat);
        let prev = stack_state(dir, fit, rs, (k - 1) as nat);
        let c = stack_state(dir, fit, rs, k).0;
        if dir is Hori {
            if c == rs[k - 1].1 {
                assert(exists|j: int| 0 <= j < k && c == #[trigger] rs[j].1);
            } else if c != fit.1 {
                let j0 = choose|j: int| 0 <= j < k - 1 && prev.0 == #[trigger] rs[j].1;
                assert(0 <= j0 < k && c == rs[j0].1);
            }
        } else {
            if c == rs[k - 1].0 {
                assert(exists|j: int| 0 <= j < k && c == #[trigger] rs[j].0);
            } else if c != fit.0 {
                let j0 = choose|j: int| 0 <= j < k - 1 && prev.0 == #[trigger] rs[j].0;
                assert(0 <= j0 < k && c == rs[j0].0);
            }
        }
    }
}

/// A box drawn in a space of `max_w` by `max_h` is, across its stacking
/// direction, as large as the largest of its own fitted extent and the
/// extents its children came out in: a horizontal box as high as its
/// tallest child (or its fitted height), a vertical box as wide as its
/// widest child (or its fitted width).
pub proof fn law_box_cross_extent(win: Window, i: int, max_w: u32, max_h: u32, r: (u32, u32), ops: Seq<PaintOp>)
    requires
        0 <= i < win.widgets@.len(),
        win.widgets@[i] is Layout,
        drawn_size(win, i, max_w, max_h, r, ops),
    ensures
        win.widgets@[i] matches Widget::Layout(_, s, l) ==> exists|rs: Seq<(u32, u32)>, cops: Seq<Seq<PaintOp>>|
            #[trigger] one_per_child(l, rs, cops) && stack_drawn(win, i, l, s.spec_fit(max_w, max_h), rs, cops) && (
            l.dir is Hori ==> {
                &&& r.1 >= s.spec_fit(max_w, max_h).1
                &&& forall|k: int| 0 <= k < rs.len() ==> r.1 >= #[trigger] rs[k].1
                &&& r.1 == s.spec_fit(max_w, max_h).1 || exists|k: int| 0 <= k < rs.len() && r.1 == #[trigger] rs[k].1
            }) && (l.dir is Vert ==> {
                &&& r.0 >= s.spec_fit(max_w, max_h).0
                &&& forall|k: int| 0 <= k < rs.len() ==> r.0 >= #[trigger] rs[k].0
                &&& r.0 == s.spec_fit(max_w, max_h).0 || exists|k: int| 0 <= k < rs.len() && r.0 == #[trigger] rs[k].0
            }),
{
    reveal_with_fuel(drawn_size, 1);
    if let Widget::Layout(_, s, l) = win.widgets@[i] {
        let fit = s.spec_fit(max_w, max_h);
        let (rs, cops) = choose|rs: Seq<(u32, u32)>, cops: Seq<Seq<PaintOp>>|
            #[trigger] one_per_child(l, rs, cops) && stack_drawn(win, i, l, fit, rs, cops) && r
                == stack_result(l.dir, fit, rs) && ops == framed(
                s.margin,
                stack_ops(l.dir, fit, rs, cops, rs.len() as int),
            );
        lemma_stack_cross(l.dir, fit, rs, rs.len());
        assert(one_per_child(l, rs, cops));
    }
}

/// `label_at_from` finds the first widget from `j0` on that `label_hit`s,
/// and nothing when none does.
proof fn lemma_label_at_first(
    ws: Seq<Widget>,
    fb: Seq<WidgetFeedback>,
    x: u32,
    y: u32,
    p: spec_fn(Label) -> bool,
    j0: int,
)
    requires
        0 <= j0,
    ensures
        label_at_from(ws, fb, x, y, p, j0) is None <==> forall|j: int|
            j0 <= j < fb.len() ==> !#[trigger] label_hit(ws, fb, x, y, p, j),
        forall|j: int|
            j0 <= j < fb.len() && #[trigger] label_hit(ws, fb, x, y, p, j) && (forall|i: int|
                j0 <= i < j ==> !label_hit(ws, fb, x, y, p, i)) ==> label_at_from(ws, fb, x, y, p, j0) == Some(
                fb[j].id,
            ),
    decreases fb.len() - j0,
{
    if j0 < fb.len() {
        lemma_label_at_first(ws, fb, x, y, p, j0 + 1);
        assert forall|j: int|
            j0 <= j < fb.len() && #[trigger] label_hit(ws, fb, x, y, p, j) && (forall|i: int|
                j0 <= i < j ==> !label_hit(ws, fb, x, y, p, i)) implies label_at_from(ws, fb, x, y, p, j0) == Some(
            fb[j].id,
        ) by {
            if j > j0 {
                assert(!label_hit(ws, fb, x, y, p, j0));
            }
        }
    }
}

/// The label that the pointer hovers, for the test `p` that hovering
/// applies (`reacts_to_mouse`): the first label, in widget order, that can
/// be clicked or edited and whose drawn rectangle holds the point; none
/// when no such label does. An editable field under the pointer is
/// hovered as a button is.
pub proof fn law_hover_picks_clickable_or_editable(
    ws: Seq<Widget>,
    fb: Seq<WidgetFeedback>,
    x: u32,
    y: u32,
    p: spec_fn(Label) -> bool,
)
    requires
        forall|l: Label| #[trigger] p(l) == reacts_to_mouse(l),
    ensures
        label_at_from(ws, fb, x, y, p, 0) is None <==> forall|j: int|
            0 <= j < fb.len() ==> !(ws[j] is Label && (ws[j]->Label_2.clickable || ws[j]->Label_2.editable)
                && #[trigger] fb[j].contains(x, y)),
        forall|j: int|
            0 <= j < fb.len() && ws[j] is Label && (ws[j]->Label_2.clickable || ws[j]->Label_2.editable)
                && #[trigger] fb[j].contains(x, y) && (forall|i: int|
                0 <= i < j ==> !(ws[i] is Label && (ws[i]->Label_2.clickable || ws[i]->Label_2.editable)
                    && fb[i].contains(x, y))) ==> label_at_from(ws, fb, x, y, p, 0) == Some(fb[j].id),
{
    lemma_label_at_first(ws, fb, x, y, p, 0);
    assert forall|j: int|
        #![trigger label_hit(ws, fb, x, y, p, j)]
        #![trigger fb[j].contains(x, y)]
        0 <= j < fb.len() implies label_hit(ws, fb, x, y, p, j) == (ws[j] is Label && (ws[j]->Label_2.clickable
        || ws[j]->Label_2.editable) && fb[j].contains(x, y)) by {
        if ws[j] is Label {
            assert(p(ws[j]->Label_2) == reacts_to_mouse(ws[j]->Label_2));
        }
    }
}

/// Adding a label keeps every widget's id equal to its index: the new
/// label's id is the old widget count, so consecutive additions get 0, 1,
/// 2, and so on.
pub proof fn law_add_label_keeps_ids(before: Seq<Widget>, after: Seq<Widget>, id: usize, s: Size, l: Label)
    requires
        forall|i: int| 0 <= i < before.len() ==> (#[trigger] before[i]).spec_id() == i,
        id == before.len(),
        after == before.push(Widget::Label(id, s, l)),
    ensures
        after.len() == id + 1,
        forall|i: int| 0 <= i < after.len() ==> (#[trigger] after[i]).spec_id() == i,
{
    assert forall|i: int| 0 <= i < after.len() implies (#[trigger] after[i]).spec_id() == i by {
        if i < before.len() {
            assert(after[i] == before[i]);
        }
    }
}

/// After the labels named `r` are set to read `t`, looking `r` up gives
/// `t` exactly when some label is named `r`, and nothing otherwise.
pub proof fn law_set_then_get_label_text(before: Seq<Widget>, after: Seq<Widget>, r: Seq<char>, t: Seq<char>)
    requires
        after.len() == before.len(),
        forall|j: int| 0 <= j < before.len() ==> label_updated(#[trigger] before[j], after[j], r, t),
    ensures
        label_lookup(after, r, 0) == (if exists|j: int| 0 <= j < before.len() && is_label_ref(#[trigger] before[j], r) {
            Some(t)
        } else {
            None
        }),
{
    lemma_lookup_after_set(before, after, r, t, 0);
}

proof fn lemma_lookup_after_set(before: Seq<Widget>, after: Seq<Widget>, r: Seq<char>, t: Seq<char>, k: int)
    requires
        0 <= k <= before.len(),
        after.len() == before.len(),
        forall|j: int| 0 <= j < before.len() ==> label_updated(#[trigger] before[j], after[j], r, t),
    ensures
        label_lookup(after, r, k) == (if exists|j: int| k <= j < before.len() && is_label_ref(#[trigger] before[j], r) {
            Some(t)
        } else {
            None
        }),
    decreases before.len() - k,
{
    if k < before.len() {
        lemma_lookup_after_set(before, after, r, t, k + 1);
        assert(label_updated(before[k], after[k], r, t));
        if is_label_ref(before[k], r) {
            assert(is_label_ref(after[k], r));
        } else {
            if exists|j: int| k <= j < before.len() && is_label_ref(#[trigger] before[j], r) {
                let j = choose|j: int| k <= j < before.len() && is_label_ref(#[trigger] before[j], r);
                assert(j != k);
                assert(k + 1 <= j);
            }
        }
    }
}

/// Collecting the activated widget clears the activation: a second
/// collection returns nothing.
pub proof fn law_collect_activated_once(w: Window)
    requires
        w.activ_child is None,
    ensures
        (match w.activ_child {
            Some(idx) => match w.widgets@[idx as int] {
                Widget::Label(_, _, l) => Some(l.lblref),
                _ => None,
            },
            None => None,
        }) == None::<String>,
{
}

/// A ratio of 1000 per mille gives the full value, and a negative ratio
/// gives its magnitude whatever the value.
pub proof fn law_p2r_full_and_absolute(value: u32, ratio: i32)
    ensures
        spec_p2r(value, 1000) == value,
        ratio < 0 ==> spec_p2r(value, ratio) == -ratio,
{
    assert((value * 1000) / 1000 == value) by (nonlinear_arith);
}

} // verus!
