//! The set of open windows: numbered slots that hold a window and the
//! callback that receives its activations.
use vstd::prelude::*;
use crate::gui::{Window, Widget, label_lookup, label_updated, is_label_ref, label_texts, pairs_view};

verus! {

/// Windows in numbered slots, each with the callback its activations go
/// to, and whether the screen needs a redraw after a window was closed.
pub struct WindowManager<Cb> {
    pub windows: Vec<Option<Window>>,
    pub ev_cbs: Vec<Option<Cb>>,
    pub need_redraw: bool,
}

/// The label reference of the activated widget of the window in a slot,
/// if there is a window, something is activated and it is a label.
pub open spec fn activation(slot: Option<Window>) -> Option<String> {
    match slot {
        Some(w) => match w.activ_child {
            Some(idx) => match w.widgets@[idx as int] {
                Widget::Label(_, _, l) => Some(l.lblref),
                _ => None,
            },
            None => None,
        },
        None => None,
    }
}

/// The activations of the first `n` slots, in slot order, each with its
/// slot number.
pub open spec fn activations(slots: Seq<Option<Window>>, n: int) -> Seq<(usize, String)>
    decreases n,
{
    if n <= 0 {
        Seq::empty()
    } else {
        let prev = activations(slots, n - 1);
        match activation(slots[n - 1]) {
            Some(s) => prev.push(((n - 1) as usize, s)),
            None => prev,
        }
    }
}

/// The window in slot `w2` is the one in `w1` with its activation taken.
pub open spec fn collected(w1: Option<Window>, w2: Option<Window>) -> bool {
    match w1 {
        Some(a) => match w2 {
            Some(b) => {
                &&& b.activ_child is None
                &&& b.widgets == a.widgets
                &&& b.title == a.title
                &&& b.title_color == a.title_color
                &&& b.feedback == a.feedback
                &&& b.child == a.child
                &&& b.focus_child == a.focus_child
                &&& b.hover_child == a.hover_child
                &&& b.x == a.x && b.y == a.y && b.w == a.w && b.h == a.h
                &&& b.needs_redraw == a.needs_redraw
                &&& b.win_feedback == a.win_feedback
            },
            None => false,
        },
        None => w2 is None,
    }
}

/// Window `b` is window `a` after its labels named `r` were set to `t`.
pub open spec fn relabeled_window(a: Window, b: Window, r: Seq<char>, t: Seq<char>) -> bool {
    &&& b.widgets@.len() == a.widgets@.len()
    &&& forall|j: int|
        0 <= j < a.widgets@.len() ==> label_updated(#[trigger] a.widgets@[j], b.widgets@[j], r, t)
    &&& b.needs_redraw == (a.needs_redraw || exists|j: int|
        0 <= j < a.widgets@.len() && is_label_ref(#[trigger] a.widgets@[j], r))
    &&& b.title == a.title
    &&& b.title_color == a.title_color
    &&& b.feedback == a.feedback
    &&& b.child == a.child
    &&& b.focus_child == a.focus_child
    &&& b.hover_child == a.hover_child
    &&& b.activ_child == a.activ_child
    &&& b.x == a.x && b.y == a.y && b.w == a.w && b.h == a.h
    &&& b.win_feedback == a.win_feedback
}

/// Both sequences have a window in the same slots.
pub open spec fn same_slots(a: Seq<Option<Window>>, b: Seq<Option<Window>>) -> bool {
    &&& a.len() == b.len()
    &&& forall|i: int| 0 <= i < a.len() ==> (#[trigger] a[i] is Some) == (b[i] is Some)
}

/// A window of slot `slot` that names widget `idx` as activated names one
/// it holds.
pub open spec fn activation_ok(slot: Option<Window>) -> bool {
    slot matches Some(w) ==> (w.activ_child matches Some(idx) ==> idx < w.widgets@.len())
}

/// Slots whose windows have nothing activated yield no activations.
pub proof fn lemma_no_activations(slots: Seq<Option<Window>>, n: int)
    requires
        n <= slots.len(),
        forall|i: int| 0 <= i < n ==> (#[trigger] slots[i] matches Some(w) ==> w.activ_child is None),
    ensures
        activations(slots, n).len() == 0,
    decreases n,
{
    if n > 0 {
        lemma_no_activations(slots, n - 1);
    }
}

impl<Cb> WindowManager<Cb> {
    /// Every slot has its callback slot.
    pub open spec fn wf(&self) -> bool {
        self.windows@.len() == self.ev_cbs@.len()
    }

    /// No windows and no pending redraw.
    pub fn new() -> (wm: Self)
        ensures
            wm.windows@.len() == 0,
            wm.ev_cbs@.len() == 0,
            !wm.need_redraw,
            wm.wf(),
    {
        WindowManager { windows: Vec::new(), ev_cbs: Vec::new(), need_redraw: false }
    }

    /// Calls `winfun` on every window, from the last slot to the first;
    /// each slot then holds the window as `winfun` left it.
    pub fn for_each_window_reverse<F>(&mut self, mut winfun: F) where F: FnMut(&mut Window)
        requires
            forall|f: F, w: &mut Window| call_requires(f, (w,)),
        ensures
            same_slots(old(self).windows@, final(self).windows@),
            final(self).ev_cbs == old(self).ev_cbs,
            final(self).need_redraw == old(self).need_redraw,
            forall|i: int|
                0 <= i < old(self).windows@.len() && #[trigger] old(self).windows@[i] is Some ==> exists|r: &mut Window|
                    mut_ref_current(r) == old(self).windows@[i]->0 && mut_ref_future(r) == final(self).windows@[i]->0
                        && #[trigger] call_ensures(winfun, (r,), ()),
    {
        let ghost f0 = winfun;
        let mut i: usize = self.windows.len();
        while i > 0
            invariant
                i <= self.windows@.len(),
                same_slots(old(self).windows@, self.windows@),
                self.ev_cbs == old(self).ev_cbs,
                self.need_redraw == old(self).need_redraw,
                forall|f: F, w: &mut Window| call_requires(f, (w,)),
                winfun == f0,
                forall|j: int|
                    i <= j < self.windows@.len() && #[trigger] old(self).windows@[j] is Some ==> exists|r: &mut Window|
                        mut_ref_current(r) == old(self).windows@[j]->0 && mut_ref_future(r) == self.windows@[j]->0
                            && #[trigger] call_ensures(f0, (r,), ()),
                forall|j: int| 0 <= j < i ==> #[trigger] self.windows@[j] == old(self).windows@[j],
            decreases i,
        {
            i = i - 1;
            let ghost before = self.windows@;
            match &mut self.windows[i] {
                Some(w) => {
                    let ghost wr = w;
                    winfun(w);
                    proof {
                        broadcast use vstd::function::group_function_axioms;
                        assert(exists|r: &mut Window|
                            mut_ref_current(r) == before[i as int]->0 && mut_ref_future(r) == *w
                                && #[trigger] call_ensures(winfun, (r,), ()));
                        assert(*w == mut_ref_future(wr));
                    }
                },
                None => {},
            }
            assert(forall|j: int| 0 <= j < before.len() && j != i ==> self.windows@[j] == before[j]);
        }
    }

    /// Calls `winfun` on the windows in slot order until it returns
    /// `true`: the windows up to that one hold what `winfun` left, those
    /// after it are untouched.
    #[verifier::loop_isolation(false)]
    pub fn for_each_window_stop_on_true<F>(&mut self, mut winfun: F) where F: FnMut(&mut Window) -> bool
        requires
            forall|f: F, w: &mut Window| call_requires(f, (w,)),
        ensures
            same_slots(old(self).windows@, final(self).windows@),
            final(self).ev_cbs == old(self).ev_cbs,
            final(self).need_redraw == old(self).need_redraw,
            exists|k: int|
                #![trigger old(self).windows@.take(k)]
                0 <= k <= old(self).windows@.len() && (forall|j: int|
                    0 <= j < k && #[trigger] old(self).windows@[j] is Some ==> exists|r: &mut Window|
                        mut_ref_current(r) == old(self).windows@[j]->0 && mut_ref_future(r) == final(self).windows@[j]->0
                            && #[trigger] call_ensures(winfun, (r,), false)) && (k < old(self).windows@.len() ==> (
                old(self).windows@[k] is Some && exists|r: &mut Window|
                    mut_ref_current(r) == old(self).windows@[k]->0 && mut_ref_future(r) == final(self).windows@[k]->0
                        && #[trigger] call_ensures(winfun, (r,), true))) && (forall|j: int|
                    k < j < old(self).windows@.len() ==> #[trigger] final(self).windows@[j] == old(self).windows@[j]),
    {
        let ghost f0 = winfun;
        let mut i: usize = 0;
        while i < self.windows.len()
            invariant
                i <= self.windows@.len(),
                same_slots(old(self).windows@, self.windows@),
                self.ev_cbs == old(self).ev_cbs,
                self.need_redraw == old(self).need_redraw,
                forall|f: F, w: &mut Window| call_requires(f, (w,)),
                winfun == f0,
                forall|j: int|
                    0 <= j < i && #[trigger] old(self).windows@[j] is Some ==> exists|r: &mut Window|
                        mut_ref_current(r) == old(self).windows@[j]->0 && mut_ref_future(r) == self.windows@[j]->0
                            && #[trigger] call_ensures(f0, (r,), false),
                forall|j: int| i <= j < self.windows@.len() ==> #[trigger] self.windows@[j] == old(self).windows@[j],
            decreases self.windows@.len() - i,
        {
            let ghost before = self.windows@;
            let stop = match &mut self.windows[i] {
                Some(w) => {
                    let ghost wr = w;
                    let b = winfun(w);
                    proof {
                        broadcast use vstd::function::group_function_axioms;
                        assert(exists|r: &mut Window|
                            mut_ref_current(r) == before[i as int]->0 && mut_ref_future(r) == *w
                                && #[trigger] call_ensures(winfun, (r,), b));
                        assert(*w == mut_ref_future(wr));
                        assert(winfun == f0);
                    }
                    b
                },
                None => false,
            };
            assert(forall|j: int| 0 <= j < before.len() && j != i ==> self.windows@[j] == before[j]);
            if stop {
                assert(old(self).windows@[i as int] is Some);
                assert(old(self).windows@.take(i as int).len() == i);
                return;
            }
            i = i + 1;
        }
        assert(old(self).windows@.take(self.windows@.len() as int).len() == self.windows@.len());
    }

    /// Calls `winfun` on every window in slot order; each slot then holds
    /// the window as `winfun` left it.
    pub fn for_each_window<F>(&mut self, mut winfun: F) where F: FnMut(&mut Window)
        requires
            forall|f: F, w: &mut Window| call_requires(f, (w,)),
        ensures
            same_slots(old(self).windows@, final(self).windows@),
            final(self).ev_cbs == old(self).ev_cbs,
            final(self).need_redraw == old(self).need_redraw,
            forall|i: int|
                0 <= i < old(self).windows@.len() && #[trigger] old(self).windows@[i] is Some ==> exists|r: &mut Window|
                    mut_ref_current(r) == old(self).windows@[i]->0 && mut_ref_future(r) == final(self).windows@[i]->0
                        && #[trigger] call_ensures(winfun, (r,), ()),
    {
        let ghost f0 = winfun;
        let mut i: usize = 0;
        while i < self.windows.len()
            invariant
                i <= self.windows@.len(),
                same_slots(old(self).windows@, self.windows@),
                self.ev_cbs == old(self).ev_cbs,
                self.need_redraw == old(self).need_redraw,
                forall|f: F, w: &mut Window| call_requires(f, (w,)),
                winfun == f0,
                forall|j: int|
                    0 <= j < i && #[trigger] old(self).windows@[j] is Some ==> exists|r: &mut Window|
                        mut_ref_current(r) == old(self).windows@[j]->0 && mut_ref_future(r) == self.windows@[j]->0
                            && #[trigger] call_ensures(f0, (r,), ()),
                forall|j: int| i <= j < self.windows@.len() ==> #[trigger] self.windows@[j] == old(self).windows@[j],
            decreases self.windows@.len() - i,
        {
            let ghost before = self.windows@;
            match &mut self.windows[i] {
                Some(w) => {
                    let ghost wr = w;
                    winfun(w);
                    proof {
                        broadcast use vstd::function::group_function_axioms;
                        assert(exists|r: &mut Window|
                            mut_ref_current(r) == before[i as int]->0 && mut_ref_future(r) == *w
                                && #[trigger] call_ensures(winfun, (r,), ()));
                        assert(*w == mut_ref_future(wr));
                    }
                },
                None => {},
            }
            assert(forall|j: int| 0 <= j < before.len() && j != i ==> self.windows@[j] == before[j]);
            i = i + 1;
        }
    }

    /// Whether a redraw is pending or some window needs one.
    pub fn some_win_needs_redraw(&mut self) -> (b: bool)
        ensures
            *final(self) == *old(self),
            b == (old(self).need_redraw || exists|i: int|
                0 <= i < old(self).windows@.len() && (#[trigger] old(self).windows@[i] matches Some(w)
                    && w.needs_redraw)),
    {
        let mut need_redraw = self.need_redraw;
        let mut i: usize = 0;
        while i < self.windows.len()
            invariant
                i <= self.windows@.len(),
                need_redraw == (self.need_redraw || exists|j: int|
                    0 <= j < i && (#[trigger] self.windows@[j] matches Some(w) && w.needs_redraw)),
            decreases self.windows@.len() - i,
        {
            let ghost prev = need_redraw;
            match &self.windows[i] {
                Some(w) => {
                    if w.needs_redraw() {
                        need_redraw = true;
                    }
                },
                None => {},
            }
            proof {
                if need_redraw && !prev && !self.need_redraw {
                    assert(self.windows@[i as int] matches Some(w) && w.needs_redraw);
                }
                if !need_redraw {
                    assert forall|j: int| 0 <= j < i + 1 implies !(#[trigger] self.windows@[j] matches Some(w)
                        && w.needs_redraw) by {
                        if j < i {
                        }
                    }
                }
            }
            i = i + 1;
        }
        need_redraw
    }

    /// Takes the activation of every window and returns, in slot order,
    /// the slot, the activated label's reference name and a copy of the
    /// slot's callback; `None` when nothing was activated.
    pub fn get_activated_childs(&mut self) -> (r: Option<Vec<(usize, String, Option<Cb>)>>) where
        Cb: Clone,
        requires
            old(self).wf(),
            forall|i: int| 0 <= i < old(self).windows@.len() ==> activation_ok(#[trigger] old(self).windows@[i]),
        ensures
            final(self).ev_cbs == old(self).ev_cbs,
            final(self).need_redraw == old(self).need_redraw,
            final(self).windows@.len() == old(self).windows@.len(),
            forall|i: int|
                0 <= i < old(self).windows@.len() ==> collected(
                    #[trigger] old(self).windows@[i],
                    final(self).windows@[i],
                ),
            activations(final(self).windows@, final(self).windows@.len() as int).len() == 0,
            match r {
                None => activations(old(self).windows@, old(self).windows@.len() as int).len() == 0,
                Some(v) => {
                    &&& v@.len() > 0
                    &&& v@.len() == activations(old(self).windows@, old(self).windows@.len() as int).len()
                    &&& forall|k: int|
                        0 <= k < v@.len() ==> {
                            let a = activations(old(self).windows@, old(self).windows@.len() as int)[k];
                            &&& (#[trigger] v@[k]).0 == a.0
                            &&& v@[k].1 == a.1
                            &&& (v@[k].2 is Some) == (old(self).ev_cbs@[a.0 as int] is Some)
                            &&& v@[k].2 matches Some(c) ==> cloned(old(self).ev_cbs@[a.0 as int]->0, c)
                        }
                },
            },
    {
        let ghost ws = self.windows@;
        let mut acts: Vec<(usize, String, Option<Cb>)> = Vec::new();
        let mut i: usize = 0;
        while i < self.windows.len()
            invariant
                i <= self.windows@.len(),
                self.windows@.len() == ws.len(),
                ws == old(self).windows@,
                self.ev_cbs == old(self).ev_cbs,
                self.need_redraw == old(self).need_redraw,
                self.windows@.len() == self.ev_cbs@.len(),
                forall|j: int| 0 <= j < ws.len() ==> activation_ok(#[trigger] ws[j]),
                forall|j: int| 0 <= j < i ==> collected(#[trigger] ws[j], self.windows@[j]),
                forall|j: int| i <= j < ws.len() ==> #[trigger] self.windows@[j] == ws[j],
                acts@.len() == activations(ws, i as int).len(),
                forall|k: int|
                    0 <= k < acts@.len() ==> {
                        let a = activations(ws, i as int)[k];
                        &&& (#[trigger] acts@[k]).0 == a.0
                        &&& acts@[k].1 == a.1
                        &&& (acts@[k].2 is Some) == (self.ev_cbs@[a.0 as int] is Some)
                        &&& acts@[k].2 matches Some(c) ==> cloned(self.ev_cbs@[a.0 as int]->0, c)
                    },
            decreases ws.len() - i,
        {
            let ghost before = self.windows@;
            let ghost prev_acts = activations(ws, i as int);
            let got = match &mut self.windows[i] {
                Some(w) => w.collect_activated_child(),
                None => None,
            };
            assert(forall|j: int| 0 <= j < ws.len() && j != i ==> self.windows@[j] == before[j]);
            assert(got == activation(ws[i as int]));
            assert(activations(ws, i + 1) == match activation(ws[i as int]) {
                Some(s) => prev_acts.push((i, s)),
                None => prev_acts,
            });
            match got {
                Some(lblref) => {
                    let cb = match &self.ev_cbs[i] {
                        Some(c) => Some(c.clone()),
                        None => None,
                    };
                    acts.push((i, lblref, cb));
                },
                None => {},
            }
            i = i + 1;
        }
        proof {
            assert forall|j: int| 0 <= j < self.windows@.len() implies (#[trigger] self.windows@[j] matches Some(w)
                ==> w.activ_child is None) by {
                assert(collected(ws[j], self.windows@[j]));
            }
            lemma_no_activations(self.windows@, self.windows@.len() as int);
        }
        if acts.len() == 0 {
            None
        } else {
            Some(acts)
        }
    }

    /// Sets the labels named `lblref` in the window of slot `idx`, if
    /// there is one, to `text`.
    pub fn set_label_text(&mut self, idx: usize, lblref: &str, text: String)
        ensures
            final(self).ev_cbs == old(self).ev_cbs,
            final(self).need_redraw == old(self).need_redraw,
            final(self).windows@.len() == old(self).windows@.len(),
            forall|j: int|
                0 <= j < old(self).windows@.len() && j != idx ==> #[trigger] final(self).windows@[j]
                    == old(self).windows@[j],
            idx < old(self).windows@.len() ==> match old(self).windows@[idx as int] {
                Some(a) => final(self).windows@[idx as int] matches Some(b) && relabeled_window(
                    a,
                    b,
                    lblref@,
                    text@,
                ),
                None => final(self).windows@[idx as int] is None,
            },
    {
        if idx >= self.windows.len() {
            return;
        }
        let ghost before = self.windows@;
        match &mut self.windows[idx] {
            Some(w) => w.set_label_text(lblref, text),
            None => {},
        }
        assert(forall|j: int| 0 <= j < before.len() && j != idx ==> self.windows@[j] == before[j]);
    }

    /// The text of the first label named `lblref` in the window of slot
    /// `idx`; `None` when there is no such window or label.
    pub fn get_label_text(&self, idx: usize, lblref: &str) -> (r: Option<String>)
        ensures
            (match r {
                Some(t) => Some(t@),
                None => None,
            }) == (if idx < self.windows@.len() {
                match self.windows@[idx as int] {
                    Some(w) => label_lookup(w.widgets@, lblref@, 0),
                    None => None,
                }
            } else {
                None
            }),
    {
        if idx >= self.windows.len() {
            return None;
        }
        match &self.windows[idx] {
            Some(w) => w.get_label_text(lblref),
            None => None,
        }
    }

    /// The name and text of every label of the window in slot `idx`;
    /// `None` when there is no such window.
    pub fn window_label_texts(&self, idx: usize) -> (r: Option<Vec<(String, String)>>)
        ensures
            (match r {
                Some(v) => Some(pairs_view(v@)),
                None => None,
            }) == (if idx < self.windows@.len() {
                match self.windows@[idx as int] {
                    Some(w) => Some(label_texts(w.widgets@)),
                    None => None,
                }
            } else {
                None
            }),
    {
        if idx >= self.windows.len() {
            return None;
        }
        match &self.windows[idx] {
            Some(w) => Some(w.collect_label_texts()),
            None => None,
        }
    }

    /// Clears the pending redraw.
    pub fn redraw_done(&mut self)
        ensures
            !final(self).need_redraw,
            final(self).windows == old(self).windows,
            final(self).ev_cbs == old(self).ev_cbs,
    {
        self.need_redraw = false;
    }

    /// Closes the window of slot `idx` and drops its callback; a redraw is
    /// then pending. Slots past the end are left alone.
    pub fn delete(&mut self, idx: usize)
        requires
            old(self).wf(),
        ensures
            final(self).wf(),
            idx < old(self).windows@.len() ==> {
                &&& final(self).windows@ == old(self).windows@.update(idx as int, None)
                &&& final(self).ev_cbs@ == old(self).ev_cbs@.update(idx as int, None)
                &&& final(self).need_redraw
            },
            idx >= old(self).windows@.len() ==> *final(self) == *old(self),
    {
        if idx >= self.windows.len() {
            return;
        }
        self.windows.set(idx, None);
        self.ev_cbs.set(idx, None);
        self.need_redraw = true;
    }

    /// Puts `win` with callback `cb` into slot `idx`, first adding empty
    /// slots up to it; returns `idx`.
    pub fn set(&mut self, idx: usize, win: Window, cb: Cb) -> (r: usize)
        requires
            old(self).wf(),
            idx < usize::MAX,
        ensures
            r == idx,
            final(self).wf(),
            final(self).need_redraw == old(self).need_redraw,
            final(self).windows@.len() == if idx < old(self).windows@.len() {
                old(self).windows@.len() as int
            } else {
                idx + 1
            },
            final(self).windows@[idx as int] == Some(win),
            final(self).ev_cbs@[idx as int] == Some(cb),
            forall|j: int|
                0 <= j < final(self).windows@.len() && j != idx ==> #[trigger] final(self).windows@[j] == (
                if j < old(self).windows@.len() {
                    old(self).windows@[j]
                } else {
                    None
                }),
            forall|j: int|
                0 <= j < final(self).ev_cbs@.len() && j != idx ==> #[trigger] final(self).ev_cbs@[j] == (
                if j < old(self).ev_cbs@.len() {
                    old(self).ev_cbs@[j]
                } else {
                    None
                }),
    {
        while self.windows.len() < idx + 1
            invariant
                self.windows@.len() == self.ev_cbs@.len(),
                old(self).wf(),
                idx < usize::MAX,
                self.windows@.len() >= old(self).windows@.len(),
                self.windows@.len() <= if idx < old(self).windows@.len() {
                    old(self).windows@.len() as int
                } else {
                    idx + 1
                },
                self.need_redraw == old(self).need_redraw,
                forall|j: int|
                    0 <= j < self.windows@.len() ==> #[trigger] self.windows@[j] == (if j < old(self).windows@.len() {
                        old(self).windows@[j]
                    } else {
                        None
                    }),
                forall|j: int|
                    0 <= j < self.ev_cbs@.len() ==> #[trigger] self.ev_cbs@[j] == (if j < old(self).ev_cbs@.len() {
                        old(self).ev_cbs@[j]
                    } else {
                        None
                    }),
            decreases idx + 1 - self.windows@.len(),
        {
            self.windows.push(None);
            self.ev_cbs.push(None);
        }
        self.windows.set(idx, Some(win));
        self.ev_cbs.set(idx, Some(cb));
        idx
    }
}

} // verus!
