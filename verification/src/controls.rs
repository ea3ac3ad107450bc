//! The per-frame decisions of the game screen that depend only on input:
//! where a click that no window took sends the active ship, and how the
//! held keys scroll the system map.
use vstd::prelude::*;

verus! {

/// A key that scrolls the system map, or any other key.
#[derive(Clone, Copy, Debug)]
pub enum ScrollKey {
    Up,
    Down,
    Left,
    Right,
    Other,
}

/// The scroll speed along x and y that the held keys `keys` give, the
/// later key of each axis winning: up and left are -2, down and right 2.
pub open spec fn spec_scroll_speed(keys: Seq<ScrollKey>) -> (i32, i32)
    decreases keys.len(),
{
    if keys.len() == 0 {
        (0, 0)
    } else {
        let (x, y) = spec_scroll_speed(keys.drop_last());
        match keys.last() {
            ScrollKey::Up => (x, -2i32),
            ScrollKey::Down => (x, 2),
            ScrollKey::Left => (-2i32, y),
            ScrollKey::Right => (2, y),
            ScrollKey::Other => (x, y),
        }
    }
}

/// Only the scroll keys change the scroll speed: any other key held
/// leaves it as it was.
pub proof fn law_other_keys_keep_speed(ks: Seq<ScrollKey>)
    ensures
        spec_scroll_speed(ks.push(ScrollKey::Other)) == spec_scroll_speed(ks),
{
    assert(ks.push(ScrollKey::Other).drop_last() =~= ks);
}

/// The x speed comes from the last left or right key held: -2 for left,
/// 2 for right, and 0 without one.
#[verifier::rlimit(40)]
#[verifier::spinoff_prover]
pub proof fn law_last_left_right_key(ks: Seq<ScrollKey>)
    ensures
        (forall|k: int| 0 <= k < ks.len() ==> !(#[trigger] ks[k] is Left) && !(ks[k] is Right))
            ==> spec_scroll_speed(ks).0 == 0,
        forall|k: int|
            0 <= k < ks.len() && (#[trigger] ks[k] is Left || ks[k] is Right) && (forall|j: int|
                k < j < ks.len() ==> !(ks[j] is Left) && !(ks[j] is Right)) ==> spec_scroll_speed(ks).0 == (if ks[k] is Left {
                -2int
            } else {
                2int
            }),
    decreases ks.len(),
{
    if ks.len() > 0 {
        let p = ks.drop_last();
        let n = ks.len() - 1;
        law_last_left_right_key(p);
        assert forall|k: int| 0 <= k < p.len() implies #[trigger] p[k] == ks[k] by {}
        if !(ks[n] is Left) && !(ks[n] is Right) {
            assert(spec_scroll_speed(ks).0 == spec_scroll_speed(p).0);
            assert forall|k: int|
                0 <= k < ks.len() && (#[trigger] ks[k] is Left || ks[k] is Right) && (forall|j: int|
                    k < j < ks.len() ==> !(ks[j] is Left) && !(ks[j] is Right)) implies spec_scroll_speed(ks).0 == (if ks[k] is Left {
                -2int
            } else {
                2int
            }) by {
                assert(k < n);
                assert(p[k] == ks[k]);
                assert forall|j: int| k < j < p.len() implies !(p[j] is Left) && !(p[j] is Right) by {
                    assert(p[j] == ks[j]);
                }
            }
        } else {
            assert forall|k: int|
                0 <= k < ks.len() && (#[trigger] ks[k] is Left || ks[k] is Right) && (forall|j: int|
                    k < j < ks.len() ==> !(ks[j] is Left) && !(ks[j] is Right)) implies k == n by {
                if k < n {
                    assert(!(ks[n] is Left) && !(ks[n] is Right));
                }
            }
        }
    }
}

/// The y speed comes from the last up or down key held: -2 for up, 2
/// for down, and 0 without one.
#[verifier::rlimit(40)]
#[verifier::spinoff_prover]
pub proof fn law_last_up_down_key(ks: Seq<ScrollKey>)
    ensures
        (forall|k: int| 0 <= k < ks.len() ==> !(#[trigger] ks[k] is Up) && !(ks[k] is Down))
            ==> spec_scroll_speed(ks).1 == 0,
        forall|k: int|
            0 <= k < ks.len() && (#[trigger] ks[k] is Up || ks[k] is Down) && (forall|j: int|
                k < j < ks.len() ==> !(ks[j] is Up) && !(ks[j] is Down)) ==> spec_scroll_speed(ks).1 == (if ks[k] is Up {
                -2int
            } else {
                2int
            }),
    decreases ks.len(),
{
    if ks.len() > 0 {
        let p = ks.drop_last();
        let n = ks.len() - 1;
        law_last_up_down_key(p);
        assert forall|k: int| 0 <= k < p.len() implies #[trigger] p[k] == ks[k] by {}
        if !(ks[n] is Up) && !(ks[n] is Down) {
            assert(spec_scroll_speed(ks).1 == spec_scroll_speed(p).1);
            assert forall|k: int|
                0 <= k < ks.len() && (#[trigger] ks[k] is Up || ks[k] is Down) && (forall|j: int|
                    k < j < ks.len() ==> !(ks[j] is Up) && !(ks[j] is Down)) implies spec_scroll_speed(ks).1 == (if ks[k] is Up {
                -2int
            } else {
                2int
            }) by {
                assert(k < n);
                assert(p[k] == ks[k]);
                assert forall|j: int| k < j < p.len() implies !(p[j] is Up) && !(p[j] is Down) by {
                    assert(p[j] == ks[j]);
                }
            }
        } else {
            assert forall|k: int|
                0 <= k < ks.len() && (#[trigger] ks[k] is Up || ks[k] is Down) && (forall|j: int|
                    k < j < ks.len() ==> !(ks[j] is Up) && !(ks[j] is Down)) implies k == n by {
                if k < n {
                    assert(!(ks[n] is Up) && !(ks[n] is Down));
                }
            }
        }
    }
}

/// The scroll speed that the held keys give.
pub fn scroll_speed(keys: &Vec<ScrollKey>) -> (r: (i32, i32))
    ensures
        r == spec_scroll_speed(keys@),
{
    let mut x: i32 = 0;
    let mut y: i32 = 0;
    let mut i: usize = 0;
    while i < keys.len()
        invariant
            i <= keys@.len(),
            (x, y) == spec_scroll_speed(keys@.take(i as int)),
        decreases keys@.len() - i,
    {
        assert(keys@.take(i + 1).drop_last() =~= keys@.take(i as int));
        match keys[i] {
            ScrollKey::Up => y = -2,
            ScrollKey::Down => y = 2,
            ScrollKey::Left => x = -2,
            ScrollKey::Right => x = 2,
            ScrollKey::Other => {},
        }
        i = i + 1;
    }
    assert(keys@.take(keys@.len() as int) =~= keys@);
    (x, y)
}

/// `v` held to 0 ..= 1000.
pub open spec fn clamp_scroll(v: int) -> int {
    if v > 1000 {
        1000
    } else if v < 0 {
        0
    } else {
        v
    }
}

/// Moves the map scroll by (`dx`, `dy`) and holds each coordinate to
/// 0 ..= 1000.
pub fn scroll_by(scroll: (i32, i32), dx: i32, dy: i32) -> (r: (i32, i32))
    requires
        i32::MIN <= scroll.0 + dx <= i32::MAX,
        i32::MIN <= scroll.1 + dy <= i32::MAX,
    ensures
        r.0 == clamp_scroll(scroll.0 + dx),
        r.1 == clamp_scroll(scroll.1 + dy),
{
    let mut x = scroll.0 + dx;
    let mut y = scroll.1 + dy;
    if x > 1000 {
        x = 1000;
    }
    if x < 0 {
        x = 0;
    }
    if y > 1000 {
        y = 1000;
    }
    if y < 0 {
        y = 0;
    }
    (x, y)
}

/// Where a click sends the active ship, if anywhere.
#[derive(Clone, Copy, Debug)]
pub enum ClickAction {
    /// A window took the click.
    Handled,
    /// Set the ship's course to this point of the system.
    CourseTo(i32, i32),
    /// Nothing happens.
    Ignored,
}

/// A click that a window took (`handled`) stays there; otherwise, in the
/// ship's system (`in_system`), it sets the course to the entity close to
/// the click (`entity`, its position) or else to the map point under it
/// (`map_point`), when there is one.
pub fn route_click(handled: bool, in_system: bool, entity: Option<(i32, i32)>, map_point: Option<(i32, i32)>) -> (r:
    ClickAction)
    ensures
        handled ==> r is Handled,
        !handled && !in_system ==> r is Ignored,
        !handled && in_system ==> match entity {
            Some((x, y)) => r == ClickAction::CourseTo(x, y),
            None => match map_point {
                Some((x, y)) => r == ClickAction::CourseTo(x, y),
                None => r is Ignored,
            },
        },
{
    if handled {
        return ClickAction::Handled;
    }
    if !in_system {
        return ClickAction::Ignored;
    }
    match entity {
        Some((x, y)) => ClickAction::CourseTo(x, y),
        None => match map_point {
            Some((x, y)) => ClickAction::CourseTo(x, y),
            None => ClickAction::Ignored,
        },
    }
}

} // verus!
