//! Game objects that need no scripting state: courses between map points,
//! and the painter interface that windows and maps draw through.
use vstd::prelude::*;
use vstd::wrapping::i32_specs;

verus! {

/// A colour: red, green, blue and opacity.
pub type Rgba = (u8, u8, u8, u8);

/// A call that a painter receives which moves its offset or draws, with
/// its arguments.
pub enum PaintOp {
    PushOffs(i32, i32),
    PushAddOffs(i32, i32),
    PopOffs,
    ClipOff,
    Clip(i32, i32, u32, u32),
    Rect(i32, i32, u32, u32, Rgba),
    RectFilled(i32, i32, u32, u32, Rgba),
    Dot(i32, i32, u32, Rgba),
    Circle(i32, i32, u32, Rgba),
    Line(i32, i32, i32, i32, u32, Rgba),
    Text(i32, i32, u32, Rgba, Option<Rgba>, i32, Seq<char>),
}

/// A drawing surface. Positions are relative to the current offset, which
/// `push_offs` / `push_add_offs` set and `pop_offs` restores. A painter
/// keeps, as `ops`, the calls that moved its offset or drew, in the order
/// it received them; its current offset is `screen_pos(0, 0)`.
pub trait GamePainter {
    /// The offset and drawing calls received so far, in order. Only
    /// contracts read it; it is never called.
    spec fn ops(&self) -> Vec<PaintOp>;

    /// The screen position of (`xo`, `yo`) under the current offset, as
    /// `get_screen_pos` reports it. Only contracts read it.
    spec fn screen_pos(&self, xo: i32, yo: i32) -> (i32, i32);

    /// The offsets that `pop_offs` restores, the latest last. Only
    /// contracts read it.
    spec fn saved_offs(&self) -> Vec<(i32, i32)>;

    /// Makes (`xo`, `yo`) the current offset.
    fn push_offs(&mut self, xo: i32, yo: i32)
        ensures
            final(self).ops()@ == old(self).ops()@.push(PaintOp::PushOffs(xo, yo)),
            final(self).screen_pos(0, 0) == (xo, yo),
            final(self).saved_offs()@ == old(self).saved_offs()@.push(old(self).screen_pos(0, 0)),
    ;

    /// Moves the current offset by (`xo`, `yo`).
    fn push_add_offs(&mut self, xo: i32, yo: i32)
        ensures
            final(self).ops()@ == old(self).ops()@.push(PaintOp::PushAddOffs(xo, yo)),
            final(self).screen_pos(0, 0) == (
                i32_specs::wrapping_add(old(self).screen_pos(0, 0).0, xo),
                i32_specs::wrapping_add(old(self).screen_pos(0, 0).1, yo),
            ),
            final(self).saved_offs()@ == old(self).saved_offs()@.push(old(self).screen_pos(0, 0)),
    ;

    /// Restores the offset before the last push.
    fn pop_offs(&mut self)
        ensures
            final(self).ops()@ == old(self).ops()@.push(PaintOp::PopOffs),
            old(self).saved_offs()@.len() > 0 ==> final(self).screen_pos(0, 0) == old(self).saved_offs()@.last()
                && final(self).saved_offs()@ == old(self).saved_offs()@.drop_last(),
            old(self).saved_offs()@.len() == 0 ==> final(self).screen_pos(0, 0) == old(self).screen_pos(0, 0)
                && final(self).saved_offs()@ == old(self).saved_offs()@,
    ;

    /// The screen position of (`xo`, `yo`) under the current offset.
    fn get_screen_pos(&self, xo: i32, yo: i32) -> (r: (i32, i32))
        ensures
            r == self.screen_pos(xo, yo),
    ;

    /// The size of sprite `id`.
    fn get_sprite_size(&self, id: usize) -> (u32, u32);

    /// Stops clipping.
    fn disable_clip_rect(&mut self)
        ensures
            final(self).ops()@ == old(self).ops()@.push(PaintOp::ClipOff),
            final(self).screen_pos(0, 0) == old(self).screen_pos(0, 0),
            final(self).saved_offs()@ == old(self).saved_offs()@,
    ;

    /// Clips drawing to the given rectangle.
    fn set_clip_rect(&mut self, xo: i32, yo: i32, w: u32, h: u32)
        ensures
            final(self).ops()@ == old(self).ops()@.push(PaintOp::Clip(xo, yo, w, h)),
            final(self).screen_pos(0, 0) == old(self).screen_pos(0, 0),
            final(self).saved_offs()@ == old(self).saved_offs()@,
    ;

    /// Draws the outline of a rectangle.
    fn draw_rect(&mut self, xo: i32, yo: i32, w: u32, h: u32, color: (u8, u8, u8, u8))
        ensures
            final(self).ops()@ == old(self).ops()@.push(PaintOp::Rect(xo, yo, w, h, color)),
            final(self).screen_pos(0, 0) == old(self).screen_pos(0, 0),
            final(self).saved_offs()@ == old(self).saved_offs()@,
    ;

    /// Draws a filled rectangle.
    fn draw_rect_filled(&mut self, xo: i32, yo: i32, w: u32, h: u32, color: (u8, u8, u8, u8))
        ensures
            final(self).ops()@ == old(self).ops()@.push(PaintOp::RectFilled(xo, yo, w, h, color)),
            final(self).screen_pos(0, 0) == old(self).screen_pos(0, 0),
            final(self).saved_offs()@ == old(self).saved_offs()@,
    ;

    /// Draws a filled circle of radius `r`.
    fn draw_dot(&mut self, xo: i32, yo: i32, r: u32, color: (u8, u8, u8, u8))
        ensures
            final(self).ops()@ == old(self).ops()@.push(PaintOp::Dot(xo, yo, r, color)),
            final(self).screen_pos(0, 0) == old(self).screen_pos(0, 0),
            final(self).saved_offs()@ == old(self).saved_offs()@,
    ;

    /// Draws the outline of a circle of radius `r`.
    fn draw_circle(&mut self, xo: i32, yo: i32, r: u32, color: (u8, u8, u8, u8))
        ensures
            final(self).ops()@ == old(self).ops()@.push(PaintOp::Circle(xo, yo, r, color)),
            final(self).screen_pos(0, 0) == old(self).screen_pos(0, 0),
            final(self).saved_offs()@ == old(self).saved_offs()@,
    ;

    /// Draws a line of thickness `t`.
    fn draw_line(&mut self, xo: i32, yo: i32, x2o: i32, y2o: i32, t: u32, color: (u8, u8, u8, u8))
        ensures
            final(self).ops()@ == old(self).ops()@.push(PaintOp::Line(xo, yo, x2o, y2o, t, color)),
            final(self).screen_pos(0, 0) == old(self).screen_pos(0, 0),
            final(self).saved_offs()@ == old(self).saved_offs()@,
    ;

    /// The width and height that `txt` takes when drawn; measuring draws
    /// nothing.
    fn text_size(&mut self, txt: &str) -> (sz: (u32, u32))
        ensures
            final(self).ops()@ == old(self).ops()@,
            final(self).screen_pos(0, 0) == old(self).screen_pos(0, 0),
            final(self).saved_offs()@ == old(self).saved_offs()@,
    ;

    /// Draws `txt` within a width of `max_w`, aligned by `align`.
    fn draw_text(
        &mut self,
        xo: i32,
        yo: i32,
        max_w: u32,
        fg: (u8, u8, u8, u8),
        bg: Option<(u8, u8, u8, u8)>,
        align: i32,
        txt: &str,
    )
        ensures
            final(self).ops()@ == old(self).ops()@.push(PaintOp::Text(xo, yo, max_w, fg, bg, align, txt@)),
            final(self).screen_pos(0, 0) == old(self).screen_pos(0, 0),
            final(self).saved_offs()@ == old(self).saved_offs()@,
    ;
}

/// Where a text `tw` wide goes in a field `max_w` wide under alignment
/// `align` (0 or 2 centre, negative right, otherwise left): its x offset,
/// never negative, and the width drawn, cut to the field.
pub open spec fn spec_text_placement(max_w: i32, tw: i32, align: i32) -> (int, int) {
    let d = max_w - tw;
    let xo = if align == 2 || align == 0 {
        if d < 0 {
            0
        } else {
            d / 2
        }
    } else if align < 0 {
        if d < 0 {
            0
        } else {
            d
        }
    } else {
        0
    };
    (xo, if max_w < tw {
        max_w as int
    } else {
        tw as int
    })
}

/// Places a text `tw` wide in a field `max_w` wide under alignment
/// `align`; see `spec_text_placement`.
pub fn text_placement(max_w: i32, tw: i32, align: i32) -> (r: (i32, i32))
    requires
        i32::MIN <= max_w - tw <= i32::MAX,
    ensures
        r.0 == spec_text_placement(max_w, tw, align).0,
        r.1 == spec_text_placement(max_w, tw, align).1,
{
    let d = max_w - tw;
    let xo = if align == 2 || align == 0 {
        if d < 0 {
            0
        } else {
            d / 2
        }
    } else if align < 0 {
        if d < 0 {
            0
        } else {
            d
        }
    } else {
        0
    };
    let w: i32 = if max_w < tw {
        max_w
    } else {
        tw
    };
    (xo, w)
}

/// One more tick on a counter that reports every tick after the `limit`-th
/// and then starts over: the new count and whether this tick reports.
pub fn count_tick(count: i32, limit: i32) -> (r: (i32, bool))
    requires
        count < i32::MAX,
    ensures
        r == (if count + 1 > limit {
            (0i32, true)
        } else {
            ((count + 1) as i32, false)
        }),
{
    let c = count + 1;
    if c > limit {
        (0, true)
    } else {
        (c, false)
    }
}

/// The kinds of objects placed in a star system.
#[derive(Debug, PartialEq, Copy, Clone)]
pub enum SystemObject {
    Station,
    AsteroidField,
}

/// A straight flight from one map point to another.
#[derive(Debug, PartialEq, Copy, Clone)]
pub struct Course {
    pub from: (i32, i32),
    pub to: (i32, i32),
}

/// The squared length of the course from `from` to `to`.
pub open spec fn dist_sq(from: (i32, i32), to: (i32, i32)) -> int {
    (from.0 - to.0) * (from.0 - to.0) + (from.1 - to.1) * (from.1 - to.1)
}

impl Course {
    pub fn new(x_from: i32, y_from: i32, x_to: i32, y_to: i32) -> (c: Self)
        ensures
            c.from == (x_from, y_from),
            c.to == (x_to, y_to),
    {
        Course { from: (x_from, y_from), to: (x_to, y_to) }
    }

    /// `distance` computes without overflow: both coordinate differences,
    /// their squares and the sum fit an `i32`.
    pub open spec fn distance_ok(&self) -> bool {
        let dx = self.from.0 - self.to.0;
        let dy = self.from.1 - self.to.1;
        &&& i32::MIN <= dx <= i32::MAX
        &&& i32::MIN <= dy <= i32::MAX
        &&& dx * dx <= i32::MAX
        &&& dy * dy <= i32::MAX
        &&& dist_sq(self.from, self.to) <= i32::MAX
    }

    /// The length of the course, rounded down.
    pub fn distance(&self) -> (d: i32)
        requires
            self.distance_ok(),
        ensures
            0 <= d,
            d * d <= dist_sq(self.from, self.to) < (d + 1) * (d + 1),
    {
        let dx = self.from.0 - self.to.0;
        let dy = self.from.1 - self.to.1;
        assert(0 <= dx * dx && 0 <= dy * dy) by (nonlinear_arith);
        let sq = dx * dx + dy * dy;
        floor_sqrt(sq)
    }
}

/// The largest `r` with `r * r <= n`.
fn floor_sqrt(n: i32) -> (r: i32)
    requires
        n >= 0,
    ensures
        0 <= r,
        r * r <= n < (r + 1) * (r + 1),
{
    let mut lo: i32 = 0;
    let mut hi: i32 = 46341;
    assert(46341 * 46341 > i32::MAX);
    while hi - lo > 1
        invariant
            0 <= lo < hi <= 46341,
            lo * lo <= n,
            n < hi * hi,
        decreases hi - lo,
    {
        let mid = lo + (hi - lo) / 2;
        assert(mid * mid <= 46340 * 46340) by (nonlinear_arith)
            requires
                0 <= mid <= 46340,
        ;
        if mid * mid <= n {
            lo = mid;
        } else {
            hi = mid;
        }
    }
    lo
}

/// The squared distance from `p` to (`x`, `y`).
pub open spec fn sq_dist(p: (i32, i32), x: i32, y: i32) -> int {
    (p.0 - x) * (p.0 - x) + (p.1 - y) * (p.1 - y)
}

/// The squared distances from every point of `ps` to (`x`, `y`) fit an
/// `i32`.
pub open spec fn dists_ok(ps: Seq<(i32, i32)>, x: i32, y: i32) -> bool {
    forall|j: int|
        0 <= j < ps.len() ==> {
            let p = #[trigger] ps[j];
            &&& i32::MIN <= p.0 - x <= i32::MAX
            &&& i32::MIN <= p.1 - y <= i32::MAX
            &&& (p.0 - x) * (p.0 - x) <= i32::MAX
            &&& (p.1 - y) * (p.1 - y) <= i32::MAX
            &&& sq_dist(p, x, y) <= i32::MAX
        }
}

/// `r` is the index of the point of `ps` nearest to (`x`, `y`), the first
/// of several equally near ones, if that point's squared distance is below
/// `limit`, and `None` if no point is that near.
pub open spec fn nearest_within(ps: Seq<(i32, i32)>, x: i32, y: i32, limit: i32, r: Option<usize>) -> bool {
    match r {
        Some(i) => {
            &&& i < ps.len()
            &&& sq_dist(ps[i as int], x, y) < limit
            &&& forall|j: int| 0 <= j < ps.len() ==> sq_dist(ps[i as int], x, y) <= sq_dist(#[trigger] ps[j], x, y)
            &&& forall|j: int| 0 <= j < i ==> sq_dist(ps[i as int], x, y) < sq_dist(#[trigger] ps[j], x, y)
        },
        None => forall|j: int| 0 <= j < ps.len() ==> sq_dist(#[trigger] ps[j], x, y) >= limit,
    }
}

/// The index of the point of `ps` nearest to (`x`, `y`), the first of
/// several equally near ones, if its squared distance is below `limit`
/// (which must not exceed the search's starting bound of 99999).
pub fn closest_within(ps: &Vec<(i32, i32)>, x: i32, y: i32, limit: i32) -> (r: Option<usize>)
    requires
        dists_ok(ps@, x, y),
        limit <= 99999,
    ensures
        nearest_within(ps@, x, y, limit, r),
{
    let mut closest_i: usize = 0;
    let mut found = false;
    let mut last_dist: i32 = 99999;
    let mut i: usize = 0;
    while i < ps.len()
        invariant
            i <= ps@.len(),
            dists_ok(ps@, x, y),
            limit <= 99999,
            found ==> closest_i < i && last_dist == sq_dist(ps@[closest_i as int], x, y),
            !found ==> last_dist == 99999,
            forall|j: int| 0 <= j < i ==> last_dist <= sq_dist(#[trigger] ps@[j], x, y),
            found ==> forall|j: int| 0 <= j < closest_i ==> last_dist < sq_dist(#[trigger] ps@[j], x, y),
        decreases ps@.len() - i,
    {
        let p = ps[i];
        assert(p == ps@[i as int]);
        assert((p.0 - x) * (p.0 - x) <= i32::MAX && (p.1 - y) * (p.1 - y) <= i32::MAX && sq_dist(p, x, y) <= i32::MAX);
        let dx = p.0 - x;
        let dy = p.1 - y;
        assert(0 <= dx * dx && 0 <= dy * dy) by (nonlinear_arith);
        let d: i32 = dx * dx + dy * dy;
        if d < last_dist {
            last_dist = d;
            closest_i = i;
            found = true;
        }
        i = i + 1;
    }
    if last_dist < limit {
        Some(closest_i)
    } else {
        None
    }
}

/// A thing placed in a star system.
#[derive(Debug, Clone, Copy)]
pub struct Entity {
    pub id: usize,
    pub typ: SystemObject,
    pub x: i32,
    pub y: i32,
    pub draw_pos: (i32, i32),
    pub is_highlighted: bool,
}

impl Entity {
    /// An entity of kind `typ` at the system's origin.
    pub fn new(typ: SystemObject) -> (e: Self)
        ensures
            e.id == 0,
            e.typ == typ,
            e.x == 0 && e.y == 0,
            e.draw_pos == (0i32, 0i32),
            !e.is_highlighted,
    {
        Entity { id: 0, typ, draw_pos: (0, 0), x: 0, y: 0, is_highlighted: false }
    }

    pub fn set_id(&mut self, id: usize)
        ensures
            *final(self) == (Entity { id, ..*old(self) }),
    {
        self.id = id;
    }

    /// Draws the entity at the current offset and remembers where on the
    /// screen that was.
    fn draw<P: GamePainter>(&mut self, p: &mut P)
        ensures
            final(p).ops()@ == old(p).ops()@ + entity_ops(*old(self)),
            *final(self) == (Entity { draw_pos: final(p).screen_pos(0, 0), ..*old(self) }),
    {
        if self.is_highlighted {
            p.draw_circle(0, 0, 8, (255, 0, 0, 255));
        }
        match self.typ {
            SystemObject::Station => {
                p.draw_dot(0, 0, 4, (0, 190, 0, 255));
            },
            SystemObject::AsteroidField => {
                p.draw_dot(0, 0, 2, (190, 190, 190, 255));
            },
        }
        self.draw_pos = p.get_screen_pos(0, 0);
    }

    fn set_highlight(&mut self, h: bool)
        ensures
            *final(self) == (Entity { is_highlighted: h, ..*old(self) }),
    {
        self.is_highlighted = h;
    }
}

/// What drawing entity `e` paints: a red ring when it is highlighted,
/// then a dot whose size and colour tell its kind.
pub open spec fn entity_ops(e: Entity) -> Seq<PaintOp> {
    let dot = match e.typ {
        SystemObject::Station => PaintOp::Dot(0, 0, 4, (0u8, 190u8, 0u8, 255u8)),
        SystemObject::AsteroidField => PaintOp::Dot(0, 0, 2, (190u8, 190u8, 190u8, 255u8)),
    };
    if e.is_highlighted {
        seq![PaintOp::Circle(0, 0, 8, (255u8, 0u8, 0u8, 255u8)), dot]
    } else {
        seq![dot]
    }
}

/// What drawing ship `s` paints: its course line, if it has a course, a
/// dot at its position, and its notification below it, if there is one.
pub open spec fn ship_ops(s: Ship) -> Seq<PaintOp> {
    let line = match s.course {
        Some(c) => seq![PaintOp::Line(s.pos.0, s.pos.1, c.to.0, c.to.1, 1, (190u8, 190u8, 190u8, 255u8))],
        None => Seq::empty(),
    };
    let note = if s.notify_txt@.len() > 0 {
        seq![
            PaintOp::Text(
                (s.pos.0 - 100) as i32,
                (s.pos.1 + 10) as i32,
                200,
                (255u8, 0u8, 255u8, 255u8),
                None,
                0,
                s.notify_txt@,
            ),
        ]
    } else {
        Seq::empty()
    };
    line + seq![PaintOp::Dot(s.pos.0, s.pos.1, 3, (160u8, 160u8, 255u8, 255u8))] + note
}

/// The first `n` horizontal lines of a system's grid, 48 pixels apart.
pub open spec fn grid_rows(n: int) -> Seq<PaintOp>
    decreases n,
{
    if n <= 0 {
        Seq::empty()
    } else {
        grid_rows(n - 1).push(PaintOp::Line(0, ((n - 1) * 48) as i32, 479, ((n - 1) * 48) as i32, 1, (200u8, 0u8, 0u8, 255u8)))
    }
}

/// The first `n` vertical lines of a system's grid, 48 pixels apart.
pub open spec fn grid_cols(n: int) -> Seq<PaintOp>
    decreases n,
{
    if n <= 0 {
        Seq::empty()
    } else {
        grid_cols(n - 1).push(PaintOp::Line(((n - 1) * 48) as i32, 0, ((n - 1) * 48) as i32, 479, 1, (200u8, 0u8, 0u8, 255u8)))
    }
}

/// What drawing the first `n` entities `es` of a system paints: each
/// entity drawn at its map position.
pub open spec fn entities_ops(es: Seq<Entity>, n: int) -> Seq<PaintOp>
    decreases n,
{
    if n <= 0 {
        Seq::empty()
    } else {
        let e = es[n - 1];
        entities_ops(es, n - 1) + seq![PaintOp::PushAddOffs(e.x, e.y)] + entity_ops(e) + seq![PaintOp::PopOffs]
    }
}

/// What drawing system `sy` paints: its background, the 11 by 11 grid
/// lines, its entities and, if the ship `ship` is in it, the ship.
pub open spec fn system_ops(sy: System, ship: Ship) -> Seq<PaintOp> {
    seq![PaintOp::RectFilled(0, 0, 480, 480, (0u8, 0u8, 50u8, 255u8))] + grid_rows(11) + grid_cols(11)
        + entities_ops(sy.objects@, sy.objects@.len() as int) + if ship.system == sy.id {
        ship_ops(ship)
    } else {
        Seq::empty()
    }
}

/// The map positions of the entities `es`.
pub open spec fn map_positions(es: Seq<Entity>) -> Seq<(i32, i32)> {
    Seq::new(es.len(), |j: int| (es[j].x, es[j].y))
}

/// The screen positions at which the entities `es` were last drawn.
pub open spec fn screen_positions(es: Seq<Entity>) -> Seq<(i32, i32)> {
    Seq::new(es.len(), |j: int| es[j].draw_pos)
}

/// How the last tick left a ship.
#[derive(Debug, PartialEq, Copy, Clone)]
pub enum FlightState {
    Arrived,
    Flying,
    Stopped,
}

/// `d` is the length of a course whose squared length is `n`, rounded down.
pub open spec fn is_floor_sqrt(d: int, n: int) -> bool {
    0 <= d && d * d <= n < (d + 1) * (d + 1)
}

/// A ship flying between map points. Ten ticks make a second; the course
/// progress is kept in hundredths of a map unit.
#[derive(Debug)]
pub struct Ship {
    pub id: usize,
    pub system: usize,
    pub name: String,
    pub notify_txt: String,
    pub pos: (i32, i32),
    pub speed_t: i32,
    pub course_progress: i32,
    pub course: Option<Course>,
    pub tick_count: i32,
    pub flight: Option<FlightState>,
}

impl Clone for Ship {
    fn clone(&self) -> (s: Self)
        ensures
            s == *self,
    {
        Ship {
            id: self.id,
            system: self.system,
            name: self.name.clone(),
            notify_txt: self.notify_txt.clone(),
            pos: self.pos,
            speed_t: self.speed_t,
            course_progress: self.course_progress,
            course: self.course,
            tick_count: self.tick_count,
            flight: self.flight,
        }
    }
}

impl Ship {
    /// A resting ship called `name` at the origin.
    pub fn new(name: String) -> (s: Self)
        ensures
            s.id == 0 && s.system == 0,
            s.name == name,
            s.notify_txt@ == Seq::<char>::empty(),
            s.pos == (0i32, 0i32),
            s.speed_t == 200,
            s.course_progress == 0,
            s.course is None,
            s.tick_count == 0,
            s.flight is None,
    {
        Ship {
            name,
            course_progress: 0,
            speed_t: 200,
            course: None,
            pos: (0, 0),
            system: 0,
            id: 0,
            tick_count: 0,
            notify_txt: String::new(),
            flight: None,
        }
    }

    pub fn set_id(&mut self, id: usize)
        ensures
            *final(self) == (Ship { id, ..*old(self) }),
    {
        self.id = id;
    }

    pub fn set_system(&mut self, sys_id: usize)
        ensures
            *final(self) == (Ship { system: sys_id, ..*old(self) }),
    {
        self.system = sys_id;
    }

    pub fn set_notification(&mut self, not: String)
        ensures
            *final(self) == (Ship { notify_txt: not, ..*old(self) }),
    {
        self.notify_txt = not;
    }

    /// Starts a flight from the current position to (`x`, `y`).
    pub fn set_course_to(&mut self, x: i32, y: i32)
        ensures
            *final(self) == (Ship {
                course: Some(Course { from: old(self).pos, to: (x, y) }),
                course_progress: 0,
                ..*old(self)
            }),
    {
        self.course = Some(Course::new(self.pos.0, self.pos.1, x, y));
        self.course_progress = 0;
    }

    /// `tick` computes without overflow.
    pub open spec fn tick_ok(&self) -> bool {
        &&& self.tick_count < i32::MAX
        &&& self.course matches Some(c) ==> {
            &&& c.distance_ok()
            &&& i32::MIN <= self.course_progress + self.speed_t <= i32::MAX
            &&& forall|d: int| is_floor_sqrt(d, dist_sq(c.from, c.to)) ==> d * 100 <= i32::MAX
        }
    }

    /// Advances the ship by one tick. On a course it moves `speed_t`
    /// further: past the course's length (times 100) it arrives at the end,
    /// otherwise it is placed where `interpolate(course, progress, length
    /// times 100)` says. Returns whether this tick is the sixth since the
    /// last report, when the ship reports its position.
    pub fn tick<F: Fn(Course, i32, i32) -> (i32, i32)>(&mut self, interpolate: F) -> (report: bool)
        requires
            old(self).tick_ok(),
            forall|c: Course, a: i32, b: i32| #[trigger] call_requires(interpolate, (c, a, b)),
        ensures
            final(self).id == old(self).id,
            final(self).system == old(self).system,
            final(self).name == old(self).name,
            final(self).notify_txt == old(self).notify_txt,
            final(self).speed_t == old(self).speed_t,
            match old(self).course {
                Some(c) => {
                    let progress = old(self).course_progress + old(self).speed_t;
                    &&& final(self).course_progress == progress
                    &&& exists|d: int|
                        #[trigger] is_floor_sqrt(d, dist_sq(c.from, c.to)) && if progress >= d * 100 {
                            &&& final(self).pos == c.to
                            &&& final(self).course is None
                            &&& final(self).flight == Some(FlightState::Arrived)
                        } else {
                            &&& call_ensures(interpolate, (c, progress as i32, (d * 100) as i32), final(self).pos)
                            &&& final(self).course == old(self).course
                            &&& final(self).flight == Some(FlightState::Flying)
                        }
                },
                None => {
                    &&& final(self).pos == old(self).pos
                    &&& final(self).course is None
                    &&& final(self).course_progress == old(self).course_progress
                    &&& final(self).flight == Some(FlightState::Stopped)
                },
            },
            report == (old(self).tick_count + 1 > 5),
            final(self).tick_count == (if report {
                0
            } else {
                old(self).tick_count + 1
            }),
    {
        match self.course {
            Some(c) => {
                self.course_progress = self.course_progress + self.speed_t;
                let len = c.distance();
                assert(is_floor_sqrt(len as int, dist_sq(c.from, c.to)));
                let d = len * 100;
                if self.course_progress >= d {
                    self.pos = c.to;
                    self.course = None;
                    self.flight = Some(FlightState::Arrived);
                } else {
                    self.pos = interpolate(c, self.course_progress, d);
                    self.flight = Some(FlightState::Flying);
                }
            },
            None => {
                self.flight = Some(FlightState::Stopped);
            },
        }
        self.tick_count = self.tick_count + 1;
        if self.tick_count > 5 {
            self.tick_count = 0;
            true
        } else {
            false
        }
    }

    /// Draws the ship, its course line and its notification.
    pub fn draw<P: GamePainter>(&mut self, p: &mut P)
        requires
            old(self).pos.0 >= i32::MIN + 100,
            old(self).pos.1 <= i32::MAX - 10,
        ensures
            *final(self) == *old(self),
            final(p).ops()@ == old(p).ops()@ + ship_ops(*old(self)),
    {
        if let Some(c) = self.course {
            p.draw_line(self.pos.0, self.pos.1, c.to.0, c.to.1, 1, (190, 190, 190, 255));
        }
        p.draw_dot(self.pos.0, self.pos.1, 3, (160, 160, 255, 255));
        if !self.notify_txt.as_str().is_empty() {
            p.draw_text(
                self.pos.0 - 100,
                self.pos.1 + 10,
                200,
                (255, 0, 255, 255),
                None,
                0,
                self.notify_txt.as_str(),
            );
        }
    }
}

/// A star system: a map of entities on a grid.
#[derive(Debug, Clone)]
pub struct System {
    pub id: usize,
    pub x: i32,
    pub y: i32,
    pub objects: Vec<Entity>,
    pub tick_count: i32,
}

impl System {
    /// An empty system at (`x`, `y`).
    pub fn new(x: i32, y: i32) -> (s: Self)
        ensures
            s.id == 0,
            s.x == x && s.y == y,
            s.objects@.len() == 0,
            s.tick_count == 0,
    {
        System { id: 0, x, y, objects: Vec::new(), tick_count: 0 }
    }

    pub fn set_id(&mut self, id: usize)
        ensures
            final(self).id == id,
            final(self).x == old(self).x && final(self).y == old(self).y,
            final(self).objects == old(self).objects,
            final(self).tick_count == old(self).tick_count,
    {
        self.id = id;
    }

    /// Advances the system by one tick; returns whether this tick is the
    /// eleventh since the last report.
    pub fn tick(&mut self) -> (report: bool)
        requires
            old(self).tick_count < i32::MAX,
        ensures
            report == (old(self).tick_count + 1 > 10),
            final(self).tick_count == (if report {
                0
            } else {
                old(self).tick_count + 1
            }),
            final(self).id == old(self).id,
            final(self).x == old(self).x && final(self).y == old(self).y,
            final(self).objects == old(self).objects,
    {
        self.tick_count = self.tick_count + 1;
        if self.tick_count > 10 {
            self.tick_count = 0;
            true
        } else {
            false
        }
    }

    /// Places `e` at (`x`, `y`) in the system.
    pub fn add(&mut self, x: i32, y: i32, e: Entity)
        ensures
            final(self).objects@ == old(self).objects@.push(Entity { x, y, ..e }),
            final(self).id == old(self).id,
            final(self).x == old(self).x && final(self).y == old(self).y,
            final(self).tick_count == old(self).tick_count,
    {
        let mut e = e;
        e.x = x;
        e.y = y;
        self.objects.push(e);
    }

    /// Clears the highlight of every entity.
    pub fn clear_entity_highlights(&mut self)
        ensures
            final(self).objects@.len() == old(self).objects@.len(),
            forall|j: int|
                0 <= j < old(self).objects@.len() ==> #[trigger] final(self).objects@[j] == (Entity {
                    is_highlighted: false,
                    ..old(self).objects@[j]
                }),
            final(self).id == old(self).id,
            final(self).x == old(self).x && final(self).y == old(self).y,
            final(self).tick_count == old(self).tick_count,
    {
        let mut j: usize = 0;
        while j < self.objects.len()
            invariant
                j <= self.objects@.len(),
                self.objects@.len() == old(self).objects@.len(),
                forall|i: int|
                    0 <= i < j ==> #[trigger] self.objects@[i] == (Entity {
                        is_highlighted: false,
                        ..old(self).objects@[i]
                    }),
                forall|i: int| j <= i < self.objects@.len() ==> #[trigger] self.objects@[i] == old(self).objects@[i],
                self.id == old(self).id,
                self.x == old(self).x && self.y == old(self).y,
                self.tick_count == old(self).tick_count,
            decreases self.objects@.len() - j,
        {
            let mut e = self.objects[j].clone();
            e.set_highlight(false);
            self.objects.set(j, e);
            j = j + 1;
        }
    }

    /// Highlights the entity drawn nearest to the screen position
    /// (`x_screen`, `y_screen`), if it is closer than 20 pixels, and clears
    /// every other highlight.
    pub fn try_highlight_entity_close_to(&mut self, x_screen: i32, y_screen: i32)
        requires
            dists_ok(screen_positions(old(self).objects@), x_screen, y_screen),
        ensures
            final(self).objects@.len() == old(self).objects@.len(),
            exists|r: Option<usize>|
                #[trigger] nearest_within(screen_positions(old(self).objects@), x_screen, y_screen, 400, r) && forall|
                    j: int,
                |
                    0 <= j < old(self).objects@.len() ==> #[trigger] final(self).objects@[j] == (Entity {
                        is_highlighted: r == Some(j as usize),
                        ..old(self).objects@[j]
                    }),
            final(self).id == old(self).id,
            final(self).x == old(self).x && final(self).y == old(self).y,
            final(self).tick_count == old(self).tick_count,
    {
        self.clear_entity_highlights();
        assert(screen_positions(self.objects@) =~= screen_positions(old(self).objects@));
        let r = self.get_entity_close_to_screen(x_screen, y_screen);
        if let Some(i) = r {
            let mut e = self.objects[i].clone();
            e.set_highlight(true);
            self.objects.set(i, e);
        }
    }

    /// The index of the entity nearest to the map position (`x`, `y`), if
    /// it is closer than 2 units.
    pub fn get_entity_close_to(&self, x: i32, y: i32) -> (r: Option<usize>)
        requires
            dists_ok(map_positions(self.objects@), x, y),
        ensures
            nearest_within(map_positions(self.objects@), x, y, 4, r),
    {
        let mut ps: Vec<(i32, i32)> = Vec::new();
        let mut j: usize = 0;
        while j < self.objects.len()
            invariant
                j <= self.objects@.len(),
                ps@ == map_positions(self.objects@).take(j as int),
            decreases self.objects@.len() - j,
        {
            ps.push((self.objects[j].x, self.objects[j].y));
            j = j + 1;
            assert(ps@ =~= map_positions(self.objects@).take(j as int));
        }
        assert(ps@ =~= map_positions(self.objects@));
        closest_within(&ps, x, y, 4)
    }

    /// The index of the entity drawn nearest to the screen position
    /// (`x_screen`, `y_screen`), if it is closer than 20 pixels.
    pub fn get_entity_close_to_screen(&self, x_screen: i32, y_screen: i32) -> (r: Option<usize>)
        requires
            dists_ok(screen_positions(self.objects@), x_screen, y_screen),
        ensures
            nearest_within(screen_positions(self.objects@), x_screen, y_screen, 400, r),
    {
        let mut ps: Vec<(i32, i32)> = Vec::new();
        let mut j: usize = 0;
        while j < self.objects.len()
            invariant
                j <= self.objects@.len(),
                ps@ == screen_positions(self.objects@).take(j as int),
            decreases self.objects@.len() - j,
        {
            ps.push(self.objects[j].draw_pos);
            j = j + 1;
            assert(ps@ =~= screen_positions(self.objects@).take(j as int));
        }
        assert(ps@ =~= screen_positions(self.objects@));
        closest_within(&ps, x_screen, y_screen, 400)
    }

    /// Draws the system's grid, its entities and, if it is in this system,
    /// the ship.
    pub fn draw<P: GamePainter>(&mut self, ship: &mut Ship, p: &mut P)
        requires
            old(ship).pos.0 >= i32::MIN + 100,
            old(ship).pos.1 <= i32::MAX - 10,
        ensures
            *final(ship) == *old(ship),
            final(p).ops()@ == old(p).ops()@ + system_ops(*old(self), *old(ship)),
            final(self).id == old(self).id,
            final(self).x == old(self).x && final(self).y == old(self).y,
            final(self).tick_count == old(self).tick_count,
            final(self).objects@.len() == old(self).objects@.len(),
            forall|j: int|
                0 <= j < old(self).objects@.len() ==> #[trigger] final(self).objects@[j] == (Entity {
                    draw_pos: final(self).objects@[j].draw_pos,
                    ..old(self).objects@[j]
                }),
    {
        let ghost ops0 = p.ops()@;
        let ghost bg = seq![PaintOp::RectFilled(0, 0, 480, 480, (0u8, 0u8, 50u8, 255u8))];
        let cell_count: u32 = 10;
        let cell_size: u32 = 48;
        let w: u32 = cell_count * cell_size;
        p.draw_rect_filled(0, 0, cell_size * cell_count, cell_size * cell_count, (0, 0, 50, 255));
        let mut h_line_y: i32 = 0;
        while h_line_y < 11
            invariant
                0 <= h_line_y <= 11,
                w == 480,
                p.ops()@ == ops0 + bg + grid_rows(h_line_y as int),
            decreases 11 - h_line_y,
        {
            p.draw_line(0, h_line_y * 48, (w - 1) as i32, h_line_y * 48, 1, (200, 0, 0, 255));
            h_line_y = h_line_y + 1;
            assert(p.ops()@ =~= ops0 + bg + grid_rows(h_line_y as int));
        }
        let mut v_line_x: i32 = 0;
        while v_line_x < 11
            invariant
                0 <= v_line_x <= 11,
                w == 480,
                p.ops()@ == ops0 + bg + grid_rows(11) + grid_cols(v_line_x as int),
            decreases 11 - v_line_x,
        {
            p.draw_line(v_line_x * 48, 0, v_line_x * 48, (w - 1) as i32, 1, (200, 0, 0, 255));
            v_line_x = v_line_x + 1;
            assert(p.ops()@ =~= ops0 + bg + grid_rows(11) + grid_cols(v_line_x as int));
        }
        let mut j: usize = 0;
        while j < self.objects.len()
            invariant
                j <= self.objects@.len(),
                self.objects@.len() == old(self).objects@.len(),
                forall|i: int|
                    0 <= i < self.objects@.len() ==> #[trigger] self.objects@[i] == (Entity {
                        draw_pos: self.objects@[i].draw_pos,
                        ..old(self).objects@[i]
                    }),
                self.id == old(self).id,
                self.x == old(self).x && self.y == old(self).y,
                self.tick_count == old(self).tick_count,
                p.ops()@ == ops0 + bg + grid_rows(11) + grid_cols(11) + entities_ops(old(self).objects@, j as int),
            decreases self.objects@.len() - j,
        {
            let mut e = self.objects[j].clone();
            p.push_add_offs(e.x, e.y);
            e.draw(p);
            p.pop_offs();
            self.objects.set(j, e);
            j = j + 1;
            assert(entity_ops(old(self).objects@[j - 1]) == entity_ops(e));
            assert(p.ops()@ =~= ops0 + bg + grid_rows(11) + grid_cols(11) + entities_ops(old(self).objects@, j as int));
        }
        let ghost mid = p.ops()@;
        proof {
            assert(mid =~= ops0 + (bg + grid_rows(11) + grid_cols(11) + entities_ops(old(self).objects@, old(self).objects@.len() as int)));
        }
        if ship.system == self.id {
            ship.draw(p);
        }
        assert(p.ops()@ =~= ops0 + system_ops(*old(self), *old(ship)));
    }
}

/// The index of the first registration for event `ev` in `cbs`, from
/// index `j` on.
pub open spec fn find_event<Cb>(cbs: Seq<(String, Vec<Cb>)>, ev: Seq<char>, j: int) -> Option<int>
    decreases cbs.len() - j,
{
    if j < 0 || j >= cbs.len() {
        None
    } else if cbs[j].0@ == ev {
        Some(j)
    } else {
        find_event(cbs, ev, j + 1)
    }
}

/// The callbacks registered in `cbs` for event `ev`.
pub open spec fn callbacks_for<Cb>(cbs: Seq<(String, Vec<Cb>)>, ev: Seq<char>) -> Seq<Cb> {
    match find_event(cbs, ev, 0) {
        Some(i) => cbs[i].1@,
        None => Seq::empty(),
    }
}

/// `out` is what delivering the queued events `queue` hands out, last
/// event first: for each event, a copy of every callback registered for
/// it, each with a copy of the event's arguments.
pub open spec fn delivered<Cb: Clone, A: Clone>(
    cbs: Seq<(String, Vec<Cb>)>,
    queue: Seq<(String, A)>,
    out: Seq<(Cb, A)>,
) -> bool
    decreases queue.len(),
{
    if queue.len() == 0 {
        out.len() == 0
    } else {
        let ev = queue.last();
        let cs = callbacks_for(cbs, ev.0@);
        &&& out.len() >= cs.len()
        &&& forall|k: int| 0 <= k < cs.len() ==> cloned(cs[k], #[trigger] out[k].0) && cloned(ev.1, out[k].1)
        &&& delivered(cbs, queue.drop_last(), out.skip(cs.len() as int))
    }
}

/// Routes named events to the callbacks registered for them. Events that
/// nobody listens to are queued for the catch-all name `*` instead.
pub struct EventRouter<Cb, A> {
    pub callbacks: Vec<(String, Vec<Cb>)>,
    pub event_queue: Vec<(String, A)>,
}

impl<Cb: Clone, A: Clone> EventRouter<Cb, A> {
    /// No event name is registered twice.
    pub open spec fn wf(&self) -> bool {
        forall|i: int, j: int|
            0 <= i < j < self.callbacks@.len() ==> (#[trigger] self.callbacks@[i]).0@ != (
            #[trigger] self.callbacks@[j]).0@
    }

    /// A router with no callbacks and no queued events.
    pub fn new() -> (r: Self)
        ensures
            r.wf(),
            r.callbacks@.len() == 0,
            r.event_queue@.len() == 0,
    {
        EventRouter { event_queue: Vec::new(), callbacks: Vec::new() }
    }

    /// The position of the registration for `ev`, if there is one.
    fn position(&self, ev: &str) -> (r: Option<usize>)
        ensures
            match r {
                Some(i) => find_event(self.callbacks@, ev@, 0) == Some(i as int) && i < self.callbacks@.len(),
                None => find_event(self.callbacks@, ev@, 0) is None,
            },
    {
        let mut j: usize = 0;
        while j < self.callbacks.len()
            invariant
                j <= self.callbacks@.len(),
                find_event(self.callbacks@, ev@, 0) == find_event(self.callbacks@, ev@, j as int),
            decreases self.callbacks@.len() - j,
        {
            if crate::gui::str_eq(self.callbacks[j].0.as_str(), ev) {
                return Some(j);
            }
            j = j + 1;
        }
        None
    }

    /// Registers `f` for the event `ev`, after the callbacks already
    /// registered for it.
    pub fn reg_cb(&mut self, ev: String, f: Cb)
        requires
            old(self).wf(),
        ensures
            final(self).wf(),
            final(self).event_queue == old(self).event_queue,
            forall|e: Seq<char>| #[trigger] callbacks_for(final(self).callbacks@, e) == (if e == ev@ {
                callbacks_for(old(self).callbacks@, e).push(f)
            } else {
                callbacks_for(old(self).callbacks@, e)
            }),
    {
        let ghost old_cbs = self.callbacks@;
        match self.position(ev.as_str()) {
            Some(i) => {
                let mut entry = self.callbacks.remove(i);
                entry.1.push(f);
                self.callbacks.insert(i, entry);
                proof {
                    assert forall|k: int| 0 <= k < old_cbs.len() && k != i implies #[trigger] self.callbacks@[k]
                        == old_cbs[k] by {}
                    lemma_find_event_update(old_cbs, self.callbacks@, i as int);
                    lemma_find_event_facts(old_cbs, ev@, 0);
                    assert forall|e: Seq<char>| #[trigger] callbacks_for(self.callbacks@, e) == (if e == ev@ {
                        callbacks_for(old_cbs, e).push(f)
                    } else {
                        callbacks_for(old_cbs, e)
                    }) by {
                        lemma_find_event_facts(old_cbs, e, 0);
                        assert(find_event(self.callbacks@, e, 0) == find_event(old_cbs, e, 0));
                    }
                }
            },
            None => {
                let mut cbs: Vec<Cb> = Vec::new();
                cbs.push(f);
                self.callbacks.push((ev, cbs));
                proof {
                    lemma_find_event_push(old_cbs, self.callbacks@);
                    lemma_find_event_facts(old_cbs, ev@, 0);
                    assert forall|e: Seq<char>| #[trigger] callbacks_for(self.callbacks@, e) == (if e == ev@ {
                        callbacks_for(old_cbs, e).push(f)
                    } else {
                        callbacks_for(old_cbs, e)
                    }) by {
                        assert(find_event(self.callbacks@, e, 0) == find_event(self.callbacks@, e, 0));
                        if e == ev@ {
                            assert(cbs@ =~= Seq::<Cb>::empty().push(f));
                        } else {
                            lemma_find_event_facts(old_cbs, e, 0);
                        }
                    }
                }
            },
        }
    }

    /// Queues `args` for the event `ev`. If nothing is registered for
    /// `ev`, queues `wrap(ev, args)` for `*` instead.
    pub fn emit<W: Fn(String, A) -> A>(&mut self, ev: String, args: A, wrap: W)
        requires
            call_requires(wrap, (ev, args)),
        ensures
            final(self).callbacks == old(self).callbacks,
            final(self).event_queue@.len() == old(self).event_queue@.len() + 1,
            final(self).event_queue@.drop_last() == old(self).event_queue@,
            find_event(old(self).callbacks@, ev@, 0) is Some ==> final(self).event_queue@.last() == (ev, args),
            find_event(old(self).callbacks@, ev@, 0) is None ==> final(self).event_queue@.last().0@ == "*"@
                && call_ensures(wrap, (ev, args), final(self).event_queue@.last().1),
    {
        if self.position(ev.as_str()).is_none() {
            let a2 = wrap(ev, args);
            let star = String::from_str("*");
            proof {
                reveal_strlit("*");
            }
            self.event_queue.push((star, a2));
        } else {
            self.event_queue.push((ev, args));
        }
        proof {
            assert(self.event_queue@.drop_last() =~= old(self).event_queue@);
        }
    }

    /// Empties the queue, last event first, appending to `out` a copy of
    /// every callback registered for each event together with a copy of
    /// the event's arguments.
    pub fn get_events(&mut self, out: &mut Vec<(Cb, A)>)
        ensures
            final(self).callbacks == old(self).callbacks,
            final(self).event_queue@.len() == 0,
            final(out)@.take(old(out)@.len() as int) == old(out)@,
            final(out)@.len() >= old(out)@.len(),
            delivered(
                old(self).callbacks@,
                old(self).event_queue@,
                final(out)@.skip(old(out)@.len() as int),
            ),
    {
        let ghost out0 = out@;
        let ghost q0 = self.event_queue@;
        while self.event_queue.len() > 0
            invariant
                self.callbacks == old(self).callbacks,
                out@.len() >= out0.len(),
                out@.take(out0.len() as int) == out0,
                q0 == old(self).event_queue@,
                out0 == old(out)@,
                self.event_queue@.len() <= q0.len(),
                self.event_queue@ == q0.take(self.event_queue@.len() as int),
                forall|rest: Seq<(Cb, A)>|
                    #[trigger] delivered(self.callbacks@, self.event_queue@, rest) ==> delivered(
                        self.callbacks@,
                        q0,
                        out@.skip(out0.len() as int) + rest,
                    ),
            decreases self.event_queue@.len(),
        {
            let ghost q_before = self.event_queue@;
            let ghost out_before = out@;
            let ev = self.event_queue.pop().unwrap();
            assert(ev == q_before.last());
            assert(self.event_queue@ == q_before.drop_last());
            match self.position(ev.0.as_str()) {
                Some(i) => {
                    let n = self.callbacks[i].1.len();
                    let mut k: usize = 0;
                    while k < n
                        invariant
                            k <= n,
                            i < self.callbacks@.len(),
                            n == self.callbacks@[i as int].1@.len(),
                            out@.len() == out_before.len() + k,
                            out@.take(out_before.len() as int) == out_before,
                            forall|m: int|
                                0 <= m < k ==> cloned(self.callbacks@[i as int].1@[m], #[trigger] out@[out_before.len() + m].0)
                                    && cloned(ev.1, out@[out_before.len() + m].1),
                        decreases n - k,
                    {
                        let c = self.callbacks[i].1[k].clone();
                        let a = ev.1.clone();
                        let ghost prev = out@;
                        proof {
                            assert(cloned(self.callbacks@[i as int].1@[k as int], c));
                            assert(cloned(ev.1, a));
                        }
                        out.push((c, a));
                        proof {
                            assert(out@.take(out_before.len() as int) =~= out_before);
                            assert(out@[out_before.len() + k] == (c, a));
                            assert forall|m: int| 0 <= m < k + 1 implies cloned(
                                self.callbacks@[i as int].1@[m],
                                #[trigger] out@[out_before.len() + m].0,
                            ) && cloned(ev.1, out@[out_before.len() + m].1) by {
                                if m < k {
                                    assert(out@[out_before.len() + m] == prev[out_before.len() + m]);
                                }
                            }
                        }
                        k = k + 1;
                    }
                },
                None => {},
            }
            proof {
                let cs = callbacks_for(self.callbacks@, ev.0@);
                let added = out@.skip(out_before.len() as int);
                assert(added.len() == cs.len());
                assert forall|rest: Seq<(Cb, A)>|
                    #[trigger] delivered(self.callbacks@, self.event_queue@, rest) implies delivered(
                        self.callbacks@,
                        q0,
                        out@.skip(out0.len() as int) + rest,
                    ) by {
                    let whole = added + rest;
                    assert(whole.skip(cs.len() as int) =~= rest);
                    assert forall|k: int| 0 <= k < cs.len() implies cloned(cs[k], #[trigger] whole[k].0) && cloned(
                        ev.1,
                        whole[k].1,
                    ) by {
                        assert(whole[k] == out@[out_before.len() + k]);
                    }
                    assert(delivered(self.callbacks@, q_before, whole));
                    assert(out@.skip(out0.len() as int) + rest =~= out_before.skip(out0.len() as int) + whole);
                }
                assert(out@.take(out0.len() as int) =~= out0);
            }
        }
        proof {
            assert(delivered(self.callbacks@, self.event_queue@, Seq::<(Cb, A)>::empty()));
            assert(out@.skip(out0.len() as int) + Seq::<(Cb, A)>::empty() =~= out@.skip(out0.len() as int));
        }
    }
}

proof fn lemma_find_event_facts<Cb>(a: Seq<(String, Vec<Cb>)>, e: Seq<char>, j: int)
    requires
        0 <= j,
    ensures
        find_event(a, e, j) matches Some(i) ==> j <= i < a.len() && a[i].0@ == e,
        find_event(a, e, j) is None ==> forall|k: int| j <= k < a.len() ==> (#[trigger] a[k]).0@ != e,
    decreases a.len() - j,
{
    if j < a.len() {
        lemma_find_event_facts(a, e, j + 1);
    }
}

proof fn lemma_find_event_update<Cb>(a: Seq<(String, Vec<Cb>)>, b: Seq<(String, Vec<Cb>)>, i: int)
    requires
        a.len() == b.len(),
        0 <= i < a.len(),
        b[i].0 == a[i].0,
        forall|k: int| 0 <= k < a.len() && k != i ==> #[trigger] b[k] == a[k],
    ensures
        forall|e: Seq<char>, j: int| #[trigger] find_event(b, e, j) == find_event(a, e, j),
{
    assert forall|e: Seq<char>, j: int| #[trigger] find_event(b, e, j) == find_event(a, e, j) by {
        lemma_find_event_update_at(a, b, i, e, j);
    }
}

proof fn lemma_find_event_update_at<Cb>(a: Seq<(String, Vec<Cb>)>, b: Seq<(String, Vec<Cb>)>, i: int, e: Seq<char>, j: int)
    requires
        a.len() == b.len(),
        0 <= i < a.len(),
        b[i].0 == a[i].0,
        forall|k: int| 0 <= k < a.len() && k != i ==> #[trigger] b[k] == a[k],
    ensures
        find_event(b, e, j) == find_event(a, e, j),
    decreases a.len() - j,
{
    if 0 <= j < a.len() {
        lemma_find_event_update_at(a, b, i, e, j + 1);
        if j != i {
            assert(b[j] == a[j]);
        }
    }
}

proof fn lemma_find_event_push<Cb>(a: Seq<(String, Vec<Cb>)>, b: Seq<(String, Vec<Cb>)>)
    requires
        b.len() == a.len() + 1,
        forall|k: int| 0 <= k < a.len() ==> #[trigger] b[k] == a[k],
        find_event(a, b[a.len() as int].0@, 0) is None,
    ensures
        forall|e: Seq<char>|
            #[trigger] find_event(b, e, 0) == (if find_event(a, e, 0) is Some {
                find_event(a, e, 0)
            } else if e == b[a.len() as int].0@ {
                Some(a.len() as int)
            } else {
                None
            }),
{
    assert forall|e: Seq<char>|
        #[trigger] find_event(b, e, 0) == (if find_event(a, e, 0) is Some {
            find_event(a, e, 0)
        } else if e == b[a.len() as int].0@ {
            Some(a.len() as int)
        } else {
            None
        }) by {
        lemma_find_event_push_at(a, b, e, 0);
    }
}

proof fn lemma_find_event_push_at<Cb>(a: Seq<(String, Vec<Cb>)>, b: Seq<(String, Vec<Cb>)>, e: Seq<char>, j: int)
    requires
        b.len() == a.len() + 1,
        0 <= j <= a.len(),
        forall|k: int| 0 <= k < a.len() ==> #[trigger] b[k] == a[k],
    ensures
        find_event(b, e, j) == (if find_event(a, e, j) is Some {
            find_event(a, e, j)
        } else if e == b[a.len() as int].0@ {
            Some(a.len() as int)
        } else {
            None
        }),
    decreases a.len() - j,
{
    if j < a.len() {
        lemma_find_event_push_at(a, b, e, j + 1);
        assert(b[j] == a[j]);
    } else {
        assert(find_event(b, e, j + 1) is None);
    }
}

} // verus!
