use sscg::logic::{
    closest_within, count_tick, text_placement, Course, Entity, EventRouter, FlightState, GamePainter, PaintOp, Ship, System,
    SystemObject,
};

struct NullPainter {
    pos: (i32, i32),
    stack: Vec<(i32, i32)>,
    lines: usize,
    ops: Vec<String>,
}

impl GamePainter for NullPainter {
    fn ops(&self) -> Vec<PaintOp> {
        unreachable!("the record of calls is read by contracts only")
    }
    fn screen_pos(&self, xo: i32, yo: i32) -> (i32, i32) {
        self.get_screen_pos(xo, yo)
    }
    fn saved_offs(&self) -> Vec<(i32, i32)> {
        self.stack.clone()
    }
    fn push_offs(&mut self, xo: i32, yo: i32) {
        self.stack.push(self.pos);
        self.pos = (xo, yo);
    }
    fn push_add_offs(&mut self, xo: i32, yo: i32) {
        self.ops.push(format!("offs {} {}", xo, yo));
        self.stack.push(self.pos);
        self.pos = (self.pos.0 + xo, self.pos.1 + yo);
    }
    fn pop_offs(&mut self) {
        self.ops.push("pop".to_string());
        if let Some(o) = self.stack.pop() {
            self.pos = o;
        }
    }
    fn get_screen_pos(&self, xo: i32, yo: i32) -> (i32, i32) {
        (self.pos.0 + xo, self.pos.1 + yo)
    }
    fn get_sprite_size(&self, _id: usize) -> (u32, u32) {
        (0, 0)
    }
    fn disable_clip_rect(&mut self) {}
    fn set_clip_rect(&mut self, _xo: i32, _yo: i32, _w: u32, _h: u32) {}
    fn draw_rect(&mut self, _xo: i32, _yo: i32, _w: u32, _h: u32, _c: (u8, u8, u8, u8)) {}
    fn draw_rect_filled(&mut self, xo: i32, yo: i32, w: u32, h: u32, _c: (u8, u8, u8, u8)) {
        self.ops.push(format!("fill {} {} {} {}", xo, yo, w, h));
    }
    fn draw_dot(&mut self, xo: i32, yo: i32, r: u32, _c: (u8, u8, u8, u8)) {
        self.ops.push(format!("dot {} {} {}", xo, yo, r));
    }
    fn draw_circle(&mut self, xo: i32, yo: i32, r: u32, _c: (u8, u8, u8, u8)) {
        self.ops.push(format!("circle {} {} {}", xo, yo, r));
    }
    fn draw_line(&mut self, xo: i32, yo: i32, x2o: i32, y2o: i32, _t: u32, _c: (u8, u8, u8, u8)) {
        self.lines += 1;
        self.ops.push(format!("line {} {} {} {}", xo, yo, x2o, y2o));
    }
    fn text_size(&mut self, txt: &str) -> (u32, u32) {
        (txt.len() as u32, 1)
    }
    fn draw_text(
        &mut self,
        xo: i32,
        yo: i32,
        _max_w: u32,
        _fg: (u8, u8, u8, u8),
        _bg: Option<(u8, u8, u8, u8)>,
        _align: i32,
        txt: &str,
    ) {
        self.ops.push(format!("text {} {} {}", xo, yo, txt));
    }
}

#[test]
fn course_distance_rounds_down() {
    assert_eq!(Course::new(0, 0, 3, 4).distance(), 5);
    assert_eq!(Course::new(3, 4, 0, 0).distance(), 5);
    assert_eq!(Course::new(0, 0, 1, 1).distance(), 1);
    assert_eq!(Course::new(10, 10, 10, 10).distance(), 0);
    assert_eq!(Course::new(-5, 0, 5, 0).distance(), 10);
    assert_eq!(Course::new(0, 0, 20000, 20000).distance(), 28284);
}

#[test]
fn nearest_point_within_limit() {
    let ps = vec![(10, 10), (1, 1), (0, 1), (1, 0)];
    assert_eq!(closest_within(&ps, 0, 0, 4), Some(2));
    assert_eq!(closest_within(&ps, 0, 0, 1), None);
    assert_eq!(closest_within(&ps, 10, 11, 4), Some(0));
    assert_eq!(closest_within(&vec![], 0, 0, 400), None);
    assert_eq!(closest_within(&vec![(5, 5), (5, 5)], 5, 5, 4), Some(0));
}

#[test]
fn ship_flies_and_arrives() {
    let mut s = Ship::new("Explorer".to_string());
    assert_eq!(s.speed_t, 200);
    assert_eq!(s.flight, None);
    s.set_course_to(3, 4);
    assert_eq!(s.course, Some(Course::new(0, 0, 3, 4)));
    assert_eq!(s.course_progress, 0);
    let lerp = |c: Course, p: i32, d: i32| -> (i32, i32) {
        let v = p as f64 / d as f64;
        (
            ((c.to.0 as f64 * v) + (c.from.0 as f64 * (1.0 - v))) as i32,
            ((c.to.1 as f64 * v) + (c.from.1 as f64 * (1.0 - v))) as i32,
        )
    };
    let r = s.tick(lerp);
    assert!(!r);
    assert_eq!(s.course_progress, 200);
    assert_eq!(s.flight, Some(FlightState::Flying));
    assert_eq!(s.pos, (1, 1));
    s.tick(lerp);
    assert_eq!(s.pos, (2, 3));
    s.tick(lerp);
    assert_eq!(s.flight, Some(FlightState::Arrived));
    assert_eq!(s.pos, (3, 4));
    assert_eq!(s.course, None);
    s.tick(lerp);
    assert_eq!(s.flight, Some(FlightState::Stopped));
    assert_eq!(s.pos, (3, 4));
    s.tick(lerp);
    let report = s.tick(lerp);
    assert!(report);
    assert_eq!(s.tick_count, 0);
}

#[test]
fn ship_setters() {
    let mut s = Ship::new("A".to_string());
    s.set_id(7);
    s.set_system(3);
    s.set_notification("hi".to_string());
    assert_eq!((s.id, s.system, s.notify_txt.as_str()), (7, 3, "hi"));
    let c = s.clone();
    assert_eq!(c.name, "A");
    assert_eq!(c.id, 7);
}

#[test]
fn system_ticks_and_reports_every_eleventh() {
    let mut sys = System::new(5, 6);
    assert_eq!((sys.x, sys.y, sys.id), (5, 6, 0));
    let mut reports = 0;
    for _ in 0..22 {
        if sys.tick() {
            reports += 1;
        }
    }
    assert_eq!(reports, 2);
    assert_eq!(sys.tick_count, 0);
}

#[test]
fn system_finds_and_highlights_entities() {
    let mut sys = System::new(0, 0);
    sys.set_id(4);
    sys.add(10, 10, Entity::new(SystemObject::Station));
    sys.add(50, 50, Entity::new(SystemObject::AsteroidField));
    assert_eq!((sys.objects[1].x, sys.objects[1].y), (50, 50));
    assert_eq!(sys.get_entity_close_to(11, 10), Some(0));
    assert_eq!(sys.get_entity_close_to(12, 10), None);
    assert_eq!(sys.get_entity_close_to(49, 50), Some(1));

    let mut ship = Ship::new("S".to_string());
    ship.set_system(4);
    let mut p = NullPainter { pos: (100, 200), stack: vec![], lines: 0, ops: vec![] };
    sys.draw(&mut ship, &mut p);
    assert_eq!(p.lines, 22);
    assert_eq!(sys.objects[0].draw_pos, (110, 210));
    assert_eq!(sys.objects[1].draw_pos, (150, 250));

    sys.try_highlight_entity_close_to(120, 215);
    assert!(sys.objects[0].is_highlighted);
    assert!(!sys.objects[1].is_highlighted);
    sys.try_highlight_entity_close_to(300, 300);
    assert!(!sys.objects[0].is_highlighted && !sys.objects[1].is_highlighted);
    sys.try_highlight_entity_close_to(150, 250);
    sys.clear_entity_highlights();
    assert!(!sys.objects[1].is_highlighted);
}

#[test]
fn entity_defaults() {
    let mut e = Entity::new(SystemObject::Station);
    assert_eq!((e.id, e.x, e.y, e.draw_pos, e.is_highlighted), (0, 0, 0, (0, 0), false));
    e.set_id(9);
    assert_eq!(e.id, 9);
}

#[test]
fn events_reach_their_callbacks_last_first() {
    let wrap = |e: String, a: String| format!("[{}, {}]", e, a);
    let mut r: EventRouter<usize, String> = EventRouter::new();
    r.reg_cb("tick".to_string(), 1);
    r.reg_cb("tick".to_string(), 2);
    r.reg_cb("hit".to_string(), 3);
    assert_eq!(r.callbacks.len(), 2);
    r.emit("tick".to_string(), "a".to_string(), wrap);
    r.emit("nobody".to_string(), "b".to_string(), wrap);
    r.emit("hit".to_string(), "c".to_string(), wrap);
    assert_eq!(r.event_queue[1], ("*".to_string(), "[nobody, b]".to_string()));
    let mut out = vec![(0, "old".to_string())];
    r.get_events(&mut out);
    assert!(r.event_queue.is_empty());
    let expected: Vec<(usize, String)> =
        vec![(0, "old".into()), (3, "c".into()), (1, "a".into()), (2, "a".into())];
    assert_eq!(out, expected);
}

#[test]
fn unrouted_events_go_to_the_catch_all() {
    let wrap = |e: String, a: String| format!("[{}, {}]", e, a);
    let mut r: EventRouter<usize, String> = EventRouter::new();
    r.reg_cb("*".to_string(), 9);
    r.emit("ship_tick".to_string(), "4".to_string(), wrap);
    let mut out = vec![];
    r.get_events(&mut out);
    assert_eq!(out, vec![(9, "[ship_tick, 4]".to_string())]);
}

#[test]
fn tick_counter_reports_after_its_limit() {
    assert_eq!(count_tick(0, 5), (1, false));
    assert_eq!(count_tick(4, 5), (5, false));
    assert_eq!(count_tick(5, 5), (0, true));
    assert_eq!(count_tick(-3, -10), (0, true));
}

#[test]
fn text_is_placed_by_alignment() {
    assert_eq!(text_placement(100, 40, 0), (30, 40));
    assert_eq!(text_placement(100, 40, 2), (30, 40));
    assert_eq!(text_placement(100, 40, -1), (60, 40));
    assert_eq!(text_placement(100, 40, 1), (0, 40));
    assert_eq!(text_placement(30, 40, 0), (0, 30));
    assert_eq!(text_placement(30, 40, -1), (0, 30));
    assert_eq!(text_placement(41, 40, 0), (0, 40));
}

#[test]
fn ship_and_system_drawing_paint_in_order() {
    let mut p = NullPainter { pos: (0, 0), stack: vec![], lines: 0, ops: vec![] };
    let mut ship = Ship::new("s".to_string());
    ship.set_course_to(30, 40);
    ship.set_notification("hi".to_string());
    ship.draw(&mut p);
    assert_eq!(p.ops, vec!["line 0 0 30 40", "dot 0 0 3", "text -100 10 hi"]);
    let mut sys = System::new(0, 0);
    let mut e = Entity::new(SystemObject::Station);
    e.set_id(1);
    sys.add(2, 3, e);
    let mut q = NullPainter { pos: (5, 5), stack: vec![], lines: 0, ops: vec![] };
    ship.system = 9;
    sys.draw(&mut ship, &mut q);
    assert_eq!(q.ops.len(), 1 + 22 + 3);
    assert_eq!(q.ops[0], "fill 0 0 480 480");
    assert_eq!(q.ops[1], "line 0 0 479 0");
    assert_eq!(q.ops[12], "line 0 0 0 479");
    assert_eq!(&q.ops[23..], &["offs 2 3", "dot 0 0 4", "pop"]);
    assert_eq!(sys.objects[0].draw_pos, (7, 8));
}
