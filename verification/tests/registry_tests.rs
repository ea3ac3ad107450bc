use sscg::registry::ObjectRegistry;

#[test]
fn objects_get_their_ids_in_order() {
    let mut r: ObjectRegistry<&str> = ObjectRegistry::new();
    assert_eq!(r.next_id(), 0);
    assert_eq!(r.add("ship"), 0);
    assert_eq!(r.add("system"), 1);
    assert_eq!(r.next_id(), 2);
    assert_eq!(r.get(0), Some(&"ship"));
    assert_eq!(r.get(1), Some(&"system"));
    assert_eq!(r.get(2), None);
}

#[test]
fn reset_leaves_empty_slots_that_objects_are_put_into() {
    let mut r: ObjectRegistry<u32> = ObjectRegistry::new();
    r.add(7);
    r.reset(3);
    assert_eq!(r.next_id(), 3);
    assert_eq!(r.get(0), None);
    r.set_object_at(2, 42);
    assert_eq!(r.get(2), Some(&42));
    assert_eq!(r.get(1), None);
    assert_eq!(r.add(5), 3);
}

#[test]
fn find_first_skips_empty_slots_and_non_matches() {
    let mut r: ObjectRegistry<u32> = ObjectRegistry::new();
    r.reset(2);
    r.add(3);
    r.add(10);
    r.add(12);
    assert_eq!(r.find_first(|o: &u32| *o >= 10), Some(3));
    assert_eq!(r.find_first(|o: &u32| *o > 100), None);
}

#[test]
fn tick_event_is_due_every_sixth_tick() {
    let mut r: ObjectRegistry<u32> = ObjectRegistry::new();
    let mut due = vec![];
    for _ in 0..12 {
        due.push(r.tick_counter());
    }
    assert_eq!(due, vec![false, false, false, false, false, true, false, false, false, false, false, true]);
    assert_eq!(r.tick_count, 0);
}
