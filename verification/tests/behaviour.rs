use ternary_pilgrim::{
    Pilgrim, PilgrimGuide, PilgrimLog, PilgrimPassport, Pilgrimage, Shrine, ShrineSignificance, Waypoint,
};

#[test]
fn waypoint_constructors_keep_their_fields() {
    let w = Waypoint::new("hall", 4);
    assert_eq!(w.room, "hall");
    assert_eq!(w.order, 4);
    assert_eq!(w.label, None);
    let l = Waypoint::labeled("hall", 2, "gate");
    assert_eq!(l.label, Some("gate".to_string()));
    assert_eq!(l.order, 2);
}

#[test]
fn pilgrim_orders_are_positions() {
    let mut p = Pilgrim::new("agent-7", 100);
    p.add_waypoint("engine-room");
    p.add_labeled_waypoint("bridge", "helm");
    p.add_waypoint("engine-room");
    let w = p.waypoints();
    assert_eq!(w.len(), 3);
    for (i, wp) in w.iter().enumerate() {
        assert_eq!(wp.order, i);
    }
    assert_eq!(w[1].label, Some("helm".to_string()));
    assert_eq!(p.agent, "agent-7");
    assert_eq!(p.repeat_interval, 100);
    assert_eq!(p.completions, 0);
    assert!(p.is_round_trip());
}

#[test]
fn pilgrim_waypoint_for_room_gives_first_visit() {
    let mut p = Pilgrim::new("a", 0);
    p.add_waypoint("x");
    p.add_waypoint("y");
    p.add_waypoint("x");
    assert_eq!(p.waypoint_for_room("x").unwrap().order, 0);
    assert!(p.waypoint_for_room("z").is_none());
}

#[test]
fn pilgrim_single_stop_is_not_round_trip() {
    let mut p = Pilgrim::new("a", 0);
    p.add_waypoint("x");
    assert!(!p.is_round_trip());
    p.add_waypoint("x");
    assert!(p.is_round_trip());
}

#[test]
fn pilgrim_names_compare_by_characters() {
    let mut p = Pilgrim::new("a", 0);
    p.add_waypoint("salle-é");
    assert!(p.passes_through("salle-é"));
    assert!(!p.passes_through("salle-e"));
    assert!(!p.passes_through("salle"));
    assert!(!p.passes_through(""));
}

#[test]
fn pilgrim_clone_is_equal() {
    let mut p = Pilgrim::new("a", 3);
    p.add_waypoint("x");
    let q = p.clone();
    assert_eq!(q.route(), vec!["x"]);
    assert_eq!(q.repeat_interval, 3);
}

#[test]
fn pilgrimage_route_and_mandatory_rooms() {
    let mut pil = Pilgrimage::new("r");
    pil.add_waypoint("a", true);
    pil.add_waypoint("b", false);
    pil.add_waypoint("a", true);
    assert_eq!(pil.route(), vec!["a", "b", "a"]);
    assert_eq!(pil.mandatory_count(), 1);
    assert_eq!(pil.name, "r");
    // both visits of "a" are mandatory
    assert!(!pil.is_satisfied_by(&["a", "b"]));
    assert!(pil.is_satisfied_by(&["a", "x", "a"]));
}

#[test]
fn pilgrimage_mandatory_set_is_by_room() {
    let mut pil = Pilgrimage::new("r");
    pil.add_waypoint("a", false);
    pil.add_waypoint("b", true);
    pil.add_waypoint("a", true);
    // "a" is mandatory, so its first waypoint counts as mandatory too
    assert!(!pil.is_satisfied_by(&["b", "a"]));
    assert!(pil.is_satisfied_by(&["a", "b", "a"]));
}

#[test]
fn pilgrimage_without_mandatory_rooms_is_always_satisfied() {
    let mut pil = Pilgrimage::new("r");
    pil.add_waypoint("a", false);
    let empty: Vec<&str> = Vec::new();
    assert!(pil.is_satisfied_by(&empty));
    assert_eq!(pil.mandatory_count(), 0);
}

#[test]
fn pilgrimage_route_satisfies_itself() {
    let mut pil = Pilgrimage::new("r");
    pil.add_waypoint("a", true);
    pil.add_waypoint("b", false);
    pil.add_waypoint("c", true);
    let route = pil.route();
    assert!(pil.is_satisfied_by(&route));
    assert!(pil.is_satisfied_by(&["q", "a", "q", "q", "c", "q"]));
    assert!(!pil.is_satisfied_by(&["a"]));
}

#[test]
fn shrine_fields() {
    let s = Shrine::new("n", "room-2", ShrineSignificance::Minor);
    assert_eq!(s.room, "room-2");
    assert_eq!(s.significance, ShrineSignificance::Minor);
    assert_ne!(s.significance, ShrineSignificance::Major);
}

#[test]
fn log_movements_by_keeps_order_and_fields() {
    let mut log = PilgrimLog::default();
    log.log("a1", "x", "y", 5);
    log.log("a2", "y", "z", 6);
    log.log("a1", "y", "w", 7);
    let moves = log.movements_by("a1");
    assert_eq!(moves, vec![
        ("x".to_string(), "y".to_string(), 5),
        ("y".to_string(), "w".to_string(), 7),
    ]);
    assert!(log.movements_by("nobody").is_empty());
    assert_eq!(log.trips_between("z", "y"), 0);
}

#[test]
fn log_most_visited_orders_by_arrivals() {
    let mut log = PilgrimLog::new();
    log.log("a", "s", "b", 1);
    log.log("a", "s", "c", 2);
    log.log("a", "s", "c", 3);
    log.log("a", "s", "d", 4);
    log.log("a", "s", "c", 5);
    log.log("a", "s", "d", 6);
    let top = log.most_visited(10);
    assert_eq!(top, vec![("c".to_string(), 3), ("d".to_string(), 2), ("b".to_string(), 1)]);
    let top2 = log.most_visited(2);
    assert_eq!(top2, vec![("c".to_string(), 3), ("d".to_string(), 2)]);
    assert!(log.most_visited(0).is_empty());
    assert!(PilgrimLog::new().most_visited(3).is_empty());
}

#[test]
fn guide_register_replaces_route() {
    let mut guide = PilgrimGuide::default();
    guide.register_route("r", vec!["a".to_string(), "b".to_string()]);
    guide.register_route("r", vec!["b".to_string(), "a".to_string()]);
    assert_eq!(guide.route_count(), 1);
    assert_eq!(guide.next_room("r", "b"), Some("a"));
    assert_eq!(guide.find_route("a", "b"), None);
    assert_eq!(guide.find_route("b", "a"), Some("r"));
}

#[test]
fn guide_unknown_route_or_room() {
    let mut guide = PilgrimGuide::new();
    guide.register_route("r", vec!["a".to_string(), "b".to_string()]);
    assert_eq!(guide.next_room("other", "a"), None);
    assert_eq!(guide.prev_room("r", "zz"), None);
    assert_eq!(guide.steps_remaining("r", "zz"), None);
    assert_eq!(guide.steps_remaining("other", "a"), None);
    assert!(guide.routes_through("zz").is_empty());
    assert_eq!(guide.find_route("a", "zz"), None);
}

#[test]
fn guide_positions_use_first_visit() {
    let mut guide = PilgrimGuide::new();
    guide.register_route("loop", vec!["a".to_string(), "b".to_string(), "a".to_string()]);
    assert_eq!(guide.next_room("loop", "a"), Some("b"));
    assert_eq!(guide.prev_room("loop", "a"), None);
    assert_eq!(guide.steps_remaining("loop", "a"), Some(2));
    // "b" at 1 comes before the second visit of "a" at 2
    assert_eq!(guide.find_route("b", "a"), Some("loop"));
    assert_eq!(guide.find_route("a", "b"), Some("loop"));
    assert_eq!(guide.find_route("a", "a"), Some("loop"));
    assert_eq!(guide.find_route("b", "b"), None);
}

#[test]
fn guide_routes_through_lists_each_name_once() {
    let mut guide = PilgrimGuide::new();
    guide.register_route("r1", vec!["a".to_string(), "b".to_string()]);
    guide.register_route("r2", vec!["c".to_string()]);
    guide.register_route("r3", vec!["b".to_string(), "b".to_string()]);
    let mut through = guide.routes_through("b");
    through.sort();
    assert_eq!(through, vec!["r1", "r3"]);
    assert_eq!(guide.route_count(), 3);
}

#[test]
fn passport_deny_overrides_stamp_and_revoke_clears() {
    let mut pp = PilgrimPassport::new("agent-1");
    pp.stamp("room-a");
    pp.stamp("room-a");
    assert_eq!(pp.stamp_count(), 1);
    pp.deny("room-a");
    assert_eq!(pp.stamp_count(), 0);
    pp.revoke("room-a");
    assert!(!pp.can_enter("room-a"));
    pp.stamp("room-a");
    assert!(pp.can_enter("room-a"));
    assert_eq!(pp.agent, "agent-1");
}

#[test]
fn passport_authorized_rooms_lists_stamps() {
    let mut pp = PilgrimPassport::new("agent-1");
    pp.stamp("x");
    pp.stamp("y");
    pp.stamp("x");
    pp.deny("z");
    let mut rooms = pp.authorized_rooms();
    rooms.sort();
    assert_eq!(rooms, vec!["x", "y"]);
    let copy = pp.clone();
    assert!(copy.can_enter("y"));
    assert!(!copy.can_enter("z"));
}

#[test]
fn passport_equality_ignores_order() {
    let mut a = PilgrimPassport::new("agent");
    a.stamp("x");
    a.stamp("y");
    let mut b = PilgrimPassport::new("agent");
    b.stamp("y");
    b.stamp("x");
    assert!(a == b);
    b.deny("q");
    assert!(a != b);
    let c = PilgrimPassport::new("other");
    assert!(PilgrimPassport::new("agent") != c);
}

#[test]
fn guide_find_route_uses_any_visits_in_order() {
    let mut g = PilgrimGuide::new();
    g.register_route("r", vec!["b".to_string(), "a".to_string(), "b".to_string()]);
    assert_eq!(g.find_route("a", "b"), Some("r"));
    assert_eq!(g.find_route("b", "a"), Some("r"));
    assert_eq!(g.find_route("a", "a"), None);
}

#[test]
fn getters_read_the_fields() {
    let mut p = Pilgrim::new("agent-3", 40);
    p.complete();
    assert_eq!(p.agent(), "agent-3");
    assert_eq!(p.repeat_interval(), 40);
    assert_eq!(p.completions(), 1);
    let pil = Pilgrimage::new("sacred");
    assert_eq!(pil.name(), "sacred");
    let pp = PilgrimPassport::new("agent-9");
    assert_eq!(pp.agent(), "agent-9");
}
