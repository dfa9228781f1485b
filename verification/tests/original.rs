use ternary_pilgrim::{
    Pilgrim, PilgrimGuide, PilgrimLog, PilgrimPassport, Pilgrimage, Shrine, ShrineSignificance,
};

#[test]
fn test_pilgrim_add_waypoints() {
    let mut p = Pilgrim::new("agent-1", 100);
    p.add_waypoint("room-a");
    p.add_waypoint("room-b");
    p.add_waypoint("room-c");
    assert_eq!(p.waypoint_count(), 3);
    assert_eq!(p.route(), vec!["room-a", "room-b", "room-c"]);
}

#[test]
fn test_pilgrim_labeled_waypoint() {
    let mut p = Pilgrim::new("agent-1", 0);
    p.add_labeled_waypoint("room-a", "start");
    let wp = &p.waypoints()[0];
    assert_eq!(wp.label, Some("start".to_string()));
}

#[test]
fn test_pilgrim_passes_through() {
    let mut p = Pilgrim::new("a", 0);
    p.add_waypoint("x");
    p.add_waypoint("y");
    assert!(p.passes_through("x"));
    assert!(!p.passes_through("z"));
}

#[test]
fn test_pilgrim_round_trip() {
    let mut p = Pilgrim::new("a", 0);
    p.add_waypoint("start");
    p.add_waypoint("mid");
    p.add_waypoint("start");
    assert!(p.is_round_trip());
}

#[test]
fn test_pilgrim_not_round_trip() {
    let mut p = Pilgrim::new("a", 0);
    p.add_waypoint("a");
    p.add_waypoint("b");
    assert!(!p.is_round_trip());
}

#[test]
fn test_pilgrim_completions() {
    let mut p = Pilgrim::new("a", 50);
    p.complete();
    p.complete();
    assert_eq!(p.completions, 2);
}

#[test]
fn test_pilgrim_waypoint_for_room() {
    let mut p = Pilgrim::new("a", 0);
    p.add_waypoint("x");
    p.add_waypoint("y");
    let wp = p.waypoint_for_room("y").unwrap();
    assert_eq!(wp.order, 1);
}

#[test]
fn test_pilgrimage_satisfied() {
    let mut pil = Pilgrimage::new("sacred-route");
    pil.add_waypoint("room-a", true);
    pil.add_waypoint("room-b", false);
    pil.add_waypoint("room-c", true);
    let visited = vec!["room-a", "room-x", "room-c"];
    assert!(pil.is_satisfied_by(&visited));
}

#[test]
fn test_pilgrimage_not_satisfied() {
    let mut pil = Pilgrimage::new("route");
    pil.add_waypoint("room-a", true);
    pil.add_waypoint("room-b", true);
    let visited = vec!["room-a", "room-x"]; // missing room-b
    assert!(!pil.is_satisfied_by(&visited));
}

#[test]
fn test_pilgrimage_out_of_order() {
    let mut pil = Pilgrimage::new("route");
    pil.add_waypoint("a", true);
    pil.add_waypoint("b", true);
    let visited = vec!["b", "a"]; // wrong order
    assert!(!pil.is_satisfied_by(&visited));
}

#[test]
fn test_pilgrimage_counts() {
    let mut pil = Pilgrimage::new("r");
    pil.add_waypoint("a", true);
    pil.add_waypoint("b", false);
    pil.add_waypoint("c", true);
    assert_eq!(pil.waypoint_count(), 3);
    assert_eq!(pil.mandatory_count(), 2);
}

#[test]
fn test_shrine_creation() {
    let s = Shrine::new("core-room", "room-1", ShrineSignificance::Sacred);
    assert_eq!(s.name, "core-room");
    assert_eq!(s.significance, ShrineSignificance::Sacred);
}

#[test]
fn test_pilgrim_log_movements() {
    let mut log = PilgrimLog::new();
    log.log("agent-1", "room-a", "room-b", 10);
    log.log("agent-1", "room-b", "room-c", 20);
    log.log("agent-2", "room-a", "room-c", 15);
    assert_eq!(log.entry_count(), 3);
    let moves = log.movements_by("agent-1");
    assert_eq!(moves.len(), 2);
}

#[test]
fn test_pilgrim_log_most_visited() {
    let mut log = PilgrimLog::new();
    log.log("a1", "x", "room-a", 1);
    log.log("a1", "room-a", "room-a", 2); // visiting room-a again
    log.log("a2", "y", "room-b", 3);
    let top = log.most_visited(1);
    assert_eq!(top[0].0, "room-a");
}

#[test]
fn test_pilgrim_log_trips_between() {
    let mut log = PilgrimLog::new();
    log.log("a1", "x", "y", 1);
    log.log("a1", "x", "y", 2);
    log.log("a1", "y", "x", 3);
    assert_eq!(log.trips_between("x", "y"), 2);
    assert_eq!(log.trips_between("y", "x"), 1);
}

#[test]
fn test_guide_next_prev() {
    let mut guide = PilgrimGuide::new();
    guide.register_route("main-corridor", vec![
        "lobby".to_string(),
        "hall-a".to_string(),
        "hall-b".to_string(),
    ]);
    assert_eq!(guide.next_room("main-corridor", "lobby"), Some("hall-a"));
    assert_eq!(guide.next_room("main-corridor", "hall-b"), None);
    assert_eq!(guide.prev_room("main-corridor", "lobby"), None);
    assert_eq!(guide.prev_room("main-corridor", "hall-b"), Some("hall-a"));
}

#[test]
fn test_guide_steps_remaining() {
    let mut guide = PilgrimGuide::new();
    guide.register_route("r", vec!["a".to_string(), "b".to_string(), "c".to_string()]);
    assert_eq!(guide.steps_remaining("r", "a"), Some(2));
    assert_eq!(guide.steps_remaining("r", "c"), Some(0));
}

#[test]
fn test_guide_routes_through() {
    let mut guide = PilgrimGuide::new();
    guide.register_route("r1", vec!["a".to_string(), "b".to_string()]);
    guide.register_route("r2", vec!["b".to_string(), "c".to_string()]);
    let through_b = guide.routes_through("b");
    assert_eq!(through_b.len(), 2);
}

#[test]
fn test_guide_find_route() {
    let mut guide = PilgrimGuide::new();
    guide.register_route("r1", vec!["a".to_string(), "b".to_string(), "c".to_string()]);
    assert_eq!(guide.find_route("a", "c"), Some("r1"));
    assert_eq!(guide.find_route("c", "a"), None); // wrong direction
}

#[test]
fn test_passport_stamp_and_check() {
    let mut pp = PilgrimPassport::new("agent-1");
    pp.stamp("room-a");
    pp.stamp("room-b");
    assert!(pp.can_enter("room-a"));
    assert!(!pp.can_enter("room-c"));
    assert_eq!(pp.stamp_count(), 2);
}

#[test]
fn test_passport_deny() {
    let mut pp = PilgrimPassport::new("agent-1");
    pp.stamp("room-a");
    pp.deny("room-a");
    assert!(!pp.can_enter("room-a"));
}

#[test]
fn test_passport_stamp_overrides_deny() {
    let mut pp = PilgrimPassport::new("agent-1");
    pp.deny("room-a");
    pp.stamp("room-a");
    assert!(pp.can_enter("room-a"));
}

#[test]
fn test_passport_revoke() {
    let mut pp = PilgrimPassport::new("agent-1");
    pp.stamp("room-a");
    pp.revoke("room-a");
    assert!(!pp.can_enter("room-a"));
    assert_eq!(pp.stamp_count(), 0);
}

#[test]
fn test_empty_pilgrim_no_round_trip() {
    let p = Pilgrim::new("a", 0);
    assert!(!p.is_round_trip());
}
