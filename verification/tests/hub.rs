use easyenglish::hub::{reload_pending, Hub, QueryWalk, WalkEvent, WalkRequest, WalkState};

fn keys(v: &[&str]) -> Vec<String> {
    v.iter().map(|s| s.to_string()).collect()
}

fn next(w: &QueryWalk) -> Option<(String, usize)> {
    match w.request() {
        WalkRequest::Get { key, provider } => Some((key, provider)),
        WalkRequest::Done => None,
    }
}

#[test]
fn walk_asks_every_provider_for_every_key_in_order() {
    let mut w = QueryWalk::new(keys(&["apple", "apply"]), 2);
    let replies = [Some("note"), None, Some("dict-1"), Some("dict-2")];
    let mut asked = Vec::new();
    for reply in replies {
        asked.push(next(&w).unwrap());
        w.apply(WalkEvent::Reply(reply.map(|s| s.to_string())));
    }
    assert_eq!(
        asked,
        vec![
            ("apple".to_string(), 0),
            ("apple".to_string(), 1),
            ("apply".to_string(), 0),
            ("apply".to_string(), 1)
        ]
    );
    assert_eq!(w.state(), WalkState::Finished);
    assert!(next(&w).is_none());
    let found: Vec<(String, String)> =
        w.records().iter().map(|r| (r.key.clone(), r.value.clone())).collect();
    assert_eq!(
        found,
        vec![
            ("apple".to_string(), "note".to_string()),
            ("apply".to_string(), "dict-1".to_string()),
            ("apply".to_string(), "dict-2".to_string())
        ]
    );
}

#[test]
fn cancellation_stops_and_reload_fails_the_walk() {
    let mut w = QueryWalk::new(keys(&["a", "b"]), 1);
    w.apply(WalkEvent::Reply(Some("x".to_string())));
    w.apply(WalkEvent::Cancelled);
    assert_eq!(w.state(), WalkState::Cancelled);
    assert!(next(&w).is_none());
    w.apply(WalkEvent::Reply(Some("late".to_string())));
    assert_eq!(w.records().len(), 1);

    let mut r = QueryWalk::new(keys(&["a"]), 3);
    r.apply(WalkEvent::Reload);
    assert_eq!(r.state(), WalkState::Failed);
    assert!(r.records().is_empty());
}

#[test]
fn nothing_to_ask_is_finished_at_once() {
    assert_eq!(QueryWalk::new(keys(&["a"]), 0).state(), WalkState::Finished);
    assert_eq!(QueryWalk::new(Vec::new(), 2).state(), WalkState::Finished);
}

#[test]
fn hub_keeps_providers_in_registration_order() {
    let mut hub: Hub<&str> = Hub::new();
    hub.add_provider("notes");
    hub.add_provider("dict");
    assert_eq!(hub.providers(), &vec!["notes", "dict"]);
    let walk = hub.walk(keys(&["apple"]));
    assert_eq!(next(&walk), Some(("apple".to_string(), 0)));
    hub.set_providers(vec!["web"]);
    assert_eq!(hub.providers(), &vec!["web"]);
    let empty: Hub<&str> = Hub::default();
    assert_eq!(empty.walk(keys(&["apple"])).state(), WalkState::Finished);
}

#[test]
fn set_providers_moves_the_hub_to_a_new_epoch() {
    let mut hub: Hub<&str> = Hub::new();
    assert_eq!(hub.epoch(), 0);
    hub.add_provider("notes");
    assert_eq!(hub.epoch(), 0);
    let started = hub.epoch();
    hub.set_providers(vec!["web", "dict"]);
    assert_eq!(hub.epoch(), 1);
    assert!(reload_pending(started, hub.epoch()));
    assert!(!reload_pending(hub.epoch(), hub.epoch()));
    hub.set_providers(vec!["web"]);
    assert_eq!(hub.epoch(), 2);
    assert!(reload_pending(1, hub.epoch()));
}

#[test]
fn reload_fails_the_walk_of_an_earlier_query() {
    let mut hub: Hub<&str> = Hub::new();
    hub.add_provider("notes");
    let started = hub.epoch();
    let mut walk = hub.walk(keys(&["apple"]));
    hub.set_providers(vec!["web"]);
    if reload_pending(started, hub.epoch()) {
        walk.apply(WalkEvent::Reload);
    }
    assert_eq!(walk.state(), WalkState::Failed);
    let fresh = hub.walk(keys(&["apple"]));
    assert_eq!(next(&fresh), Some(("apple".to_string(), 0)));
    assert!(!reload_pending(hub.epoch(), hub.epoch()));
}
