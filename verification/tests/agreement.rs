use toonmux::bindings::{Action, Slot};
use toonmux::bitset::AtomicBitSet;
use toonmux::keys::{Key, KEY_RETURN, KEY_UP, KEY_W};
use toonmux::routes::{routes_get, routes_keys, Route};
use toonmux::state::{ControllerConfig, State};

fn routes_or_empty(s: &State, k: Key) -> Vec<Route> {
    match routes_get(&s.routes, k) {
        Some(v) => v.clone(),
        None => Vec::new(),
    }
}

fn same_up_to_order(a: &[Route], b: &[Route]) -> bool {
    a.len() == b.len()
        && a.iter().all(|r| {
            a.iter().filter(|x| *x == r).count() == b.iter().filter(|x| *x == r).count()
        })
}

fn fresh_load(s: &State) -> State {
    let configs: Vec<ControllerConfig> = s
        .controllers
        .iter()
        .map(|c| ControllerConfig { mirror: c.mirror, bindings: c.bindings })
        .collect();
    State::from_config(s.main_bindings, configs)
}

fn agrees_with_fresh_load(s: &State) -> bool {
    let fresh = fresh_load(s);
    let mut keys = routes_keys(&s.routes);
    keys.extend(routes_keys(&fresh.routes));
    keys.iter()
        .filter(|k| **k != 0)
        .all(|k| same_up_to_order(&routes_or_empty(s, *k), &routes_or_empty(&fresh, *k)))
}

#[test]
fn new_state_agrees_with_fresh_load() {
    let s = State::new();
    assert!(agrees_with_fresh_load(&s));
}

#[test]
fn rebinds_and_clears_keep_agreement() {
    let mut s = State::new();
    assert!(s.bind_controller_key(1, Slot::Forward, 0x69));
    assert!(agrees_with_fresh_load(&s));
    assert!(s.bind_controller_key(2, Slot::Talk, 0x6a));
    assert!(agrees_with_fresh_load(&s));
    s.clear_controller_key(3, Slot::Forward);
    assert!(agrees_with_fresh_load(&s));
    assert!(s.bind_controller_key(0, Slot::Forward, KEY_UP));
    assert!(agrees_with_fresh_load(&s));
    assert_eq!(
        routes_or_empty(&s, KEY_UP),
        vec![(2, Action::Simple(KEY_W)), (0, Action::Simple(KEY_W))]
    );
    s.clear_controller_key(0, Slot::Talk);
    assert!(agrees_with_fresh_load(&s));
    assert_eq!(routes_or_empty(&s, KEY_RETURN).len(), 2);
}

#[test]
fn reroute_there_and_back_restores_every_list() {
    let mut s = State::new();
    let keys = routes_keys(&s.routes);
    let before: Vec<(Key, Vec<Route>)> = keys.iter().map(|k| (*k, routes_or_empty(&s, *k))).collect();
    s.reroute(0, &KEY_RETURN, &0x69, &KEY_RETURN, Some(Action::Talk(KEY_RETURN)));
    assert_eq!(routes_or_empty(&s, 0x69), vec![(0, Action::Talk(KEY_RETURN))]);
    s.reroute(0, &0x69, &KEY_RETURN, &KEY_RETURN, Some(Action::Talk(KEY_RETURN)));
    for (k, v) in before.iter() {
        assert!(same_up_to_order(&routes_or_empty(&s, *k), v));
    }
    assert_eq!(routes_get(&s.routes, 0x69), Some(&Vec::new()));
    assert_eq!(routes_keys(&s.routes).len(), keys.len() + 1);
}

#[test]
fn iterator_run_lists_members_in_order_then_stops() {
    let mut s = AtomicBitSet::new();
    s.insert(0);
    s.insert(5);
    s.insert(63);
    let mut it = s.iter();
    s.remove(5);
    s.insert(7);
    assert_eq!(it.next(), Some(0));
    assert_eq!(it.next(), Some(5));
    assert_eq!(it.next(), Some(63));
    assert_eq!(it.next(), None);
    assert_eq!(it.next(), None);
    assert_eq!(it.next(), None);
}
