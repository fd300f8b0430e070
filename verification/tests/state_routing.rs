use toonmux::bindings::{Action, Bindings, MainBindings, MainSlot, Slot};
use toonmux::keys::{Key, KEY_D, KEY_DOWN, KEY_F1, KEY_HOME, KEY_RETURN, KEY_S, KEY_SHIFT_L, KEY_SUPER_L, KEY_UP, KEY_W};
use toonmux::routes::{routes_get, Route};
use toonmux::state::{Controller, ControllerConfig, State, NO_MIRROR};

fn routes(s: &State, k: Key) -> Option<Vec<Route>> {
    routes_get(&s.routes, k).map(|v| v.clone())
}

#[test]
fn default_state_controllers() {
    let s = State::new();
    assert!(!s.hidden);
    assert!(s.mirroring);
    assert!(s.talking.is_empty());
    assert!(s.raw_device.is_none());
    assert_eq!(s.controllers.len(), 4);
    assert_eq!(s.controllers[0].mirror, NO_MIRROR);
    assert_eq!(s.controllers[0].mirrored.to_vec(), vec![2, 3]);
    assert_eq!(s.controllers[1].mirror, NO_MIRROR);
    assert!(!s.controllers[1].has_mirror());
    assert_eq!(s.controllers[2].mirror, 0);
    assert!(s.controllers[3].has_mirror());
    assert_eq!(s.controllers[2].bindings.forward, KEY_UP);
    assert_eq!(s.controllers[3].bindings.back, KEY_DOWN);
    assert_eq!(s.controllers[1].bindings, Bindings::default());
}

#[test]
fn default_state_routes() {
    let s = State::new();
    let w = KEY_W;
    assert_eq!(routes(&s, w), Some(vec![(0, Action::Simple(w)), (1, Action::Simple(w))]));
    assert_eq!(routes(&s, KEY_UP), Some(vec![(2, Action::Simple(w)), (3, Action::Simple(w))]));
    assert_eq!(
        routes(&s, KEY_RETURN),
        Some(vec![
            (0, Action::Talk(KEY_RETURN)),
            (1, Action::Talk(KEY_RETURN)),
            (2, Action::Talk(KEY_RETURN)),
            (3, Action::Talk(KEY_RETURN)),
        ])
    );
    assert_eq!(routes(&s, 0x71).unwrap()[0], (0, Action::Keepalive(KEY_HOME)));
    assert_eq!(routes(&s, 0x67).unwrap()[3], (3, Action::Debug(KEY_F1)));
    assert_eq!(routes(&s, 0x66).unwrap()[1], (1, Action::Simple(KEY_SUPER_L)));
    assert_eq!(routes(&s, 0x72).unwrap()[2], (2, Action::LowThrow(KEY_SUPER_L)));
    assert_eq!(routes(&s, KEY_SHIFT_L), None);
    assert_eq!(routes(&s, 0), None);
}

#[test]
fn from_config_fills_mirrored_sets() {
    let b = Bindings::default();
    let configs = vec![
        ControllerConfig { mirror: NO_MIRROR, bindings: b },
        ControllerConfig { mirror: 0, bindings: b },
        ControllerConfig { mirror: 0, bindings: b },
        ControllerConfig { mirror: 5, bindings: b },
        ControllerConfig { mirror: 4, bindings: b },
    ];
    let s = State::from_config(MainBindings::default(), configs);
    assert_eq!(s.controllers.len(), 5);
    assert_eq!(s.controllers[0].mirrored.to_vec(), vec![1, 2]);
    assert_eq!(s.controllers[3].mirror, 5);
    assert!(s.controllers[4].mirrored.is_empty());
    assert_eq!(s.controllers[2].window, 0);
    assert_eq!(routes(&s, KEY_W).unwrap().len(), 5);
}

#[test]
fn from_config_with_unbound_keys() {
    let mut b = Bindings::default();
    b.forward = 0;
    b.debug = 0;
    let configs = vec![ControllerConfig { mirror: NO_MIRROR, bindings: b }];
    let s = State::from_config(MainBindings::default(), configs);
    assert_eq!(routes(&s, KEY_W), None);
    assert_eq!(routes(&s, 0), None);
    assert_eq!(routes(&s, 0x67), None);
    assert_eq!(routes(&s, KEY_S), Some(vec![(0, Action::Simple(KEY_S))]));
}

#[test]
fn is_bound_main_ignores_mirroring_toggle() {
    let s = State::new();
    assert!(s.is_bound_main(&KEY_W));
    assert!(s.is_bound_main(&KEY_RETURN));
    assert!(!s.is_bound_main(&KEY_SHIFT_L));
    assert!(!s.is_bound_main(&0x7a));
}

#[test]
fn reroute_main_relabels_actions() {
    let mut s = State::new();
    s.reroute_main(&KEY_W, &0x7a);
    assert_eq!(routes(&s, KEY_W), Some(vec![(0, Action::Simple(0x7a)), (1, Action::Simple(0x7a))]));
    assert_eq!(routes(&s, KEY_UP), Some(vec![(2, Action::Simple(0x7a)), (3, Action::Simple(0x7a))]));
    assert_eq!(routes(&s, KEY_S).unwrap()[0], (0, Action::Simple(KEY_S)));
}

#[test]
fn reroute_main_to_zero_removes_actions() {
    let mut s = State::new();
    s.reroute_main(&KEY_S, &0);
    assert_eq!(routes(&s, KEY_S), Some(vec![]));
    assert_eq!(routes(&s, KEY_DOWN), Some(vec![]));
    assert_eq!(routes(&s, KEY_W).unwrap().len(), 2);
}

#[test]
fn reroute_moves_one_route() {
    let mut s = State::new();
    s.reroute(1, &KEY_W, &0x69, &KEY_W, Some(Action::Simple(KEY_W)));
    assert_eq!(routes(&s, KEY_W), Some(vec![(0, Action::Simple(KEY_W))]));
    assert_eq!(routes(&s, 0x69), Some(vec![(1, Action::Simple(KEY_W))]));
}

#[test]
fn reroute_swap_removes_first_match() {
    let mut s = State::new();
    s.reroute(0, &KEY_RETURN, &0, &KEY_RETURN, None);
    assert_eq!(
        routes(&s, KEY_RETURN),
        Some(vec![
            (3, Action::Talk(KEY_RETURN)),
            (1, Action::Talk(KEY_RETURN)),
            (2, Action::Talk(KEY_RETURN)),
        ])
    );
    assert_eq!(routes(&s, 0), None);
}

#[test]
fn reroute_without_match_only_adds() {
    let mut s = State::new();
    s.reroute(2, &KEY_W, &0x6b, &KEY_W, Some(Action::Simple(KEY_W)));
    assert_eq!(routes(&s, KEY_W).unwrap().len(), 2);
    assert_eq!(routes(&s, 0x6b), Some(vec![(2, Action::Simple(KEY_W))]));
    s.reroute(2, &0, &0x6b, &KEY_W, Some(Action::LowThrow(7)));
    assert_eq!(routes(&s, 0x6b), Some(vec![(2, Action::Simple(KEY_W)), (2, Action::LowThrow(7))]));
}

#[test]
fn remove_controller_detaches_it() {
    let mut s = State::new();
    let reset = s.remove_controller();
    assert_eq!(reset, Vec::<usize>::new());
    assert_eq!(s.controllers.len(), 3);
    assert_eq!(s.controllers[0].mirrored.to_vec(), vec![2]);
    assert_eq!(routes(&s, KEY_UP), Some(vec![(2, Action::Simple(KEY_W))]));
    assert_eq!(
        routes(&s, KEY_RETURN),
        Some(vec![
            (0, Action::Talk(KEY_RETURN)),
            (1, Action::Talk(KEY_RETURN)),
            (2, Action::Talk(KEY_RETURN)),
        ])
    );
}

#[test]
fn remove_controller_resets_its_mirrors() {
    let mut s = State::new();
    s.select_mirror(1, 3);
    assert_eq!(s.controllers[1].mirror, 2);
    assert_eq!(s.controllers[2].mirrored.to_vec(), vec![1]);
    s.remove_controller();
    let reset = s.remove_controller();
    assert_eq!(reset, vec![1]);
    assert_eq!(s.controllers.len(), 2);
    assert_eq!(s.controllers[1].mirror, NO_MIRROR);
    assert!(s.controllers[0].mirrored.is_empty());
    assert_eq!(routes(&s, KEY_UP), Some(vec![]));
}

#[test]
fn remove_controller_on_empty_state() {
    let mut s = State::from_config(MainBindings::default(), vec![]);
    let reset = s.remove_controller();
    assert!(reset.is_empty());
    assert_eq!(s.controllers.len(), 0);
}

#[test]
fn select_mirror_moves_between_sets() {
    let mut s = State::new();
    s.select_mirror(2, 2);
    assert_eq!(s.controllers[2].mirror, 1);
    assert_eq!(s.controllers[0].mirrored.to_vec(), vec![3]);
    assert_eq!(s.controllers[1].mirrored.to_vec(), vec![2]);
    s.select_mirror(2, 0);
    assert_eq!(s.controllers[2].mirror, NO_MIRROR);
    assert!(s.controllers[1].mirrored.is_empty());
}

#[test]
fn add_controller_copies_last_bindings() {
    let mut s = State::new();
    s.add_controller();
    assert_eq!(s.controllers.len(), 5);
    assert_eq!(s.controllers[4].bindings.forward, KEY_UP);
    assert_eq!(s.controllers[4].mirror, NO_MIRROR);
    assert!(s.controllers[4].mirrored.is_empty());
    assert_eq!(routes(&s, KEY_UP).unwrap().len(), 2);
    let mut e = State::from_config(MainBindings::default(), vec![]);
    e.add_controller();
    assert_eq!(e.controllers[0], Controller::default());
}

#[test]
fn controller_from_template() {
    let mut t = Controller::default();
    t.window = 99;
    t.mirror = 1;
    t.bindings.jump = 0x6c;
    let c = Controller::from_template(&t);
    assert_eq!(c.window, 0);
    assert_eq!(c.mirror, NO_MIRROR);
    assert_eq!(c.bindings.jump, 0x6c);
}

#[test]
fn bind_main_key_rules() {
    let mut s = State::new();
    assert!(!s.bind_main_key(MainSlot::Forward, KEY_W));
    assert!(!s.bind_main_key(MainSlot::Forward, KEY_S));
    assert!(s.bind_main_key(MainSlot::Forward, 0x7a));
    assert_eq!(s.main_bindings.forward, 0x7a);
    assert_eq!(routes(&s, KEY_W).unwrap()[0], (0, Action::Simple(0x7a)));
    assert!(s.bind_main_key(MainSlot::ToggleMirroring, 0x78));
    assert_eq!(s.main_bindings.toggle_mirroring, 0x78);
}

#[test]
fn clear_main_key_drops_routes() {
    let mut s = State::new();
    s.clear_main_key(MainSlot::Right);
    assert_eq!(s.main_bindings.right, 0);
    assert_eq!(routes(&s, KEY_D), Some(vec![]));
    s.clear_main_key(MainSlot::ToggleMirroring);
    assert_eq!(s.main_bindings.toggle_mirroring, 0);
}

#[test]
fn bind_controller_key_reroutes() {
    let mut s = State::new();
    assert!(!s.bind_controller_key(1, Slot::Forward, KEY_W));
    assert!(s.bind_controller_key(1, Slot::Forward, 0x69));
    assert_eq!(s.controllers[1].bindings.forward, 0x69);
    assert_eq!(routes(&s, KEY_W), Some(vec![(0, Action::Simple(KEY_W))]));
    assert_eq!(routes(&s, 0x69), Some(vec![(1, Action::Simple(KEY_W))]));
    assert!(s.bind_controller_key(0, Slot::Debug, 0x6f));
    assert_eq!(routes(&s, 0x6f), Some(vec![(0, Action::Debug(KEY_F1))]));
}

#[test]
fn clear_controller_key_unroutes() {
    let mut s = State::new();
    s.clear_controller_key(3, Slot::Forward);
    assert_eq!(s.controllers[3].bindings.forward, 0);
    assert_eq!(routes(&s, KEY_UP), Some(vec![(2, Action::Simple(KEY_W))]));
    assert_eq!(routes(&s, 0), None);
}

#[test]
fn windows_set_and_assigned() {
    let mut s = State::new();
    assert_eq!(s.active_windows(), Vec::<u64>::new());
    assert_eq!(s.set_window(1, 42), 0);
    assert_eq!(s.active_windows(), vec![42]);
    assert_eq!(s.active_targets(), vec![(1, 42)]);
    let prev = s.assign_windows(&vec![7, 8, 9, 10, 11]);
    assert_eq!(prev, vec![0, 42, 0, 0]);
    assert_eq!(s.active_windows(), vec![7, 8, 9, 10]);
    assert_eq!(s.active_targets(), vec![(0, 7), (1, 8), (2, 9), (3, 10)]);
    let prev = s.assign_windows(&vec![5]);
    assert_eq!(prev, vec![7]);
    assert_eq!(s.controllers[0].window, 5);
    assert_eq!(s.controllers[1].window, 8);
}
