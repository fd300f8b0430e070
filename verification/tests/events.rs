use toonmux::events::{raw_event_sends, KeySend, RawSend, SendKind};
use toonmux::keys::{KEY_HOME, KEY_RETURN, KEY_SHIFT_L, KEY_UP, KEY_W};
use toonmux::state::State;

fn ks(controller: usize, kind: SendKind, key: u32) -> KeySend {
    KeySend { controller, kind, key }
}

#[test]
fn press_and_release_move_key() {
    let mut s = State::new();
    let out = s.key_press(KEY_W);
    assert_eq!(out.mirroring_changed, None);
    assert_eq!(
        out.sends,
        vec![
            ks(0, SendKind::Down, KEY_W),
            ks(2, SendKind::Down, KEY_W),
            ks(3, SendKind::Down, KEY_W),
            ks(1, SendKind::Down, KEY_W),
        ]
    );
    assert_eq!(
        s.key_release(KEY_W),
        vec![
            ks(0, SendKind::Up, KEY_W),
            ks(2, SendKind::Up, KEY_W),
            ks(3, SendKind::Up, KEY_W),
            ks(1, SendKind::Up, KEY_W),
        ]
    );
}

#[test]
fn arrow_keys_drive_the_followers() {
    let mut s = State::new();
    let out = s.key_press(KEY_UP);
    assert_eq!(out.sends, vec![ks(2, SendKind::Down, KEY_W), ks(3, SendKind::Down, KEY_W)]);
}

#[test]
fn unrouted_key_sends_nothing() {
    let mut s = State::new();
    let out = s.key_press(0x7a);
    assert!(out.sends.is_empty());
    assert!(s.key_release(0x7a).is_empty());
    assert!(s.mirroring);
}

#[test]
fn toggle_key_flips_mirroring() {
    let mut s = State::new();
    let out = s.key_press(KEY_SHIFT_L);
    assert_eq!(out.mirroring_changed, Some(false));
    assert!(out.sends.is_empty());
    assert!(!s.mirroring);
    let out = s.key_press(KEY_W);
    assert_eq!(out.sends, vec![ks(0, SendKind::Down, KEY_W), ks(1, SendKind::Down, KEY_W)]);
    assert_eq!(s.key_release(KEY_W), vec![ks(0, SendKind::Up, KEY_W), ks(1, SendKind::Up, KEY_W)]);
    let out = s.key_press(KEY_SHIFT_L);
    assert_eq!(out.mirroring_changed, Some(true));
    assert!(s.mirroring);
}

#[test]
fn talk_enters_and_leaves_talking() {
    let mut s = State::new();
    let out = s.key_press(KEY_RETURN);
    assert_eq!(
        out.sends,
        vec![
            ks(0, SendKind::Tap, KEY_RETURN),
            ks(2, SendKind::Tap, KEY_RETURN),
            ks(3, SendKind::Tap, KEY_RETURN),
            ks(1, SendKind::Tap, KEY_RETURN),
        ]
    );
    assert_eq!(s.talking.to_vec(), vec![0, 1, 2, 3]);
    assert!(s.key_release(KEY_RETURN).len() == 4);

    let out = s.key_press(0x68);
    assert_eq!(
        out.sends,
        vec![
            ks(0, SendKind::Down, 0x68),
            ks(1, SendKind::Down, 0x68),
            ks(2, SendKind::Down, 0x68),
            ks(3, SendKind::Down, 0x68),
        ]
    );
    assert_eq!(s.key_release(0x68)[2], ks(2, SendKind::Up, 0x68));

    let out = s.key_press(KEY_SHIFT_L);
    assert_eq!(out.mirroring_changed, None);
    assert!(s.mirroring);

    let out = s.key_press(KEY_RETURN);
    assert_eq!(
        out.sends,
        vec![
            ks(0, SendKind::Down, KEY_RETURN),
            ks(1, SendKind::Down, KEY_RETURN),
            ks(2, SendKind::Down, KEY_RETURN),
            ks(3, SendKind::Down, KEY_RETURN),
            ks(0, SendKind::Up, KEY_RETURN),
            ks(2, SendKind::Up, KEY_RETURN),
            ks(3, SendKind::Up, KEY_RETURN),
            ks(1, SendKind::Up, KEY_RETURN),
        ]
    );
    assert!(s.talking.is_empty());
}

#[test]
fn talking_blocks_moves() {
    let mut s = State::new();
    s.talking.insert(1);
    let out = s.key_press(KEY_W);
    assert_eq!(out.sends, vec![ks(1, SendKind::Down, KEY_W)]);
}

#[test]
fn keepalive_debug_and_low_throw_presses() {
    let mut s = State::new();
    s.key_press(KEY_SHIFT_L);
    let out = s.key_press(0x71);
    assert_eq!(out.sends, vec![ks(0, SendKind::Down, KEY_HOME), ks(1, SendKind::Down, KEY_HOME), ks(2, SendKind::Down, KEY_HOME), ks(3, SendKind::Down, KEY_HOME)]);
    assert_eq!(s.key_release(0x71)[3], ks(3, SendKind::Up, KEY_HOME));
    let out = s.key_press(0x67);
    assert_eq!(out.sends[0], ks(0, SendKind::Shifted, 0xffbe));
    assert!(s.key_release(0x67).is_empty());
    let out = s.key_press(0x72);
    assert_eq!(out.sends[1], ks(1, SendKind::Tap, 0xffeb));
    assert!(s.key_release(0x72).is_empty());
}

#[test]
fn keepalive_taps_home_everywhere() {
    let s = State::new();
    assert_eq!(
        s.keepalive_sends(),
        vec![
            ks(0, SendKind::Tap, KEY_HOME),
            ks(1, SendKind::Tap, KEY_HOME),
            ks(2, SendKind::Tap, KEY_HOME),
            ks(3, SendKind::Tap, KEY_HOME),
        ]
    );
}

#[test]
fn raw_events_to_windows() {
    let ws = vec![(0usize, 10u64), (2usize, 20u64)];
    assert_eq!(
        raw_event_sends(&ws, true, 30, 1),
        vec![
            RawSend { controller: 0, window: 10, kind: SendKind::Down, key: 0x61 },
            RawSend { controller: 2, window: 20, kind: SendKind::Down, key: 0x61 },
        ]
    );
    assert_eq!(
        raw_event_sends(&ws, true, 30, 0)[1],
        RawSend { controller: 2, window: 20, kind: SendKind::Up, key: 0x61 }
    );
    assert!(raw_event_sends(&ws, true, 30, 2).is_empty());
    assert!(raw_event_sends(&ws, false, 30, 1).is_empty());
    assert!(raw_event_sends(&ws, true, 55, 1).is_empty());
    assert!(raw_event_sends(&vec![], true, 30, 1).is_empty());
}

fn many_controllers() -> State {
    let n = usize::BITS as usize + 1;
    let configs = (0..n)
        .map(|_| toonmux::state::ControllerConfig {
            mirror: toonmux::state::NO_MIRROR,
            bindings: toonmux::bindings::Bindings::default(),
        })
        .collect();
    State::from_config(toonmux::bindings::MainBindings::default(), configs)
}

#[test]
fn talk_routes_fit_the_talking_set() {
    let s = State::new();
    assert!(toonmux::events::talk_routes_fit_for(&s, KEY_RETURN));
    assert!(toonmux::events::talk_routes_fit_for(&s, 0x7a));
    let big = many_controllers();
    assert!(!toonmux::events::talk_routes_fit_for(&big, KEY_RETURN));
    assert!(toonmux::events::talk_routes_fit_for(&big, KEY_W));
}

#[test]
fn checked_press_refuses_oversized_talk_routes() {
    let mut s = State::new();
    let out = s.try_key_press(KEY_W).unwrap();
    assert_eq!(out.sends.len(), 4);
    let mut big = many_controllers();
    assert!(big.try_key_press(KEY_RETURN).is_none());
    assert!(big.talking.is_empty());
    let out = big.try_key_press(KEY_W).unwrap();
    assert_eq!(out.sends.len(), usize::BITS as usize + 1);
}
