use toonmux::bindings::{Action, Bindings, MainBindings, MainSlot, Slot};
use toonmux::keys::{KEY_A, KEY_E, KEY_F, KEY_F1, KEY_G, KEY_HOME, KEY_Q, KEY_R, KEY_RETURN, KEY_SUPER_L, KEY_W};

#[test]
fn default_main_bindings() {
    let m = MainBindings::default();
    assert_eq!(m.forward(), 0x77);
    assert_eq!(m.back(), 0x73);
    assert_eq!(m.left(), 0x61);
    assert_eq!(m.right(), 0x64);
    assert_eq!(m.jump(), 0x20);
    assert_eq!(m.dismount(), 0xff1b);
    assert_eq!(m.throw(), KEY_SUPER_L);
    assert_eq!(m.talk(), KEY_RETURN);
    assert_eq!(m.toggle_mirroring(), 0xffe1);
    assert_eq!(m.camera_toggle(), 0xff09);
    assert_eq!(m.tasks(), KEY_E);
}

#[test]
fn low_throw_uses_the_throw_key() {
    let mut m = MainBindings::default();
    assert_eq!(m.low_throw(), m.throw());
    m.set(MainSlot::Throw, 0x74);
    assert_eq!(m.low_throw(), 0x74);
}

#[test]
fn default_controller_bindings() {
    let b = Bindings::default();
    assert_eq!(b.get(Slot::Forward), KEY_W);
    assert_eq!(b.get(Slot::Throw), KEY_F);
    assert_eq!(b.get(Slot::LowThrow), KEY_R);
    assert_eq!(b.get(Slot::Keepalive), KEY_Q);
    assert_eq!(b.get(Slot::Debug), KEY_G);
    assert_eq!(b.get(Slot::Tasks), KEY_E);
}

#[test]
fn swap_returns_previous_key() {
    let mut b = Bindings::default();
    assert_eq!(b.swap(Slot::Left, 0x6a), KEY_A);
    assert_eq!(b.get(Slot::Left), 0x6a);
    assert_eq!(b.get(Slot::Forward), KEY_W);
    assert_eq!(b.swap(Slot::Left, 0), 0x6a);
    assert_eq!(b.left, 0);
}

#[test]
fn slot_targets_and_actions() {
    let m = MainBindings::default();
    assert_eq!(m.target(Slot::Keepalive), KEY_HOME);
    assert_eq!(m.target(Slot::Debug), KEY_F1);
    assert_eq!(m.target(Slot::LowThrow), KEY_SUPER_L);
    assert_eq!(m.action(Slot::Forward), Action::Simple(KEY_W));
    assert_eq!(m.action(Slot::LowThrow), Action::LowThrow(KEY_SUPER_L));
    assert_eq!(m.action(Slot::Talk), Action::Talk(KEY_RETURN));
    assert_eq!(m.action(Slot::Keepalive), Action::Keepalive(KEY_HOME));
    assert_eq!(m.action(Slot::Debug), Action::Debug(KEY_F1));
    assert_eq!(m.action(Slot::Tasks), Action::Simple(KEY_E));
}

#[test]
fn action_key_and_set_key() {
    let mut a = Action::LowThrow(5);
    assert_eq!(*a.key(), 5);
    a.set_key(9);
    assert_eq!(a, Action::LowThrow(9));
    let mut d = Action::Debug(KEY_F1);
    d.set_key(KEY_HOME);
    assert_eq!(d, Action::Debug(KEY_HOME));
    assert_eq!(*Action::Keepalive(KEY_HOME).key(), KEY_HOME);
}
