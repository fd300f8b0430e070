use toonmux::bitset::AtomicBitSet;
use toonmux::keys::{evdev_code_to_gdk, KEY_HOME, KEY_SHIFT_L};

#[test]
fn new_set_is_empty() {
    let s = AtomicBitSet::new();
    assert!(s.is_empty());
    assert_eq!(s.to_vec(), Vec::<usize>::new());
}

#[test]
fn insert_and_iterate_in_order() {
    let mut s = AtomicBitSet::new();
    s.insert(5);
    s.insert(0);
    s.insert(3);
    s.insert(5);
    assert!(!s.is_empty());
    assert_eq!(s.to_vec(), vec![0, 3, 5]);
    assert_eq!(s.bits, 0b101001);
}

#[test]
fn remove_drops_only_that_index() {
    let mut s = AtomicBitSet::new();
    s.insert(2);
    s.insert(7);
    s.remove(2);
    s.remove(4);
    assert_eq!(s.to_vec(), vec![7]);
    s.remove(7);
    assert!(s.is_empty());
}

#[test]
fn toggle_returns_previous_membership() {
    let mut s = AtomicBitSet::new();
    assert!(!s.toggle(1));
    assert_eq!(s.to_vec(), vec![1]);
    assert!(s.toggle(1));
    assert!(s.is_empty());
}

#[test]
fn toggle_twice_restores_the_set() {
    let mut s = AtomicBitSet::new();
    s.insert(4);
    s.insert(9);
    let before = s;
    s.toggle(9);
    s.toggle(9);
    assert_eq!(s, before);
    s.toggle(11);
    s.toggle(11);
    assert_eq!(s, before);
}

#[test]
fn highest_index_fits() {
    let top = usize::BITS as usize - 1;
    let mut s = AtomicBitSet::new();
    s.insert(top);
    assert_eq!(s.to_vec(), vec![top]);
    assert!(s.toggle(top));
    assert!(s.is_empty());
}

#[test]
fn evdev_letters_and_digits() {
    assert_eq!(evdev_code_to_gdk(30), Some(97)); // KEY_A -> a
    assert_eq!(evdev_code_to_gdk(17), Some(119)); // KEY_W -> w
    assert_eq!(evdev_code_to_gdk(2), Some(49)); // KEY_1 -> 1
    assert_eq!(evdev_code_to_gdk(11), Some(48)); // KEY_0 -> 0
    assert_eq!(evdev_code_to_gdk(1), Some(65307)); // KEY_ESC -> Escape
    assert_eq!(evdev_code_to_gdk(102), Some(KEY_HOME)); // KEY_HOME
    assert_eq!(evdev_code_to_gdk(111), Some(65535)); // KEY_DELETE
}

#[test]
fn evdev_both_shifts_send_left_shift() {
    assert_eq!(evdev_code_to_gdk(42), Some(KEY_SHIFT_L));
    assert_eq!(evdev_code_to_gdk(54), Some(KEY_SHIFT_L));
    assert_eq!(evdev_code_to_gdk(97), evdev_code_to_gdk(29)); // right ctrl = left ctrl
}

#[test]
fn evdev_unmapped_codes() {
    assert_eq!(evdev_code_to_gdk(0), None);
    assert_eq!(evdev_code_to_gdk(55), None); // KEY_KPASTERISK
    assert_eq!(evdev_code_to_gdk(120), None);
    assert_eq!(evdev_code_to_gdk(u16::MAX), None);
}

#[test]
fn iterator_walks_members() {
    let mut s = AtomicBitSet::new();
    s.insert(1);
    s.insert(6);
    let mut it = s.iter();
    assert_eq!(it.offset, 0);
    assert_eq!(it.next(), Some(1));
    assert_eq!(it.offset, 2);
    assert_eq!(it.next(), Some(6));
    assert_eq!(it.next(), None);
    assert_eq!(it.next(), None);
    assert_eq!(it.offset, usize::BITS as usize);
}

#[test]
fn iterator_of_empty_set_skips_scan() {
    let s = AtomicBitSet::new();
    let mut it = s.iter();
    assert_eq!(it.offset, usize::MAX);
    assert_eq!(it.next(), None);
    assert_eq!(it.offset, usize::MAX);
}
