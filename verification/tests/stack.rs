use mincaml::id::IdGen;
use mincaml::x86::emit::StackState;
use mincaml::x86::ir::align;

#[test]
fn new_frame_is_empty() {
    let s = StackState::new();
    assert_eq!(s.stacksize(), 0);
    assert_eq!(s.offset("x"), None);
}

#[test]
fn save_gives_slots_in_order() {
    let mut s = StackState::new();
    s.save("x");
    s.save("y");
    assert_eq!(s.offset("x"), Some(0));
    assert_eq!(s.offset("y"), Some(8));
    assert_eq!(s.offset("z"), None);
    assert_eq!(s.stacksize(), 16);
}

#[test]
fn save_twice_keeps_slot() {
    let mut s = StackState::new();
    s.save("x");
    s.save("y");
    s.save("x");
    assert_eq!(s.offset("x"), Some(0));
    assert_eq!(s.offset("y"), Some(8));
    assert_eq!(s.stacksize(), 16);
}

#[test]
fn savef_shares_the_frame() {
    let mut s = StackState::new();
    let mut g = IdGen::new();
    s.save("x");
    s.savef("d", &mut g);
    s.savef("x", &mut g);
    assert_eq!(s.offset("d"), Some(8));
    assert!(s.is_saved("d"));
    assert!(!s.is_saved("e"));
    assert_eq!(s.offset("x"), Some(0));
    assert_eq!(s.stacksize(), 16);
    assert_eq!(g.counter, 0);
}

#[test]
fn align_rounds_to_eight() {
    assert_eq!(align(0), 0);
    assert_eq!(align(8), 8);
    assert_eq!(align(12), 16);
    assert_eq!(align(4), 8);
    assert_eq!(align(-4), 0);
}
