use rcore_os::stacktrace::{next_frame_slots, MAX_FRAMES, STACK_FLOOR};

#[test]
fn frame_slots_below_frame_pointer() {
    assert_eq!(next_frame_slots(0x80200000, 0), Some((0x801ffff8, 0x801ffff0)));
}

#[test]
fn walk_stops_on_implausible_pointer() {
    assert_eq!(next_frame_slots(0, 0), None);
    assert_eq!(next_frame_slots(0x80200004, 0), None);
    assert_eq!(next_frame_slots(STACK_FLOOR - 8, 0), None);
    assert_eq!(next_frame_slots(STACK_FLOOR, 0), Some((STACK_FLOOR - 8, STACK_FLOOR - 16)));
}

#[test]
fn walk_stops_after_twenty_frames() {
    assert_eq!(MAX_FRAMES, 20);
    assert!(next_frame_slots(0x80200000, 19).is_some());
    assert_eq!(next_frame_slots(0x80200000, 20), None);
}
