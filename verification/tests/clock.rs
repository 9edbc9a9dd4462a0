use noir_circuit_profiler::clock::{
    clock_reading, clock_readings, nth_reading, paired_reading, NANOS_PER_SECOND,
};
use noir_circuit_profiler::text::overlapping;

#[test]
fn a_clock_reading_is_less_than_a_second() {
    for _ in 0..1000 {
        assert!(clock_reading() < NANOS_PER_SECOND);
    }
}

#[test]
fn the_clock_moves_between_readings() {
    let readings = clock_readings(10_000);
    assert_eq!(readings.len(), 10_000);
    assert!(readings.iter().all(|reading| *reading < NANOS_PER_SECOND));
    assert!(clock_readings(0).is_empty());
    // sooner or later a reading differs from the first
    let first = clock_reading();
    let mut moved = false;
    for _ in 0..50_000_000 {
        if clock_reading() != first {
            moved = true;
            break;
        }
    }
    assert!(moved);
}

#[test]
fn readings_past_the_tape_are_zero() {
    let tape = vec![5, 6, 7];
    assert_eq!(nth_reading(&tape, 0), 5);
    assert_eq!(nth_reading(&tape, 2), 7);
    assert_eq!(nth_reading(&tape, 3), 0);
    assert_eq!(nth_reading(&tape, usize::MAX), 0);
    assert_eq!(nth_reading(&Vec::new(), 0), 0);
}

#[test]
fn paired_readings_stand_two_by_two() {
    let tape = vec![10, 11, 20, 21, 30];
    assert_eq!(paired_reading(&tape, 0, false), 10);
    assert_eq!(paired_reading(&tape, 0, true), 11);
    assert_eq!(paired_reading(&tape, 1, false), 20);
    assert_eq!(paired_reading(&tape, 1, true), 21);
    assert_eq!(paired_reading(&tape, 2, false), 30);
    assert_eq!(paired_reading(&tape, 2, true), 0);
    assert_eq!(paired_reading(&tape, 3, false), 0);
    assert_eq!(paired_reading(&tape, usize::MAX, true), 0);
    assert_eq!(paired_reading(&tape, usize::MAX / 2 + 1, false), 0);
    assert_eq!(paired_reading(&Vec::new(), 0, false), 0);
    assert_eq!(paired_reading(&Vec::new(), 0, true), 0);
    assert_eq!(paired_reading(&vec![7], 0, false), 7);
    assert_eq!(paired_reading(&vec![7], 0, true), 0);
}

#[test]
fn names_overlap_when_one_holds_the_other() {
    assert!(overlapping("sha256", "sha256"));
    assert!(overlapping("sha256", "my_sha256_gadget"));
    assert!(overlapping("my_sha256_gadget", "sha256"));
    assert!(overlapping("", "anything"));
    assert!(overlapping("anything", ""));
    assert!(overlapping("", ""));
    assert!(!overlapping("sha256", "sha512"));
    assert!(!overlapping("sha256", "SHA256"));
    assert!(!overlapping("ab", "ba"));
    assert!(overlapping("é", "café"));
    assert!(!overlapping("e", "café"));
}
