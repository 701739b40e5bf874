//! Lines shown to the screen and waiting for it to say it drew them.

use sshboard::band::{AckCount, DeliveryOutcome};
use sshboard::pending::{PendingError, PendingLines, MAX_PENDING};

#[test]
fn releasing_a_held_line_gives_it_back_once() {
    let mut pending = PendingLines::new();
    pending.hold(7, "ping");
    assert_eq!(pending.len(), 1);
    assert_eq!(pending.release(7), Ok("ping"));
    assert!(pending.is_empty(), "an acknowledged line is still held");
    assert_eq!(pending.release(7), Err(PendingError::Unknown { seq: 7 }));
}

#[test]
fn releasing_a_line_nobody_holds_is_an_error_not_a_silent_no_op() {
    let mut pending: PendingLines<&str> = PendingLines::new();
    assert_eq!(pending.release(3), Err(PendingError::Unknown { seq: 3 }));
    assert_eq!(PendingError::Unknown { seq: 3 }.message(), "no line is waiting for seq 3");
    assert_eq!(PendingError::Poisoned.message(), "band buffer is poisoned");
}

#[test]
fn a_dropped_overflow_line_is_never_acked() {
    let mut pending = PendingLines::new();
    pending.hold(0, "oldest".to_string());
    for seq in 1..=(MAX_PENDING as u64) {
        pending.hold(seq, "filler".to_string());
    }
    assert_eq!(pending.len(), MAX_PENDING, "held beyond the limit");
    assert_eq!(pending.release(0), Err(PendingError::Unknown { seq: 0 }), "a dropped line was acknowledged");
    assert_eq!(pending.release(MAX_PENDING as u64), Ok("filler".to_string()));
}

#[test]
fn holding_the_same_number_again_replaces_the_line() {
    let mut pending = PendingLines::new();
    pending.hold(5, 'a');
    pending.hold(3, 'b');
    pending.hold(5, 'c');
    assert_eq!(pending.len(), 2);
    assert_eq!(pending.release(5), Ok('c'));
    assert_eq!(pending.release(3), Ok('b'));
}

#[test]
fn a_released_line_is_handed_back_once_for_its_ack() {
    let mut pending = PendingLines::new();
    pending.hold(3, AckCount::new(1));
    let mut gate = pending.release(3).expect("the held line was not handed back");
    assert!(gate.ack(0));
    assert_eq!(gate.outcome(), DeliveryOutcome::Delivered);
    assert!(matches!(pending.release(3), Err(PendingError::Unknown { seq: 3 })));
}
