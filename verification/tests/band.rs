//! The band: lines tagged by who made them, lined up, counted and acknowledged.

use sshboard::band::{AckCount, Actor, BandLine, DeliveryOutcome, SeqCounter};

#[test]
fn ai_lines_are_tagged_so_they_can_be_told_apart_from_human_lines() {
    let line = BandLine::new(0, Actor::Ai, "df -h");

    let rendered = line.render();

    assert!(rendered.starts_with("[AI]"), "actual: {rendered:?}");
    assert!(rendered.contains("df -h"), "actual: {rendered:?}");
}

#[test]
fn human_lines_are_tagged_too() {
    let rendered = BandLine::new(0, Actor::Human, "cd /var/www").render();

    assert!(rendered.starts_with("[Human]"), "actual: {rendered:?}");
}

#[test]
fn both_tags_are_padded_to_the_same_width_so_the_band_lines_up() {
    let ai = BandLine::new(0, Actor::Ai, "x").render();
    let human = BandLine::new(1, Actor::Human, "x").render();

    let ai_text_starts_at = ai.find('x').expect("no text");
    let human_text_starts_at = human.find('x').expect("no text");

    assert_eq!(ai_text_starts_at, human_text_starts_at, "ai={ai:?} human={human:?}");
}

#[test]
fn a_rendered_line_is_the_padded_tag_a_space_and_the_text() {
    assert_eq!(BandLine::new(3, Actor::Ai, "uptime").render(), "[AI]    uptime");
    assert_eq!(BandLine::new(4, Actor::Human, "ls").render(), "[Human] ls");
}

#[test]
fn a_line_keeps_what_it_was_made_with() {
    let line = BandLine::new(42, Actor::Human, "cat /etc/hostname");
    assert_eq!(line.seq(), 42);
    assert_eq!(line.actor(), Actor::Human);
    assert_eq!(line.text(), "cat /etc/hostname");
    assert_eq!(Actor::Ai.tag(), "[AI]");
    assert_eq!(Actor::Human.tag(), "[Human]");
}

#[test]
fn sequence_numbers_rise_by_one_per_line() {
    let mut counter = SeqCounter::new();
    assert_eq!(counter.take(), 0);
    assert_eq!(counter.take(), 1);
    assert_eq!(counter.take(), 2);
}

#[test]
fn a_line_with_no_subscriber_counts_as_delivered_at_once() {
    let gate = AckCount::new(0);
    assert!(gate.is_delivered());
    assert_eq!(gate.outcome(), DeliveryOutcome::Delivered);
}

#[test]
fn every_subscriber_must_ack_before_a_line_counts_as_delivered() {
    let mut gate = AckCount::new(2);
    assert!(!gate.is_delivered());
    assert!(!gate.ack(0));
    assert!(!gate.is_delivered());
    assert!(gate.ack(1));
    assert!(gate.is_delivered());
    assert_eq!(gate.outcome(), DeliveryOutcome::Delivered);
}

#[test]
fn a_stuck_subscriber_is_reported_with_the_count_that_did_ack() {
    let mut gate = AckCount::new(3);
    gate.ack(7);
    assert_eq!(gate.timed_out(), DeliveryOutcome::TimedOut { acked: 1, expected: 3 });
}

#[test]
fn a_subscriber_acking_twice_does_not_stand_in_for_another() {
    let mut gate = AckCount::new(2);
    assert!(!gate.ack(0));
    assert!(!gate.ack(0));
    assert!(!gate.is_delivered());
    assert_eq!(gate.timed_out(), DeliveryOutcome::TimedOut { acked: 1, expected: 2 });
    assert!(gate.ack(1));
    assert_eq!(gate.outcome(), DeliveryOutcome::Delivered);
}
