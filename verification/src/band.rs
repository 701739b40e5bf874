//! The band: the single record that both the person and the agent write to.
//!
//! Every operation, whoever made it, becomes a [`BandLine`] before it runs.
//! A line counts as delivered only when every screen that was watching has
//! acknowledged it ([`AckCount`]).

use vstd::prelude::*;
use crate::text::{owned, push_str};

verus! {

/// Who made an operation. There are exactly two.
#[derive(Debug, Clone, Copy, PartialEq, Eq, Structural)]
pub enum Actor {
    /// Through MCP: the agent outside the app.
    Ai,
    /// Through the GUI: the person at the screen.
    Human,
}

/// `[Human]` is the longer of the two tags; every line starts at this width.
pub const TAG_WIDTH: usize = 7;

/// The tag at the head of a line.
pub open spec fn tag_text(actor: Actor) -> Seq<char> {
    match actor {
        Actor::Ai => "[AI]"@,
        Actor::Human => "[Human]"@,
    }
}

/// The tag padded with spaces to [`TAG_WIDTH`] characters.
pub open spec fn padded_tag(actor: Actor) -> Seq<char> {
    let t = tag_text(actor);
    t + Seq::new((TAG_WIDTH - t.len()) as nat, |i: int| ' ')
}

/// A line as a person reads it: the padded tag, one space, then the text.
pub open spec fn rendered_line(actor: Actor, text: Seq<char>) -> Seq<char> {
    padded_tag(actor) + seq![' '] + text
}

/// Lines from either side line up: every rendered line begins with its
/// tag, and the text starts at the same column whoever made the line.
pub proof fn lemma_lines_line_up(a: Actor, b: Actor, text: Seq<char>)
    ensures
        rendered_line(a, text).len() == rendered_line(b, text).len(),
        rendered_line(a, text).skip(TAG_WIDTH + 1) == text,
        rendered_line(a, text).take(tag_text(a).len() as int) == tag_text(a),
{
    reveal_strlit("[AI]");
    reveal_strlit("[Human]");
    assert(tag_text(a).len() <= TAG_WIDTH);
    assert(tag_text(b).len() <= TAG_WIDTH);
    assert(padded_tag(a).len() == TAG_WIDTH);
    assert(padded_tag(b).len() == TAG_WIDTH);
    assert(rendered_line(a, text).skip(TAG_WIDTH + 1) =~= text);
    assert(rendered_line(a, text).take(tag_text(a).len() as int) =~= tag_text(a));
}

impl Actor {
    /// The tag at the head of a line.
    pub fn tag(self) -> (t: &'static str)
        ensures
            t@ == tag_text(self),
    {
        match self {
            Actor::Ai => "[AI]",
            Actor::Human => "[Human]",
        }
    }
}

/// One line of the band. Never changed once made.
#[derive(Debug, Clone, PartialEq, Eq)]
pub struct BandLine {
    seq: u64,
    actor: Actor,
    text: String,
}

impl View for BandLine {
    type V = (u64, Actor, Seq<char>);

    closed spec fn view(&self) -> (u64, Actor, Seq<char>) {
        (self.seq, self.actor, self.text@)
    }
}

impl BandLine {
    pub fn new(seq: u64, actor: Actor, text: &str) -> (line: Self)
        ensures
            line@ == (seq, actor, text@),
    {
        BandLine { seq, actor, text: owned(text) }
    }

    /// The running number within the band; gaps and reordering show up here.
    pub fn seq(&self) -> (n: u64)
        ensures
            n == self@.0,
    {
        self.seq
    }

    pub fn actor(&self) -> (a: Actor)
        ensures
            a == self@.1,
    {
        self.actor
    }

    pub fn text(&self) -> (t: &str)
        ensures
            t@ == self@.2,
    {
        self.text.as_str()
    }

    /// The line as a person reads it, tags lined up.
    pub fn render(&self) -> (r: String)
        ensures
            r@ == rendered_line(self@.1, self@.2),
    {
        let mut out = match self.actor {
            Actor::Ai => owned("[AI]    "),
            Actor::Human => owned("[Human] "),
        };
        proof {
            reveal_strlit("[AI]    ");
            reveal_strlit("[Human] ");
            reveal_strlit("[AI]");
            reveal_strlit("[Human]");
            assert(out@ == padded_tag(self.actor) + seq![' ']);
        }
        push_str(&mut out, self.text.as_str());
        out
    }
}

/// How a delivery ended. A timeout is reported, never swallowed.
#[derive(Debug, Clone, Copy, PartialEq, Eq, Structural)]
pub enum DeliveryOutcome {
    /// Every subscriber acknowledged the line.
    Delivered,
    /// Some subscriber did not acknowledge it in time.
    TimedOut { acked: usize, expected: usize },
}

/// The subscribers that have acknowledged, after `subscriber` acknowledges:
/// each is counted once, so acknowledging twice cannot stand in for someone
/// else's turn.
pub open spec fn with_ack(acked: Seq<u64>, subscriber: u64) -> Seq<u64> {
    if acked.contains(subscriber) { acked } else { acked.push(subscriber) }
}

/// How many of the `expected` subscribers have acknowledged, counting each once.
pub open spec fn acked_of(acked: Seq<u64>, expected: nat) -> nat {
    if acked.len() >= expected { expected } else { acked.len() }
}

/// The count behind one delivery: how many subscribers were watching when
/// the line was sent, and which of them have acknowledged it.
#[derive(Debug)]
pub struct AckCount {
    expected: usize,
    acked: Vec<u64>,
}

impl AckCount {
    /// Subscribers expected to acknowledge.
    pub closed spec fn expected_count(&self) -> nat {
        self.expected as nat
    }

    /// The subscribers that have acknowledged, each once, in the order they did.
    pub closed spec fn acked_by(&self) -> Seq<u64> {
        self.acked@
    }

    /// Subscribers that have not acknowledged yet.
    pub open spec fn remaining_count(&self) -> nat {
        (self.expected_count() - acked_of(self.acked_by(), self.expected_count())) as nat
    }

    pub closed spec fn wf(&self) -> bool {
        self.acked@.no_duplicates()
    }

    pub fn new(expected: usize) -> (gate: Self)
        ensures
            gate.wf(),
            gate.expected_count() == expected,
            gate.acked_by().len() == 0,
    {
        let gate = AckCount { expected, acked: Vec::new() };
        assert(gate.acked@ =~= Seq::<u64>::empty());
        gate
    }

    /// `subscriber` acknowledged. A second acknowledgement by the same
    /// subscriber changes nothing. Returns whether this was the last one
    /// outstanding (the moment to wake whoever waits).
    pub fn ack(&mut self, subscriber: u64) -> (woke: bool)
        requires
            old(self).wf(),
        ensures
            final(self).wf(),
            final(self).expected_count() == old(self).expected_count(),
            final(self).acked_by() == with_ack(old(self).acked_by(), subscriber),
            woke == (!old(self).acked_by().contains(subscriber) && old(self).acked_by().len() + 1
                == old(self).expected_count()),
    {
        let mut i: usize = 0;
        while i < self.acked.len()
            invariant
                i <= self.acked@.len(),
                self.acked@ == old(self).acked@,
                self.expected == old(self).expected,
                self.acked@.no_duplicates(),
                forall|j: int| 0 <= j < i ==> self.acked@[j] != subscriber,
            decreases self.acked@.len() - i,
        {
            if self.acked[i] == subscriber {
                assert(self.acked@.contains(subscriber));
                return false;
            }
            i = i + 1;
        }
        assert(!self.acked@.contains(subscriber));
        let before = self.acked.len();
        self.acked.push(subscriber);
        proof {
            assert forall|a: int, b: int| 0 <= a < b < self.acked@.len() implies self.acked@[a]
                != self.acked@[b] by {
                if b == before as int {
                    assert(old(self).acked@[a] != subscriber);
                }
            }
        }
        before < self.expected && before + 1 == self.expected
    }

    /// Every subscriber has acknowledged.
    pub fn is_delivered(&self) -> (d: bool)
        ensures
            d == (self.remaining_count() == 0),
    {
        self.acked.len() >= self.expected
    }

    /// The outcome to report when the wait ran out.
    pub fn timed_out(&self) -> (o: DeliveryOutcome)
        ensures
            o == (DeliveryOutcome::TimedOut {
                acked: acked_of(self.acked_by(), self.expected_count()) as usize,
                expected: self.expected_count() as usize,
            }),
    {
        let acked = if self.acked.len() >= self.expected { self.expected } else { self.acked.len() };
        DeliveryOutcome::TimedOut { acked, expected: self.expected }
    }

    /// The outcome now: delivered once nobody is outstanding.
    pub fn outcome(&self) -> (o: DeliveryOutcome)
        ensures
            self.remaining_count() == 0 ==> o == DeliveryOutcome::Delivered,
            self.remaining_count() != 0 ==> o == (DeliveryOutcome::TimedOut {
                acked: acked_of(self.acked_by(), self.expected_count()) as usize,
                expected: self.expected_count() as usize,
            }),
    {
        if self.acked.len() >= self.expected {
            DeliveryOutcome::Delivered
        } else {
            self.timed_out()
        }
    }
}

/// A line counts as delivered exactly when as many different subscribers as
/// were expected have acknowledged it; a subscriber acknowledging again
/// changes nothing.
pub proof fn lemma_delivered_iff_every_subscriber_acked(acked: Seq<u64>, expected: nat, subscriber: u64)
    ensures
        (acked_of(acked, expected) == expected) <==> acked.len() >= expected,
        with_ack(with_ack(acked, subscriber), subscriber) == with_ack(acked, subscriber),
        acked.contains(subscriber) ==> acked_of(with_ack(acked, subscriber), expected) == acked_of(acked, expected),
{
    if !acked.contains(subscriber) {
        assert(acked.push(subscriber)[acked.len() as int] == subscriber);
    }
}

/// The running numbers handed to lines, one per recorded line.
#[derive(Debug)]
pub struct SeqCounter {
    next: u64,
}

impl SeqCounter {
    pub closed spec fn next_seq(&self) -> u64 {
        self.next
    }

    pub fn new() -> (c: Self)
        ensures
            c.next_seq() == 0,
    {
        SeqCounter { next: 0 }
    }

    /// Hands out the next number; numbers rise by one per call.
    pub fn take(&mut self) -> (n: u64)
        ensures
            n == old(self).next_seq(),
            final(self).next_seq() == if n == u64::MAX { 0 } else { (n + 1) as u64 },
    {
        let n = self.next;
        self.next = n.wrapping_add(1);
        n
    }
}

/// The counter after one more number was handed out.
pub open spec fn counted_once(before: SeqCounter, after: SeqCounter) -> bool {
    after.next_seq() == if before.next_seq() == u64::MAX { 0 } else { (before.next_seq() + 1) as u64 }
}

/// Lines are numbered in the order they are recorded: from a new counter,
/// after `k` numbers were handed out (`counters[i + 1]` is `counters[i]`
/// after one `take`), the `i`-th line got number `i` and the next gets `k`.
pub proof fn lemma_lines_numbered_in_order(counters: Seq<SeqCounter>)
    requires
        counters.len() >= 1,
        counters.len() - 1 <= u64::MAX,
        counters[0].next_seq() == 0,
        forall|i: int| 0 <= i < counters.len() - 1 ==> #[trigger] counted_once(counters[i], counters[i + 1]),
    ensures
        forall|i: int| 0 <= i < counters.len() ==> #[trigger] counters[i].next_seq() == i,
    decreases counters.len(),
{
    if counters.len() > 1 {
        let shorter = counters.drop_last();
        assert forall|i: int| 0 <= i < shorter.len() - 1 implies #[trigger] counted_once(shorter[i], shorter[i + 1]) by {
            assert(counted_once(counters[i], counters[i + 1]));
        }
        lemma_lines_numbered_in_order(shorter);
        assert forall|i: int| 0 <= i < counters.len() implies #[trigger] counters[i].next_seq() == i by {
            if i < counters.len() - 1 {
                assert(shorter[i] == counters[i]);
            } else {
                assert(shorter[i - 1] == counters[i - 1]);
                assert(counted_once(counters[i - 1], counters[i - 1 + 1]));
            }
        }
    }
}

} // verus!
