//! The lines shown to the screen that the screen has not yet said it drew.
//!
//! A line held here has not reached a person's eyes, so it is never
//! acknowledged on its own: only when the screen says it drew it.

use vstd::prelude::*;
use crate::text::{owned, push_decimal};

verus! {

/// How many lines wait for the screen at most; beyond it the oldest are let
/// go, so lines the screen never takes do not pile up.
pub const MAX_PENDING: usize = 512;

/// Why holding or releasing failed; never swallowed.
#[derive(Debug, PartialEq, Eq, Structural)]
pub enum PendingError {
    /// Another thread panicked while holding the lines.
    Poisoned,
    /// The screen acknowledged a line that is not waiting.
    Unknown { seq: u64 },
}

impl PendingError {
    /// What went wrong.
    pub fn message(&self) -> (m: String)
        ensures
            m@ == match *self {
                PendingError::Poisoned => "band buffer is poisoned"@,
                PendingError::Unknown { seq } => "no line is waiting for seq "@ + crate::text::decimal(
                    seq as nat,
                ),
            },
    {
        match self {
            PendingError::Poisoned => owned("band buffer is poisoned"),
            PendingError::Unknown { seq } => {
                let mut m = owned("no line is waiting for seq ");
                push_decimal(&mut m, *seq);
                m
            },
        }
    }
}

/// Sequence numbers strictly rising: each line once, oldest first.
pub open spec fn seqs_ascending<E>(lines: Seq<(u64, E)>) -> bool {
    forall|i: int, j: int| 0 <= i < j < lines.len() ==> #[trigger] lines[i].0 < #[trigger] lines[j].0
}

/// Whether the line with this number is waiting.
pub open spec fn waiting<E>(lines: Seq<(u64, E)>, seq: u64) -> bool {
    exists|i: int| 0 <= i < lines.len() && #[trigger] lines[i].0 == seq
}

/// How many waiting lines are older than `seq`: where it is, or would go.
pub open spec fn older_than<E>(lines: Seq<(u64, E)>, seq: u64) -> nat
    decreases lines.len(),
{
    if lines.len() == 0 || lines[0].0 >= seq {
        0
    } else {
        1 + older_than(lines.drop_first(), seq)
    }
}

/// The lines with `event` held under `seq`, replacing a line with the same
/// number, before the oldest are let go.
pub open spec fn with_line<E>(lines: Seq<(u64, E)>, seq: u64, event: E) -> Seq<(u64, E)> {
    let p = older_than(lines, seq) as int;
    if p < lines.len() && lines[p].0 == seq {
        lines.update(p, (seq, event))
    } else {
        lines.insert(p, (seq, event))
    }
}

/// The lines after holding: beyond the limit, the oldest is let go, never
/// acknowledged.
pub open spec fn after_hold<E>(lines: Seq<(u64, E)>, seq: u64, event: E) -> Seq<(u64, E)> {
    let w = with_line(lines, seq, event);
    if w.len() > MAX_PENDING {
        w.drop_first()
    } else {
        w
    }
}

/// The lines waiting for the screen, by sequence number.
pub struct PendingLines<E> {
    lines: Vec<(u64, E)>,
}

impl<E> View for PendingLines<E> {
    type V = Seq<(u64, E)>;

    closed spec fn view(&self) -> Seq<(u64, E)> {
        self.lines@
    }
}

/// `older_than` counts the leading lines older than `seq`, and the next one
/// (if any) is not older.
proof fn lemma_older_than<E>(lines: Seq<(u64, E)>, seq: u64)
    ensures
        older_than(lines, seq) <= lines.len(),
        forall|i: int| 0 <= i < older_than(lines, seq) ==> #[trigger] lines[i].0 < seq,
        older_than(lines, seq) < lines.len() ==> lines[older_than(lines, seq) as int].0 >= seq,
    decreases lines.len(),
{
    if lines.len() > 0 && lines[0].0 < seq {
        let rest = lines.drop_first();
        lemma_older_than(rest, seq);
        assert forall|i: int| 0 <= i < older_than(lines, seq) implies #[trigger] lines[i].0 < seq by {
            if i > 0 {
                assert(lines[i] == rest[i - 1]);
            }
        }
    }
}

/// Holding keeps the numbers rising, and the line held is waiting.
proof fn lemma_with_line<E>(lines: Seq<(u64, E)>, seq: u64, event: E)
    requires
        seqs_ascending(lines),
    ensures
        seqs_ascending(with_line(lines, seq, event)),
        waiting(with_line(lines, seq, event), seq),
        with_line(lines, seq, event).len() <= lines.len() + 1,
        forall|s: u64| waiting(with_line(lines, seq, event), s) <==> (waiting(lines, s) || s == seq),
{
    lemma_older_than(lines, seq);
    let p = older_than(lines, seq) as int;
    let w = with_line(lines, seq, event);
    assert forall|i: int| p <= i < lines.len() implies #[trigger] lines[i].0 >= seq by {
        if i > p {
            assert(lines[p].0 < lines[i].0);
        }
    }
    if p < lines.len() && lines[p].0 == seq {
        assert(w[p].0 == seq);
        assert forall|i: int, j: int| 0 <= i < j < w.len() implies #[trigger] w[i].0 < #[trigger] w[j].0 by {
            assert(lines[i].0 < lines[j].0);
        }
        assert forall|s: u64| waiting(w, s) <==> (waiting(lines, s) || s == seq) by {
            if waiting(lines, s) {
                let k = choose|k: int| 0 <= k < lines.len() && #[trigger] lines[k].0 == s;
                assert(w[k].0 == s);
            }
            if waiting(w, s) {
                let k = choose|k: int| 0 <= k < w.len() && #[trigger] w[k].0 == s;
                assert(lines[k].0 == s);
            }
        }
    } else {
        assert(w[p].0 == seq);
        assert forall|i: int| p <= i < lines.len() implies seq < #[trigger] lines[i].0 by {
            if lines[i].0 == seq {
                if i > p {
                    assert(lines[p].0 < lines[i].0);
                }
            }
        }
        assert forall|i: int, j: int| 0 <= i < j < w.len() implies #[trigger] w[i].0 < #[trigger] w[j].0 by {
            if j < p {
                assert(w[i] == lines[i] && w[j] == lines[j]);
            } else if j == p {
                assert(w[i] == lines[i]);
            } else if i < p {
                assert(w[i] == lines[i] && w[j] == lines[j - 1]);
            } else if i == p {
                assert(w[j] == lines[j - 1]);
            } else {
                assert(w[i] == lines[i - 1] && w[j] == lines[j - 1]);
            }
        }
        assert forall|s: u64| waiting(w, s) <==> (waiting(lines, s) || s == seq) by {
            if waiting(lines, s) {
                let k = choose|k: int| 0 <= k < lines.len() && #[trigger] lines[k].0 == s;
                if k < p {
                    assert(w[k].0 == s);
                } else {
                    assert(w[k + 1].0 == s);
                }
            }
            if waiting(w, s) {
                let k = choose|k: int| 0 <= k < w.len() && #[trigger] w[k].0 == s;
                if k < p {
                    assert(lines[k].0 == s);
                } else if k > p {
                    assert(lines[k - 1].0 == s);
                }
            }
        }
    }
}

impl<E> PendingLines<E> {
    /// Each line once, oldest first, and never more than the limit.
    pub closed spec fn wf(&self) -> bool {
        seqs_ascending(self@) && self@.len() <= MAX_PENDING
    }

    /// Well-formed lines hold each number once, oldest first, and never more
    /// than the limit.
    pub proof fn lemma_wf(&self)
        requires
            self.wf(),
        ensures
            seqs_ascending(self@),
            self@.len() <= MAX_PENDING,
    {
    }

    /// Nothing waiting.
    pub fn new() -> (p: Self)
        ensures
            p.wf(),
            p@.len() == 0,
    {
        PendingLines { lines: Vec::new() }
    }

    /// Where `seq` is, or would go.
    fn slot_of(&self, seq: u64) -> (p: usize)
        ensures
            p == older_than(self@, seq),
    {
        let ghost lines = self@;
        let mut i: usize = 0;
        assert(lines.skip(0) == lines);
        while i < self.lines.len() && self.lines[i].0 < seq
            invariant
                lines == self@,
                i <= lines.len(),
                older_than(lines, seq) == i + older_than(lines.skip(i as int), seq),
            decreases lines.len() - i,
        {
            assert(lines.skip(i as int)[0] == lines[i as int]);
            assert(lines.skip(i as int).drop_first() == lines.skip(i + 1));
            i += 1;
        }
        if i < self.lines.len() {
            assert(lines.skip(i as int)[0] == lines[i as int]);
        }
        i
    }

    /// Holds a line just before it is shown to the screen. Beyond the limit
    /// the oldest line is let go, and it is not acknowledged: what was not
    /// shown is never reported as shown.
    pub fn hold(&mut self, seq: u64, event: E)
        requires
            old(self).wf(),
        ensures
            final(self).wf(),
            final(self)@ == after_hold(old(self)@, seq, event),
    {
        let ghost before = self@;
        let p = self.slot_of(seq);
        proof {
            lemma_older_than(before, seq);
            lemma_with_line(before, seq, event);
        }
        if p < self.lines.len() && self.lines[p].0 == seq {
            self.lines.set(p, (seq, event));
            assert(self@ =~= before.update(p as int, (seq, event)));
        } else {
            self.lines.insert(p, (seq, event));
            assert(self@ =~= before.insert(p as int, (seq, event)));
        }
        let ghost w = self@;
        if self.lines.len() > MAX_PENDING {
            let _dropped = self.lines.remove(0);
            assert(self@ =~= w.drop_first());
        }
    }

    /// The screen says it drew the line `seq`: hands back its event, which is
    /// the acknowledgement to make, exactly once (the line is no longer
    /// waiting, so a second release is refused). A line that is not waiting,
    /// including one let go at the limit, is an error, never a silent no-op,
    /// and nothing is handed back to acknowledge.
    pub fn release(&mut self, seq: u64) -> (r: Result<E, PendingError>)
        requires
            old(self).wf(),
        ensures
            final(self).wf(),
            !waiting(old(self)@, seq) ==> {
                &&& r == Err::<E, PendingError>(PendingError::Unknown { seq })
                &&& final(self)@ == old(self)@
            },
            waiting(old(self)@, seq) ==> exists|k: int|
                0 <= k < old(self)@.len() && old(self)@[k].0 == seq && r == Ok::<E, PendingError>(
                    old(self)@[k].1,
                ) && final(self)@ == old(self)@.remove(k),
            !waiting(final(self)@, seq),
    {
        let ghost before = self@;
        let p = self.slot_of(seq);
        proof {
            lemma_older_than(before, seq);
            assert forall|i: int| p <= i < before.len() implies #[trigger] before[i].0 >= seq by {
                if i > p {
                    assert(before[p as int].0 < before[i].0);
                }
            }
            if waiting(before, seq) {
                let k = choose|k: int| 0 <= k < before.len() && #[trigger] before[k].0 == seq;
                if k > p {
                    assert(before[p as int].0 < before[k].0);
                }
            }
        }
        if p < self.lines.len() && self.lines[p].0 == seq {
            let (_, event) = self.lines.remove(p);
            assert(self@ =~= before.remove(p as int));
            proof {
                assert forall|i: int, j: int| 0 <= i < j < self@.len() implies #[trigger] self@[i].0
                    < #[trigger] self@[j].0 by {
                    if j < p {
                    } else if i < p {
                        assert(self@[j] == before[j + 1]);
                    } else {
                        assert(self@[i] == before[i + 1] && self@[j] == before[j + 1]);
                    }
                }
                if waiting(self@, seq) {
                    let k = choose|k: int| 0 <= k < self@.len() && #[trigger] self@[k].0 == seq;
                    if k < p {
                        assert(before[k].0 < before[p as int].0);
                    } else {
                        assert(before[p as int].0 < before[k + 1].0);
                    }
                }
            }
            Ok(event)
        } else {
            Err(PendingError::Unknown { seq })
        }
    }

    /// How many lines are waiting.
    pub fn len(&self) -> (n: usize)
        ensures
            n == self@.len(),
    {
        self.lines.len()
    }

    /// Whether no line is waiting.
    pub fn is_empty(&self) -> (b: bool)
        ensures
            b == (self@.len() == 0),
    {
        self.lines.len() == 0
    }
}

/// Never more than the limit waits, whatever is held.
pub proof fn lemma_hold_is_bounded<E>(lines: Seq<(u64, E)>, seq: u64, event: E)
    requires
        seqs_ascending(lines),
        lines.len() <= MAX_PENDING,
    ensures
        after_hold(lines, seq, event).len() <= MAX_PENDING,
        seqs_ascending(after_hold(lines, seq, event)),
{
    lemma_with_line(lines, seq, event);
}

/// A line let go at the limit is no longer waiting, so releasing it is
/// refused rather than acknowledged: when the limit is full and a newer line
/// comes in, the oldest waiting line is the one let go.
pub proof fn lemma_dropped_line_is_never_released<E>(lines: Seq<(u64, E)>, seq: u64, event: E)
    requires
        seqs_ascending(lines),
        lines.len() == MAX_PENDING,
        lines[0].0 < seq,
        !waiting(lines, seq),
    ensures
        !waiting(after_hold(lines, seq, event), lines[0].0),
        waiting(after_hold(lines, seq, event), seq),
{
    lemma_with_line(lines, seq, event);
    lemma_older_than(lines, seq);
    let w = with_line(lines, seq, event);
    assert(older_than(lines, seq) > 0);
    assert(w[0] == lines[0]);
    let a = w.drop_first();
    if waiting(a, lines[0].0) {
        let k = choose|k: int| 0 <= k < a.len() && #[trigger] a[k].0 == lines[0].0;
        assert(w[k + 1].0 == w[0].0);
    }
    let p = older_than(lines, seq) as int;
    assert(w[p].0 == seq);
    assert(a[p - 1].0 == seq);
}

/// Holding keeps the newest lines: what waits afterwards was waiting or is
/// the line held, and a line let go is older than every line still waiting,
/// which are then exactly the limit. So the lines waiting are the
/// `MAX_PENDING` newest of those waiting before and the one held.
pub proof fn lemma_hold_keeps_the_newest<E>(lines: Seq<(u64, E)>, seq: u64, event: E)
    requires
        seqs_ascending(lines),
        lines.len() <= MAX_PENDING,
    ensures
        forall|t: u64| #[trigger] waiting(after_hold(lines, seq, event), t) ==> waiting(lines, t) || t == seq,
        forall|t: u64, u: u64|
            #![trigger waiting(after_hold(lines, seq, event), t), waiting(after_hold(lines, seq, event), u)]
            (waiting(lines, t) || t == seq) && !waiting(after_hold(lines, seq, event), t) && waiting(
                after_hold(lines, seq, event),
                u,
            ) ==> t < u,
        forall|t: u64|
            (waiting(lines, t) || t == seq) && !#[trigger] waiting(after_hold(lines, seq, event), t)
                ==> after_hold(lines, seq, event).len() == MAX_PENDING,
{
    lemma_with_line(lines, seq, event);
    let w = with_line(lines, seq, event);
    let a = after_hold(lines, seq, event);
    if w.len() > MAX_PENDING {
        assert(a == w.drop_first());
        assert forall|t: u64| #[trigger] waiting(a, t) implies waiting(lines, t) || t == seq by {
            let k = choose|k: int| 0 <= k < a.len() && #[trigger] a[k].0 == t;
            assert(w[k + 1].0 == t);
        }
        assert forall|t: u64, u: u64|
            #![trigger waiting(a, t), waiting(a, u)]
            (waiting(lines, t) || t == seq) && !waiting(a, t) && waiting(a, u) implies t < u by {
            assert(waiting(w, t));
            let k = choose|k: int| 0 <= k < w.len() && #[trigger] w[k].0 == t;
            if k > 0 {
                assert(a[k - 1].0 == t);
            }
            let j = choose|j: int| 0 <= j < a.len() && #[trigger] a[j].0 == u;
            assert(a[j] == w[j + 1]);
            assert(w[0].0 < w[j + 1].0);
        }
    } else {
        assert(a == w);
    }
}

} // verus!
