//! What happened, kept bounded: the newest events are read first, the oldest
//! are dropped when the log is full, and how many were dropped is never hidden.

use vstd::prelude::*;
use std::collections::VecDeque;
use crate::text::{chars_of, decimal, digit_char, owned, push_char, push_decimal, push_str};
use crate::connections::{opt_view, copy_opt};

verus! {

#[verifier::external_type_specification]
#[verifier::external_body]
pub struct ExInstant(std::time::Instant);

/// How serious an event is.
#[derive(Debug, Clone, Copy, PartialEq, Eq, Structural)]
pub enum Level {
    /// A report of what happened.
    Info,
    /// It went through, but deserves attention.
    Warn,
    /// It could not go on. Always carries a hint.
    Error,
}

/// Which stage an event belongs to, so "cannot connect" says where it stopped.
#[derive(Debug, Clone, Copy, PartialEq, Eq, Structural)]
pub enum Stage {
    Reach,
    HostKey,
    Auth,
    Sftp,
    Exec,
    Mcp,
    Registry,
}

/// One event. It carries a connection identifier at most, never a host.
#[derive(Debug, PartialEq, Eq)]
pub struct Event {
    pub seq: u64,
    /// Milliseconds since the app started; no wall-clock time is kept.
    pub at_ms: u64,
    pub level: Level,
    pub stage: Stage,
    pub connection: Option<String>,
    pub message: String,
    /// What to do next; always present on an error.
    pub hint: Option<String>,
}

/// An event as plain values.
pub struct EventView {
    pub seq: u64,
    pub at_ms: u64,
    pub level: Level,
    pub stage: Stage,
    pub connection: Option<Seq<char>>,
    pub message: Seq<char>,
    pub hint: Option<Seq<char>>,
}

impl View for Event {
    type V = EventView;

    open spec fn view(&self) -> EventView {
        EventView {
            seq: self.seq,
            at_ms: self.at_ms,
            level: self.level,
            stage: self.stage,
            connection: opt_view(self.connection),
            message: self.message@,
            hint: opt_view(self.hint),
        }
    }
}

pub open spec fn level_text(l: Level) -> Seq<char> {
    match l {
        Level::Info => "情報"@,
        Level::Warn => "注意"@,
        Level::Error => "失敗"@,
    }
}

pub open spec fn stage_text(s: Stage) -> Seq<char> {
    match s {
        Stage::Reach => "到達"@,
        Stage::HostKey => "ホスト鍵"@,
        Stage::Auth => "認証"@,
        Stage::Sftp => "ファイル"@,
        Stage::Exec => "コマンド"@,
        Stage::Mcp => "MCP"@,
        Stage::Registry => "接続一覧"@,
    }
}

/// Three decimal digits for a value below a thousand.
pub open spec fn three_digits(r: nat) -> Seq<char> {
    seq![digit_char(r / 100), digit_char((r / 10) % 10), digit_char(r % 10)]
}

/// Seconds with three decimals, right-aligned in seven characters.
pub open spec fn seconds_field(ms: nat) -> Seq<char> {
    let body = decimal(ms / 1000) + "."@ + three_digits(ms % 1000);
    if body.len() < 7 {
        Seq::new((7 - body.len()) as nat, |i: int| ' ') + body
    } else {
        body
    }
}

/// An event in one line, the same on screen and in a terminal.
pub open spec fn rendered_event(e: EventView) -> Seq<char> {
    seconds_field(e.at_ms as nat) + "s "@ + level_text(e.level) + " "@ + stage_text(e.stage)
        + match e.connection {
        Some(id) => " ["@ + id + "]"@,
        None => seq![],
    } + " "@ + e.message + match e.hint {
        Some(h) => "\n           → "@ + h,
        None => seq![],
    }
}

fn push_three_digits(s: &mut String, r: u64)
    requires
        r < 1000,
    ensures
        final(s)@ == old(s)@ + three_digits(r as nat),
{
    let ghost start = s@;
    push_decimal_digit(s, r / 100);
    push_decimal_digit(s, (r / 10) % 10);
    push_decimal_digit(s, r % 10);
    assert(s@ =~= start + three_digits(r as nat));
}

fn push_decimal_digit(s: &mut String, d: u64)
    requires
        d < 10,
    ensures
        final(s)@ == old(s)@.push(digit_char(d as nat)),
{
    let ghost start = s@;
    push_decimal(s, d);
    assert(decimal(d as nat) == seq![digit_char(d as nat)]);
    assert(start + seq![digit_char(d as nat)] == start.push(digit_char(d as nat)));
}

fn push_level(s: &mut String, l: Level)
    ensures
        final(s)@ == old(s)@ + level_text(l),
{
    match l {
        Level::Info => push_str(s, "情報"),
        Level::Warn => push_str(s, "注意"),
        Level::Error => push_str(s, "失敗"),
    }
}

fn push_stage(s: &mut String, st: Stage)
    ensures
        final(s)@ == old(s)@ + stage_text(st),
{
    match st {
        Stage::Reach => push_str(s, "到達"),
        Stage::HostKey => push_str(s, "ホスト鍵"),
        Stage::Auth => push_str(s, "認証"),
        Stage::Sftp => push_str(s, "ファイル"),
        Stage::Exec => push_str(s, "コマンド"),
        Stage::Mcp => push_str(s, "MCP"),
        Stage::Registry => push_str(s, "接続一覧"),
    }
}

impl Event {
    /// One line a person reads; the same form on screen and in a terminal.
    pub fn render(&self) -> (r: String)
        ensures
            r@ == rendered_event(self@),
    {
        let mut body = String::new();
        push_decimal(&mut body, self.at_ms / 1000);
        push_char(&mut body, '.');
        push_three_digits(&mut body, self.at_ms % 1000);
        proof {
            reveal_strlit(".");
            assert(body@ =~= decimal((self.at_ms / 1000) as nat) + "."@ + three_digits(
                (self.at_ms % 1000) as nat,
            ));
        }
        let width = chars_of(body.as_str()).len();
        let mut out = String::new();
        let mut pad: usize = 0;
        if width < 7 {
            while pad < 7 - width
                invariant
                    width < 7,
                    pad <= 7 - width,
                    out@ == Seq::new(pad as nat, |i: int| ' '),
                decreases 7 - width - pad,
            {
                push_char(&mut out, ' ');
                pad += 1;
                assert(out@ =~= Seq::new(pad as nat, |i: int| ' '));
            }
        }
        let ghost padding = out@;
        push_str(&mut out, body.as_str());
        assert(out@ == seconds_field(self.at_ms as nat)) by {
            if width < 7 {
                assert(padding =~= Seq::new((7 - width) as nat, |i: int| ' '));
            } else {
                assert(padding =~= Seq::<char>::empty());
                assert(out@ =~= body@);
            }
        }
        push_str(&mut out, "s ");
        push_level(&mut out, self.level);
        push_str(&mut out, " ");
        push_stage(&mut out, self.stage);
        let ghost before_who = out@;
        if let Some(id) = &self.connection {
            push_str(&mut out, " [");
            push_str(&mut out, id.as_str());
            push_str(&mut out, "]");
        }
        let ghost after_who = out@;
        push_str(&mut out, " ");
        push_str(&mut out, self.message.as_str());
        let ghost before_hint = out@;
        if let Some(h) = &self.hint {
            push_str(&mut out, "\n           → ");
            push_str(&mut out, h.as_str());
        }
        proof {
            let who = match opt_view(self.connection) {
                Some(id) => " ["@ + id + "]"@,
                None => seq![],
            };
            let hint = match opt_view(self.hint) {
                Some(h) => "\n           → "@ + h,
                None => seq![],
            };
            assert(after_who =~= before_who + who);
            assert(out@ =~= before_hint + hint);
        }
        out
    }

    /// A copy of this event.
    pub fn duplicate(&self) -> (e: Event)
        ensures
            e@ == self@,
    {
        Event {
            seq: self.seq,
            at_ms: self.at_ms,
            level: self.level,
            stage: self.stage,
            connection: copy_opt(&self.connection),
            message: self.message.clone(),
            hint: copy_opt(&self.hint),
        }
    }
}

/// How many events are kept by default: bounded, because the tool runs all
/// day and an unbounded log only grows.
pub const DEFAULT_CAPACITY: usize = 500;

/// `std::time::Instant::now`.
#[verifier::external_body]
fn now() -> (t: std::time::Instant)
{
    std::time::Instant::now()
}

/// `std::time::Instant::elapsed`.
#[verifier::external_body]
fn elapsed(since: &std::time::Instant) -> (d: std::time::Duration)
{
    since.elapsed()
}

/// `std::time::Duration::as_millis`.
#[verifier::external_body]
fn millis(d: &std::time::Duration) -> (ms: u128)
{
    d.as_millis()
}

/// The log of what happened. The oldest event is dropped when it is full.
pub struct Diagnostics {
    events: VecDeque<Event>,
    started: std::time::Instant,
    next_seq: u64,
    capacity: usize,
    dropped: u64,
}

/// An event as it is recorded: its number, its level, stage, connection,
/// message and hint (its time is the clock's).
pub open spec fn recorded_as(
    e: EventView,
    seq: u64,
    level: Level,
    stage: Stage,
    connection: Option<Seq<char>>,
    message: Seq<char>,
    hint: Option<Seq<char>>,
) -> bool {
    e.seq == seq && e.level == level && e.stage == stage && e.connection == connection && e.message
        == message && e.hint == hint
}

/// The events after one more is recorded into a log holding at most `capacity`.
pub open spec fn kept_after(events: Seq<EventView>, e: EventView, capacity: nat) -> Seq<EventView> {
    if events.len() >= capacity { events.drop_first().push(e) } else { events.push(e) }
}

/// The newest `limit` events, newest first.
pub open spec fn newest_first(events: Seq<EventView>, limit: nat) -> Seq<EventView> {
    let n = if limit < events.len() { limit } else { events.len() };
    Seq::new(n, |j: int| events[events.len() - 1 - j])
}

/// `text` as an optional text.
pub open spec fn opt_text(t: Option<&str>) -> Option<Seq<char>> {
    match t {
        Some(s) => Some(s@),
        None => None,
    }
}

fn opt_owned(t: Option<&str>) -> (r: Option<String>)
    ensures
        opt_view(r) == opt_text(t),
{
    match t {
        Some(s) => Some(owned(s)),
        None => None,
    }
}

/// The number after `n`, wrapping at the top.
pub open spec fn next_count(n: u64) -> u64 {
    if n == u64::MAX { 0 } else { (n + 1) as u64 }
}

/// `after` is `before` with one more event recorded: the oldest dropped and
/// counted when it was full, the new one last, numbered with the next number.
pub open spec fn recorded_once(
    before: Diagnostics,
    after: Diagnostics,
    level: Level,
    stage: Stage,
    connection: Option<Seq<char>>,
    message: Seq<char>,
    hint: Option<Seq<char>>,
) -> bool {
    &&& after.wf()
    &&& after.capacity_of() == before.capacity_of()
    &&& after.events().len() >= 1
    &&& after.events() == kept_after(before.events(), after.events().last(), before.capacity_of())
    &&& recorded_as(after.events().last(), before.next_number(), level, stage, connection, message, hint)
    &&& after.next_number() == next_count(before.next_number())
    &&& after.dropped_count() == if before.events().len() >= before.capacity_of() {
        next_count(before.dropped_count())
    } else {
        before.dropped_count()
    }
}

impl Diagnostics {
    /// The events kept, oldest first.
    pub closed spec fn events(&self) -> Seq<EventView> {
        self.events@.map_values(|e: Event| e@)
    }

    /// At most this many events are kept (at least one).
    pub closed spec fn capacity_of(&self) -> nat {
        self.capacity as nat
    }

    /// The number the next event gets.
    pub closed spec fn next_number(&self) -> u64 {
        self.next_seq
    }

    /// How many events were dropped for room.
    pub closed spec fn dropped_count(&self) -> u64 {
        self.dropped
    }

    pub closed spec fn wf(&self) -> bool {
        &&& self.capacity >= 1
        &&& self.events@.len() <= self.capacity
    }

    pub fn new() -> (d: Self)
        ensures
            d.wf(),
            d.capacity_of() == DEFAULT_CAPACITY,
            d.events().len() == 0,
            d.next_number() == 0,
            d.dropped_count() == 0,
    {
        Self::with_capacity(DEFAULT_CAPACITY)
    }

    /// A log keeping at most `capacity` events; never fewer than one, since an
    /// empty log would record nothing.
    pub fn with_capacity(capacity: usize) -> (d: Self)
        ensures
            d.wf(),
            d.capacity_of() == if capacity < 1 { 1 } else { capacity },
            d.events().len() == 0,
            d.next_number() == 0,
            d.dropped_count() == 0,
    {
        let d = Diagnostics {
            events: VecDeque::new(),
            started: now(),
            next_seq: 0,
            capacity: if capacity < 1 { 1 } else { capacity },
            dropped: 0,
        };
        assert(d.events() =~= Seq::<EventView>::empty());
        d
    }

    /// Records one event. It never waits; recording does not stop the work.
    pub fn record(
        &mut self,
        level: Level,
        stage: Stage,
        connection: Option<&str>,
        message: &str,
        hint: Option<&str>,
    )
        requires
            old(self).wf(),
        ensures
            recorded_once(*old(self), *final(self), level, stage, opt_text(connection), message@, opt_text(hint)),
    {
        let seq = self.next_seq;
        self.next_seq = seq.wrapping_add(1);
        let passed = elapsed(&self.started);
        let ms = millis(&passed);
        let at_ms = ms as u64;
        let event = Event {
            seq,
            at_ms,
            level,
            stage,
            connection: opt_owned(connection),
            message: owned(message),
            hint: opt_owned(hint),
        };
        let ghost before = self.events@;
        if self.events.len() >= self.capacity {
            self.events.pop_front();
            self.dropped = self.dropped.wrapping_add(1);
        }
        self.events.push_back(event);
        proof {
            let old_view = before.map_values(|e: Event| e@);
            if before.len() >= self.capacity {
                assert(self.events@ == before.subrange(1, before.len() as int).push(event));
                assert(self.events() =~= old_view.drop_first().push(event@));
            } else {
                assert(self.events() =~= old_view.push(event@));
            }
        }
    }

    /// Reports what happened.
    pub fn info(&mut self, stage: Stage, connection: Option<&str>, message: &str)
        requires
            old(self).wf(),
        ensures
            recorded_once(*old(self), *final(self), Level::Info, stage, opt_text(connection), message@, None),
    {
        self.record(Level::Info, stage, connection, message, None);
    }

    /// It went through, but deserves attention.
    pub fn warn(&mut self, stage: Stage, connection: Option<&str>, message: &str)
        requires
            old(self).wf(),
        ensures
            recorded_once(*old(self), *final(self), Level::Warn, stage, opt_text(connection), message@, None),
    {
        self.record(Level::Warn, stage, connection, message, None);
    }

    /// It could not go on; what to do next always goes with it.
    pub fn error(&mut self, stage: Stage, connection: Option<&str>, message: &str, hint: &str)
        requires
            old(self).wf(),
        ensures
            recorded_once(*old(self), *final(self), Level::Error, stage, opt_text(connection), message@, Some(hint@)),
    {
        self.record(Level::Error, stage, connection, message, Some(hint));
    }

    /// The newest events first, at most `limit` of them.
    pub fn recent(&self, limit: usize) -> (r: Vec<Event>)
        ensures
            r@.map_values(|e: Event| e@) == newest_first(self.events(), limit as nat),
    {
        let n = self.events.len();
        let take = if limit < n { limit } else { n };
        let ghost all = self.events();
        let mut r: Vec<Event> = Vec::new();
        for j in 0..take
            invariant
                take <= n,
                n == self.events@.len(),
                all == self.events(),
                r@.len() == j,
                forall|k: int| 0 <= k < j ==> #[trigger] r@[k]@ == all[n - 1 - k],
        {
            let e = self.events[n - 1 - j].duplicate();
            r.push(e);
        }
        assert(r@.map_values(|e: Event| e@) =~= newest_first(all, limit as nat));
        r
    }

    /// How many events are kept.
    pub fn len(&self) -> (n: usize)
        ensures
            n == self.events().len(),
    {
        self.events.len()
    }

    pub fn is_empty(&self) -> (b: bool)
        ensures
            b == (self.events().len() == 0),
    {
        self.events.len() == 0
    }

    /// How many events were dropped, so nobody reads the log as complete.
    pub fn dropped(&self) -> (n: u64)
        ensures
            n == self.dropped_count(),
    {
        self.dropped
    }
}

/// The log never holds more than its capacity, and an event is dropped only
/// when the log was full: every event recorded is either still kept or counted
/// as dropped.
pub proof fn lemma_bounded_and_counted(events: Seq<EventView>, e: EventView, capacity: nat)
    requires
        capacity >= 1,
        events.len() <= capacity,
    ensures
        kept_after(events, e, capacity).len() <= capacity,
        kept_after(events, e, capacity).len() + (if events.len() >= capacity { 1int } else { 0 })
            == events.len() + 1,
        kept_after(events, e, capacity).last() == e,
{
}

/// `after` is `before` with one more event recorded, whatever it says.
pub open spec fn one_more(before: Diagnostics, after: Diagnostics) -> bool {
    exists|level: Level, stage: Stage, connection: Option<Seq<char>>, message: Seq<char>, hint: Option<Seq<char>>|
        #[trigger] recorded_once(before, after, level, stage, connection, message, hint)
}

/// How many of `n` events a log keeping at most `capacity` still holds.
pub open spec fn kept_of(n: nat, capacity: nat) -> nat {
    if n < capacity { n } else { capacity }
}

/// From an empty log keeping at most `c` events, after `n` events are
/// recorded one by one (`logs[i + 1]` is `logs[i]` with one more): the log
/// keeps the last `min(n, c)` of them, oldest first, numbered `n - kept` to
/// `n - 1` (numbers are never reused after a drop), counts the rest as
/// dropped, and gives the next event the number `n`.
pub proof fn lemma_last_events_kept(logs: Seq<Diagnostics>)
    requires
        logs.len() >= 1,
        logs.len() - 1 < u64::MAX,
        logs[0].wf(),
        logs[0].events().len() == 0,
        logs[0].next_number() == 0,
        logs[0].dropped_count() == 0,
        forall|i: int| 0 <= i < logs.len() - 1 ==> #[trigger] one_more(logs[i], logs[i + 1]),
    ensures
        logs.last().wf(),
        logs.last().capacity_of() == logs[0].capacity_of(),
        logs.last().events().len() == kept_of((logs.len() - 1) as nat, logs[0].capacity_of()),
        logs.last().dropped_count() == (logs.len() - 1) - kept_of((logs.len() - 1) as nat, logs[0].capacity_of()),
        logs.last().next_number() == logs.len() - 1,
        forall|k: int| 0 <= k < logs.last().events().len() ==> #[trigger] logs.last().events()[k].seq == (logs.len() - 1)
            - kept_of((logs.len() - 1) as nat, logs[0].capacity_of()) + k,
    decreases logs.len(),
{
    if logs.len() > 1 {
        let shorter = logs.drop_last();
        assert forall|i: int| 0 <= i < shorter.len() - 1 implies #[trigger] one_more(shorter[i], shorter[i + 1]) by {
            assert(one_more(logs[i], logs[i + 1]));
        }
        lemma_last_events_kept(shorter);
        let n = (logs.len() - 1) as nat;
        let c = logs[0].capacity_of();
        let prev = logs[n - 1];
        let last = logs[n as int];
        assert(shorter.last() == prev);
        assert(one_more(logs[n - 1], logs[n - 1 + 1]));
        let (level, stage, connection, message, hint) = choose|
            level: Level,
            stage: Stage,
            connection: Option<Seq<char>>,
            message: Seq<char>,
            hint: Option<Seq<char>>,
        | #[trigger] recorded_once(prev, last, level, stage, connection, message, hint);
        assert(recorded_once(prev, last, level, stage, connection, message, hint));
        let before = prev.events();
        let e = last.events().last();
        if before.len() >= c {
            assert(last.events() == before.drop_first().push(e));
            assert forall|k: int| 0 <= k < last.events().len() implies #[trigger] last.events()[k].seq == n - kept_of(n, c) + k by {
                if k < last.events().len() - 1 {
                    assert(last.events()[k] == before[k + 1]);
                }
            }
        } else {
            assert(last.events() == before.push(e));
            assert forall|k: int| 0 <= k < last.events().len() implies #[trigger] last.events()[k].seq == n - kept_of(n, c) + k by {
                if k < last.events().len() - 1 {
                    assert(last.events()[k] == before[k]);
                }
            }
        }
    }
}

/// The value of a decimal digit character.
pub open spec fn digit_value(c: char) -> int {
    (c as int) - 48
}

/// `p` reads as the number of seconds in `ms` milliseconds with three
/// decimals: spaces to a width of at least seven, the whole seconds in
/// decimal, a point, and exactly three digits whose value is the
/// milliseconds past the second (so 1050 reads as 1.050, never 1.50).
pub open spec fn reads_as_seconds(p: Seq<char>, ms: nat) -> bool {
    let n = p.len() as int;
    &&& n >= 7
    &&& p[n - 4] == '.'
    &&& forall|i: int| n - 3 <= i < n ==> 48 <= #[trigger] (p[i] as int) <= 57
    &&& digit_value(p[n - 3]) * 100 + digit_value(p[n - 2]) * 10 + digit_value(p[n - 1]) == ms % 1000
    &&& exists|k: nat| p.subrange(0, n - 4) == #[trigger] spaces(k) + decimal(ms / 1000)
}

/// `k` spaces.
pub open spec fn spaces(k: nat) -> Seq<char> {
    Seq::new(k, |i: int| ' ')
}

/// Three digit characters read back as the number they were written for.
proof fn lemma_three_digits_read_back(r: nat)
    requires
        r < 1000,
    ensures
        three_digits(r).len() == 3,
        forall|i: int| 0 <= i < 3 ==> 48 <= #[trigger] (three_digits(r)[i] as int) <= 57,
        digit_value(three_digits(r)[0]) * 100 + digit_value(three_digits(r)[1]) * 10 + digit_value(
            three_digits(r)[2],
        ) == r,
{
    lemma_digit_value(r / 100);
    lemma_digit_value((r / 10) % 10);
    lemma_digit_value(r % 10);
}

proof fn lemma_digit_value(d: nat)
    requires
        d < 10,
    ensures
        digit_value(digit_char(d)) == d,
        48 <= (digit_char(d) as int) <= 57,
{
}

/// The seconds field of a rendered event reads back as the time it was
/// recorded at: whole seconds, a point and three decimals, so rendering and
/// reading the number again gives `ms / 1000` to the millisecond.
pub proof fn lemma_seconds_read_back(ms: nat)
    ensures
        reads_as_seconds(seconds_field(ms), ms),
{
    reveal_strlit(".");
    let r = ms % 1000;
    lemma_three_digits_read_back(r);
    let t = three_digits(r);
    let body = decimal(ms / 1000) + "."@ + t;
    let f = seconds_field(ms);
    let n = f.len() as int;
    if body.len() < 7 {
        let k = (7 - body.len()) as nat;
        let sp = Seq::new(k, |i: int| ' ');
        assert(f == sp + body);
        assert(f.subrange(0, n - 4) =~= spaces(k) + decimal(ms / 1000));
        assert(f[n - 4] == '.');
        assert(f[n - 3] == t[0] && f[n - 2] == t[1] && f[n - 1] == t[2]);
    } else {
        assert(f == body);
        assert(f.subrange(0, n - 4) =~= spaces(0) + decimal(ms / 1000));
        assert(f[n - 4] == '.');
        assert(f[n - 3] == t[0] && f[n - 2] == t[1] && f[n - 1] == t[2]);
    }
    assert forall|i: int| n - 3 <= i < n implies 48 <= #[trigger] (f[i] as int) <= 57 by {
        assert(f[i] == t[i - (n - 3)]);
    }
}

/// A rendered event starts with its time read back to the millisecond,
/// followed by `s`.
pub proof fn lemma_rendered_time_reads_back(e: EventView)
    ensures
        reads_as_seconds(rendered_event(e).take(seconds_field(e.at_ms as nat).len() as int), e.at_ms as nat),
        rendered_event(e)[seconds_field(e.at_ms as nat).len() as int] == 's',
{
    reveal_strlit("s ");
    lemma_seconds_read_back(e.at_ms as nat);
    let f = seconds_field(e.at_ms as nat);
    let line = rendered_event(e);
    assert(line.take(f.len() as int) =~= f);
    assert(line[f.len() as int] == 's');
}

} // verus!
