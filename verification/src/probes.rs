//! The commands the purpose-built reading tools run.
//!
//! The agent never composes a command: this module does, and every argument
//! goes through [`quote`] without exception. None of these commands waits
//! for a pager or writes to the server.

use vstd::prelude::*;
use crate::text::{blank, decimal, is_blank, owned, push_char, push_decimal, push_str};

verus! {

/// The most lines one read of a log returns (it is held in memory whole).
pub const MAX_LOG_LINES: u32 = 5000;

/// The most hits a search returns; without a cap it does not come back.
pub const MAX_SEARCH_HITS: u32 = 500;

/// How deep a name search descends (also keeps it out of symlink loops).
pub const SEARCH_DEPTH: u32 = 8;

/// An argument was empty. Names what was missing, never its value.
#[derive(Debug, Clone, PartialEq, Eq)]
pub struct MissingArgument {
    pub what: &'static str,
}

impl MissingArgument {
    /// The message shown to the person: what to fill in.
    pub fn message(&self) -> (m: String)
        ensures
            m@ == self.what@ + "を指定してください"@,
    {
        let mut m = owned(self.what);
        push_str(&mut m, "を指定してください");
        m
    }
}

/// A text wrapped for a POSIX shell: in single quotes, each `'` written as
/// `'\''`, so nothing inside can end the word.
pub open spec fn escaped(s: Seq<char>) -> Seq<char>
    decreases s.len(),
{
    if s.len() == 0 {
        seq![]
    } else if s.last() == '\'' {
        escaped(s.drop_last()) + seq!['\'', '\\', '\'', '\'']
    } else {
        escaped(s.drop_last()).push(s.last())
    }
}

pub open spec fn quoted(s: Seq<char>) -> Seq<char> {
    seq!['\''] + escaped(s) + seq!['\'']
}

/// Appends `s` quoted for the shell.
pub fn push_quoted(out: &mut String, s: &str)
    ensures
        final(out)@ == old(out)@ + quoted(s@),
{
    let ghost start = out@;
    push_char(out, '\'');
    let chars = crate::text::chars_of(s);
    for i in 0..chars.len()
        invariant
            chars@ == s@,
            out@ == start + seq!['\''] + escaped(s@.take(i as int)),
    {
        let c = chars[i];
        proof {
            assert(s@.take(i + 1).drop_last() == s@.take(i as int));
            assert(s@.take(i + 1).last() == c);
        }
        if c == '\'' {
            push_char(out, '\'');
            push_char(out, '\\');
            push_char(out, '\'');
            push_char(out, '\'');
        } else {
            push_char(out, c);
        }
    }
    assert(s@.take(s@.len() as int) == s@);
    push_char(out, '\'');
}

/// `s` quoted for the shell, as a string of its own.
pub fn quote(s: &str) -> (q: String)
    ensures
        q@ == quoted(s@),
{
    let mut q = String::new();
    push_quoted(&mut q, s);
    assert(Seq::<char>::empty() + quoted(s@) == quoted(s@));
    q
}

/// Free space, in units a person reads, one line per mount.
pub fn disk_usage() -> (c: String)
    ensures
        c@ == "df -h -P"@,
{
    owned("df -h -P")
}

/// Every process, not only the caller's.
pub fn process_list() -> (c: String)
    ensures
        c@ == "ps aux"@,
{
    owned("ps aux")
}

/// Listening ports, falling back to `netstat` where `ss` is missing.
pub fn network_listen() -> (c: String)
    ensures
        c@ == "ss -ltnp 2>/dev/null || netstat -ltnp"@,
{
    owned("ss -ltnp 2>/dev/null || netstat -ltnp")
}

pub open spec fn service_status_command(name: Seq<char>) -> Seq<char> {
    "systemctl --no-pager --full status -- "@ + quoted(name)
}

/// A service's state. `--no-pager` so it comes back, `--` so a name that
/// starts with `-` is not read as an option, the name quoted.
pub fn service_status(name: &str) -> (r: Result<String, MissingArgument>)
    ensures
        is_blank(name@) ==> r == Err::<String, MissingArgument>(MissingArgument { what: "サービス名" }),
        !is_blank(name@) ==> (r matches Ok(c) && c@ == service_status_command(name@)),
{
    if blank(name) {
        return Err(MissingArgument { what: "サービス名" });
    }
    let mut c = owned("systemctl --no-pager --full status -- ");
    push_quoted(&mut c, name);
    Ok(c)
}

/// `hits` held between one and [`MAX_SEARCH_HITS`].
pub open spec fn clamped_hits(hits: u32) -> u32 {
    if hits < 1 { 1 } else if hits > MAX_SEARCH_HITS { MAX_SEARCH_HITS } else { hits }
}

pub fn clamp_hits(hits: u32) -> (h: u32)
    ensures
        h == clamped_hits(hits),
{
    if hits < 1 {
        1
    } else if hits > MAX_SEARCH_HITS {
        MAX_SEARCH_HITS
    } else {
        hits
    }
}

pub open spec fn search_names_command(root: Seq<char>, pattern: Seq<char>, hits: u32) -> Seq<char> {
    "find "@ + quoted(root) + " -maxdepth 8 -name "@ + quoted(pattern)
        + " -print 2>/dev/null | head -n "@ + decimal(clamped_hits(hits) as nat)
}

/// Files found by name, depth and count both capped.
pub fn search_names(root: &str, pattern: &str, hits: u32) -> (r: Result<String, MissingArgument>)
    ensures
        is_blank(root@) ==> r == Err::<String, MissingArgument>(MissingArgument { what: "探す場所" }),
        !is_blank(root@) && is_blank(pattern@) ==> r == Err::<String, MissingArgument>(
            MissingArgument { what: "探す名前" },
        ),
        !is_blank(root@) && !is_blank(pattern@) ==> (r matches Ok(c) && c@
            == search_names_command(root@, pattern@, hits)),
{
    if blank(root) {
        return Err(MissingArgument { what: "探す場所" });
    }
    if blank(pattern) {
        return Err(MissingArgument { what: "探す名前" });
    }
    let hits = clamp_hits(hits);
    let mut c = owned("find ");
    push_quoted(&mut c, root);
    push_str(&mut c, " -maxdepth 8 -name ");
    push_quoted(&mut c, pattern);
    push_str(&mut c, " -print 2>/dev/null | head -n ");
    push_decimal(&mut c, hits as u64);
    Ok(c)
}

pub open spec fn search_content_command(root: Seq<char>, pattern: Seq<char>, hits: u32) -> Seq<char> {
    "grep -r -n -I -- "@ + quoted(pattern) + " "@ + quoted(root)
        + " 2>/dev/null | head -n "@ + decimal(clamped_hits(hits) as nat)
}

/// Lines found by content; binaries skipped, line numbers kept, `--` before
/// the pattern so it cannot be read as an option.
pub fn search_content(root: &str, pattern: &str, hits: u32) -> (r: Result<String, MissingArgument>)
    ensures
        is_blank(root@) ==> r == Err::<String, MissingArgument>(MissingArgument { what: "探す場所" }),
        !is_blank(root@) && is_blank(pattern@) ==> r == Err::<String, MissingArgument>(
            MissingArgument { what: "探す語" },
        ),
        !is_blank(root@) && !is_blank(pattern@) ==> (r matches Ok(c) && c@
            == search_content_command(root@, pattern@, hits)),
{
    if blank(root) {
        return Err(MissingArgument { what: "探す場所" });
    }
    if blank(pattern) {
        return Err(MissingArgument { what: "探す語" });
    }
    let hits = clamp_hits(hits);
    let mut c = owned("grep -r -n -I -- ");
    push_quoted(&mut c, pattern);
    push_str(&mut c, " ");
    push_quoted(&mut c, root);
    push_str(&mut c, " 2>/dev/null | head -n ");
    push_decimal(&mut c, hits as u64);
    Ok(c)
}

/// The runtimes whose version is asked; only those that answer `--version`.
pub const RUNTIMES: [&'static str; 11] = [
    "python3",
    "node",
    "npm",
    "php",
    "ruby",
    "perl",
    "java",
    "go",
    "rustc",
    "psql",
    "mysql",
];

pub open spec fn runtime_versions_command() -> Seq<char> {
    ". /etc/os-release 2>/dev/null; printf 'os: %s\\n' \"${PRETTY_NAME:-unknown}\"; "@
        + "for c in python3 node npm php ruby perl java go rustc psql mysql"@
        + "; do if command -v \"$c\" >/dev/null 2>&1; then printf '%s: %s\\n' \"$c\" \"$(\"$c\" --version 2>&1 | head -n 1)\"; fi; done"@
}

/// What is installed and at which version; a missing one is skipped, not an error.
pub fn runtime_versions() -> (c: String)
    ensures
        c@ == runtime_versions_command(),
{
    let mut c = owned(
        ". /etc/os-release 2>/dev/null; printf 'os: %s\\n' \"${PRETTY_NAME:-unknown}\"; ",
    );
    push_str(&mut c, "for c in python3 node npm php ruby perl java go rustc psql mysql");
    push_str(
        &mut c,
        "; do if command -v \"$c\" >/dev/null 2>&1; then printf '%s: %s\\n' \"$c\" \"$(\"$c\" --version 2>&1 | head -n 1)\"; fi; done",
    );
    c
}

/// `lines` held between one and [`MAX_LOG_LINES`].
pub open spec fn clamped_lines(lines: u32) -> u32 {
    if lines < 1 { 1 } else if lines > MAX_LOG_LINES { MAX_LOG_LINES } else { lines }
}

pub open spec fn read_log_command(path: Seq<char>, lines: u32) -> Seq<char> {
    "tail -n "@ + decimal(clamped_lines(lines) as nat) + " -- "@ + quoted(path)
}

/// The end of a log; never follows it.
pub fn read_log(path: &str, lines: u32) -> (r: Result<String, MissingArgument>)
    ensures
        is_blank(path@) ==> r == Err::<String, MissingArgument>(MissingArgument { what: "パス" }),
        !is_blank(path@) ==> (r matches Ok(c) && c@ == read_log_command(path@, lines)),
{
    if blank(path) {
        return Err(MissingArgument { what: "パス" });
    }
    let lines = if lines < 1 {
        1
    } else if lines > MAX_LOG_LINES {
        MAX_LOG_LINES
    } else {
        lines
    };
    let mut c = owned("tail -n ");
    push_decimal(&mut c, lines as u64);
    push_str(&mut c, " -- ");
    push_quoted(&mut c, path);
    Ok(c)
}

/// Whatever the argument, a quoted word holds no unquoted `'`: every quote
/// inside it is part of an escape, so it stays one word for the shell.
pub proof fn lemma_quoted_is_wrapped(s: Seq<char>)
    ensures
        quoted(s).len() >= 2,
        quoted(s)[0] == '\'',
        quoted(s).last() == '\'',
        escaped(s).len() >= s.len(),
    decreases s.len(),
{
    if s.len() > 0 {
        lemma_quoted_is_wrapped(s.drop_last());
    }
}

/// How a POSIX shell reads the characters of a word into the argument it
/// hands over: inside single quotes every character is itself until the
/// next `'`; outside them a `'` opens a quoted part, a `\\` takes the next
/// character as it is, and anything else is itself.
pub open spec fn shell_word(q: Seq<char>, quoting: bool) -> Seq<char>
    decreases q.len(),
{
    if q.len() == 0 {
        seq![]
    } else if quoting {
        if q[0] == '\'' {
            shell_word(q.drop_first(), false)
        } else {
            seq![q[0]] + shell_word(q.drop_first(), true)
        }
    } else if q[0] == '\'' {
        shell_word(q.drop_first(), true)
    } else if q[0] == '\\' && q.len() >= 2 {
        seq![q[1]] + shell_word(q.subrange(2, q.len() as int), false)
    } else {
        seq![q[0]] + shell_word(q.drop_first(), false)
    }
}

/// Escaping a text is escaping its parts one after the other.
proof fn lemma_escaped_concat(a: Seq<char>, b: Seq<char>)
    ensures
        escaped(a + b) == escaped(a) + escaped(b),
    decreases b.len(),
{
    if b.len() == 0 {
        assert(a + b == a);
    } else {
        lemma_escaped_concat(a, b.drop_last());
        assert((a + b).drop_last() == a + b.drop_last());
        assert((a + b).last() == b.last());
    }
}

/// Inside a quoted part, an escaped text reads back as the text itself, and
/// the shell is still inside the quotes after it.
proof fn lemma_escaped_reads_back(s: Seq<char>, tail: Seq<char>)
    ensures
        shell_word(escaped(s) + tail, true) == s + shell_word(tail, true),
    decreases s.len(),
{
    if s.len() == 0 {
        assert(escaped(s) + tail =~= tail);
        assert(s + shell_word(tail, true) =~= shell_word(tail, true));
    } else {
        let c = s[0];
        let rest = s.drop_first();
        assert(s == seq![c] + rest);
        lemma_escaped_concat(seq![c], rest);
        lemma_escaped_reads_back(rest, tail);
        let x = escaped(rest) + tail;
        assert(seq![c].drop_last() =~= Seq::<char>::empty());
        assert(seq![c].last() == c);
        assert(escaped(Seq::<char>::empty()) == Seq::<char>::empty());
        if c == '\'' {
            assert(escaped(seq![c]) =~= seq!['\'', '\\', '\'', '\'']);
            let q = seq!['\'', '\\', '\'', '\''] + x;
            assert(escaped(s) + tail == q);
            assert(q.drop_first() == seq!['\\', '\'', '\''] + x);
            let q1 = q.drop_first();
            let q2 = seq!['\''] + x;
            assert(q1.subrange(2, q1.len() as int) =~= q2);
            assert(q2.drop_first() =~= x);
            assert(q[0] == '\'' && q1[0] == '\\' && q1[1] == '\'' && q2[0] == '\'');
            assert(shell_word(q2, false) == shell_word(x, true));
            assert(shell_word(q1, false) == seq!['\''] + shell_word(q2, false));
            assert(shell_word(q, true) == shell_word(q1, false));
            assert(seq!['\''] + (rest + shell_word(tail, true)) =~= s + shell_word(tail, true));
        } else {
            assert(escaped(seq![c]) =~= seq![c]);
            let q = seq![c] + x;
            assert(escaped(s) + tail == q);
            assert(q.drop_first() =~= x);
            assert(q[0] == c);
            assert(shell_word(q, true) == seq![c] + shell_word(x, true));
            assert(seq![c] + (rest + shell_word(tail, true)) =~= s + shell_word(tail, true));
        }
    }
}

/// A quoted argument reaches the command exactly as given: the shell reads
/// the quoted word back as the text, whatever it holds (backslashes,
/// spaces, `$`, `*` and quotes included).
pub proof fn lemma_quoted_reads_back(s: Seq<char>)
    ensures
        shell_word(quoted(s), false) == s,
{
    let w = quoted(s);
    assert(w[0] == '\'');
    assert(w.drop_first() =~= escaped(s) + seq!['\'']);
    lemma_escaped_reads_back(s, seq!['\'']);
    let end = seq!['\''];
    assert(end[0] == '\'');
    assert(end.drop_first() =~= Seq::<char>::empty());
    assert(shell_word(end.drop_first(), false) == Seq::<char>::empty());
    assert(shell_word(end, true) == Seq::<char>::empty());
    assert(s + Seq::<char>::empty() =~= s);
}

/// A text without a quote is put between the quotes unchanged, every other
/// character (a backslash too) kept once as it is.
pub proof fn lemma_escaped_keeps_what_is_not_a_quote(s: Seq<char>)
    ensures
        !s.contains('\'') ==> escaped(s) == s,
    decreases s.len(),
{
    if s.len() > 0 && !s.contains('\'') {
        assert(s.drop_last().contains('\'') ==> s.contains('\'')) by {
            if s.drop_last().contains('\'') {
                let k = choose|k: int| 0 <= k < s.drop_last().len() && s.drop_last()[k] == '\'';
                assert(s[k] == '\'');
            }
        }
        lemma_escaped_keeps_what_is_not_a_quote(s.drop_last());
        assert(s.last() != '\'') by {
            assert(s[s.len() - 1] == s.last());
        }
        assert(s.drop_last().push(s.last()) == s);
    }
}

/// A name search descends [`SEARCH_DEPTH`] levels below its root, and
/// returns at most as many hits as asked for within the cap.
pub proof fn lemma_find_goes_search_depth_deep(root: Seq<char>, pattern: Seq<char>, hits: u32)
    ensures
        search_names_command(root, pattern, hits) == "find "@ + quoted(root) + " -maxdepth "@ + decimal(
            SEARCH_DEPTH as nat,
        ) + " -name "@ + quoted(pattern) + " -print 2>/dev/null | head -n "@ + decimal(clamped_hits(hits) as nat),
{
    reveal_strlit(" -maxdepth 8 -name ");
    reveal_strlit(" -maxdepth ");
    reveal_strlit(" -name ");
    assert(decimal(SEARCH_DEPTH as nat) == seq![crate::text::digit_char(8)]);
    assert(" -maxdepth 8 -name "@ =~= " -maxdepth "@ + decimal(SEARCH_DEPTH as nat) + " -name "@);
    assert(search_names_command(root, pattern, hits) =~= "find "@ + quoted(root) + " -maxdepth "@ + decimal(
        SEARCH_DEPTH as nat,
    ) + " -name "@ + quoted(pattern) + " -print 2>/dev/null | head -n "@ + decimal(clamped_hits(hits) as nat));
}

/// A search returns as many hits as asked for when that is between one and
/// [`MAX_SEARCH_HITS`]; fewer than one becomes one, more becomes the cap.
pub proof fn lemma_hits_asked_are_kept(hits: u32)
    ensures
        1 <= hits <= MAX_SEARCH_HITS ==> clamped_hits(hits) == hits,
        hits < 1 ==> clamped_hits(hits) == 1,
        hits > MAX_SEARCH_HITS ==> clamped_hits(hits) == MAX_SEARCH_HITS,
        1 <= clamped_hits(hits) <= MAX_SEARCH_HITS,
{
}

/// A log is read for as many lines as asked for when that is between one
/// and [`MAX_LOG_LINES`]; fewer than one becomes one, more becomes the cap.
/// So within the cap, `tail` is handed exactly the count asked for.
pub proof fn lemma_lines_asked_are_kept(path: Seq<char>, lines: u32)
    ensures
        1 <= lines <= MAX_LOG_LINES ==> clamped_lines(lines) == lines,
        lines < 1 ==> clamped_lines(lines) == 1,
        lines > MAX_LOG_LINES ==> clamped_lines(lines) == MAX_LOG_LINES,
        1 <= lines <= MAX_LOG_LINES ==> read_log_command(path, lines) == "tail -n "@ + decimal(lines as nat) + " -- "@
            + quoted(path),
{
}

} // verus!
