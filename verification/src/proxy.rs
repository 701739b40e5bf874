//! The thin stdio relay: recognising its flag and reading Server-Sent Events.
//!
//! The relay itself (stdin, HTTP, stdout) lives outside the library; what it
//! decides about the bytes it carries is here.

use vstd::prelude::*;
use crate::text::{
    char_is_space, chars_between, chars_from, chars_of, decimal, has_prefix, is_blank, is_space,
    owned, push_decimal, push_str, same_text, starts_with_chars, string_of, trim_chars, trimmed,
};

verus! {

/// Started with this flag, the program relays instead of opening a window.
pub const FLAG: &'static str = "--mcp-stdio-proxy";

/// Whether the flag is among the arguments. Matched exactly: a misspelt
/// flag must not silently start the relay.
pub fn requested(args: &[&str]) -> (r: bool)
    ensures
        r == (exists|i: int| 0 <= i < args@.len() && #[trigger] args@[i]@ == FLAG@),
{
    for i in 0..args.len()
        invariant
            forall|j: int| 0 <= j < i ==> #[trigger] args@[j]@ != FLAG@,
    {
        if same_text(args[i], FLAG) {
            return true;
        }
    }
    false
}

/// Where the first line break of `s` is, or its length when it has none.
pub open spec fn next_break(s: Seq<char>) -> nat
    decreases s.len(),
{
    if s.len() == 0 {
        0
    } else if s[0] == '\n' {
        0
    } else {
        1 + next_break(s.drop_first())
    }
}

/// `s` without one trailing carriage return.
pub open spec fn drop_cr(s: Seq<char>) -> Seq<char> {
    if s.len() > 0 && s.last() == '\r' { s.drop_last() } else { s }
}

/// The lines of an event-stream body, as `str::lines` splits them and with
/// one more trailing carriage return dropped from each.
pub open spec fn body_lines(s: Seq<char>) -> Seq<Seq<char>>
    decreases s.len(),
{
    if s.len() == 0 {
        seq![]
    } else {
        let k = next_break(s);
        if k >= s.len() {
            seq![drop_cr(s)]
        } else {
            seq![drop_cr(drop_cr(s.take(k as int)))] + body_lines(s.skip(k as int + 1))
        }
    }
}

/// Parts joined with line breaks between them.
pub open spec fn join_lines(parts: Seq<Seq<char>>) -> Seq<char>
    decreases parts.len(),
{
    if parts.len() == 0 {
        seq![]
    } else if parts.len() == 1 {
        parts[0]
    } else {
        join_lines(parts.drop_last()) + seq!['\n'] + parts.last()
    }
}

/// The event made of the gathered `data:` lines; nothing when it is blank
/// (the server's opening retry frame carries no JSON).
pub open spec fn emit(data: Seq<Seq<char>>) -> Seq<Seq<char>> {
    let joined = join_lines(data);
    if is_blank(joined) { seq![] } else { seq![joined] }
}

/// What follows `data:`, with one leading space dropped.
pub open spec fn data_value(line: Seq<char>) -> Seq<char> {
    let rest = line.skip(5);
    if rest.len() > 0 && rest[0] == ' ' { rest.drop_first() } else { rest }
}

/// The events of the remaining lines, given the `data:` lines gathered so far.
pub open spec fn events_from(lines: Seq<Seq<char>>, data: Seq<Seq<char>>) -> Seq<Seq<char>>
    decreases lines.len(),
{
    if lines.len() == 0 {
        emit(data)
    } else {
        let line = lines[0];
        if line.len() == 0 {
            emit(data) + events_from(lines.drop_first(), seq![])
        } else if has_prefix(line, "data:"@) {
            events_from(lines.drop_first(), data.push(data_value(line)))
        } else {
            events_from(lines.drop_first(), data)
        }
    }
}

/// The JSON messages carried by an event-stream body, in order.
pub open spec fn sse_messages(body: Seq<char>) -> Seq<Seq<char>> {
    events_from(body_lines(body), seq![])
}

proof fn lemma_next_break(s: Seq<char>, k: int)
    requires
        0 <= k <= s.len(),
        forall|j: int| 0 <= j < k ==> s[j] != '\n',
        k == s.len() || s[k] == '\n',
    ensures
        next_break(s) == k,
    decreases s.len(),
{
    if s.len() > 0 && k > 0 {
        assert(forall|j: int| 0 <= j < k - 1 ==> s.drop_first()[j] == s[j + 1]);
        lemma_next_break(s.drop_first(), k - 1);
    }
}

fn drop_cr_exec(v: Vec<char>) -> (r: Vec<char>)
    ensures
        r@ == drop_cr(v@),
{
    let mut v = v;
    if v.len() > 0 && v[v.len() - 1] == '\r' {
        v.pop();
    }
    v
}

fn data_value_exec(line: &Vec<char>) -> (r: Vec<char>)
    requires
        line@.len() >= 5,
    ensures
        r@ == data_value(line@),
{
    if line.len() > 5 && line[5] == ' ' {
        chars_from(line.as_slice(), 6)
    } else {
        chars_from(line.as_slice(), 5)
    }
}

fn join_exec(data: &Vec<Vec<char>>) -> (r: Vec<char>)
    ensures
        r@ == join_lines(data@.map_values(|p: Vec<char>| p@)),
{
    let ghost parts = data@.map_values(|p: Vec<char>| p@);
    let mut out: Vec<char> = Vec::new();
    for i in 0..data.len()
        invariant
            parts == data@.map_values(|p: Vec<char>| p@),
            out@ == join_lines(parts.take(i as int)),
    {
        let ghost before = out@;
        if i > 0 {
            out.push('\n');
        }
        let piece = &data[i];
        for j in 0..piece.len()
            invariant
                out@ == (if i > 0 { before.push('\n') } else { before }) + piece@.take(j as int),
        {
            out.push(piece[j]);
            assert(out@ == (if i > 0 { before.push('\n') } else { before }) + piece@.take(j + 1));
        }
        assert(piece@.take(piece@.len() as int) == piece@);
        proof {
            let t = parts.take(i + 1);
            assert(t.drop_last() == parts.take(i as int));
            assert(t.last() == piece@);
            if i > 0 {
                assert(before.push('\n') == before + seq!['\n']);
            } else {
                assert(t.len() == 1);
                assert(before == Seq::<char>::empty());
            }
        }
    }
    assert(parts.take(data@.len() as int) == parts);
    out
}

fn emit_exec(out: &mut Vec<String>, data: &Vec<Vec<char>>)
    ensures
        final(out)@.map_values(|s: String| s@) == old(out)@.map_values(|s: String| s@) + emit(
            data@.map_values(|p: Vec<char>| p@),
        ),
{
    let joined = join_exec(data);
    let mut all_space = true;
    for i in 0..joined.len()
        invariant
            all_space == (forall|j: int| 0 <= j < i ==> is_space(#[trigger] joined@[j])),
    {
        if !char_is_space(joined[i]) {
            all_space = false;
        }
    }
    let ghost before = out@.map_values(|s: String| s@);
    if !all_space {
        let s = string_of(joined.as_slice());
        out.push(s);
        assert(out@.map_values(|s: String| s@) == before.push(joined@));
    } else {
        assert(out@.map_values(|s: String| s@) == before + Seq::<Seq<char>>::empty());
    }
}

/// Takes the JSON messages out of a Server-Sent Events body.
///
/// Several `data:` lines of one event are joined with line breaks; blank
/// events, `event:`/`id:`/`retry:` fields and comments do not reach the output;
/// a last event without a closing blank line is still returned.
pub fn parse_sse(body: &str) -> (messages: Vec<String>)
    ensures
        messages@.map_values(|s: String| s@) == sse_messages(body@),
{
    let chars = chars_of(body);
    let n = chars.len();
    let mut out: Vec<String> = Vec::new();
    let mut data: Vec<Vec<char>> = Vec::new();
    let mut pos: usize = 0;
    let ghost total = sse_messages(body@);
    proof {
        assert(chars@.skip(0) == chars@);
        assert(out@.map_values(|s: String| s@) == Seq::<Seq<char>>::empty());
        assert(data@.map_values(|p: Vec<char>| p@) == Seq::<Seq<char>>::empty());
        assert(total == Seq::<Seq<char>>::empty() + total);
    }
    while pos < n
        invariant
            n == chars@.len(),
            chars@ == body@,
            pos <= n,
            total == sse_messages(body@),
            total == out@.map_values(|s: String| s@) + events_from(
                body_lines(chars@.skip(pos as int)),
                data@.map_values(|p: Vec<char>| p@),
            ),
        decreases n - pos,
    {
        let ghost rest = chars@.skip(pos as int);
        let mut k = pos;
        while k < n && chars[k] != '\n'
            invariant
                pos <= k <= n,
                n == chars@.len(),
                forall|j: int| pos <= j < k ==> chars@[j] != '\n',
            decreases n - k,
        {
            k += 1;
        }
        proof {
            assert forall|j: int| 0 <= j < k - pos implies rest[j] != '\n' by {
                assert(rest[j] == chars@[pos + j]);
            }
            lemma_next_break(rest, k - pos);
        }
        let piece = chars_between(chars.as_slice(), pos, k);
        assert(piece@ == rest.take(k - pos));
        let line = if k < n {
            drop_cr_exec(drop_cr_exec(piece))
        } else {
            drop_cr_exec(piece)
        };
        proof {
            if k < n {
                assert(rest.skip(k - pos + 1) == chars@.skip(k + 1));
                assert(body_lines(rest) == seq![line@] + body_lines(chars@.skip(k + 1)));
            } else {
                assert(rest.take(k - pos) == rest);
                assert(body_lines(rest) == seq![line@]);
                assert(chars@.skip(n as int) == Seq::<char>::empty());
                assert(body_lines(chars@.skip(n as int)) == Seq::<Seq<char>>::empty());
                assert(seq![line@] == seq![line@] + Seq::<Seq<char>>::empty());
            }
        }
        let ghost lines = body_lines(rest);
        let ghost cur = data@.map_values(|p: Vec<char>| p@);
        let ghost before = out@.map_values(|s: String| s@);
        assert(lines[0] == line@);
        assert(lines.drop_first() == body_lines(chars@.skip(if k < n { k + 1 } else { n as int })));
        if line.len() == 0 {
            emit_exec(&mut out, &data);
            data = Vec::new();
            assert(data@.map_values(|p: Vec<char>| p@) == Seq::<Seq<char>>::empty());
        } else {
            let prefix = ['d', 'a', 't', 'a', ':'];
            proof {
                reveal_strlit("data:");
                assert(prefix@ =~= "data:"@);
            }
            if starts_with_chars(line.as_slice(), &prefix) {
                let value = data_value_exec(&line);
                data.push(value);
                assert(data@.map_values(|p: Vec<char>| p@) == cur.push(data_value(line@)));
            }
        }
        pos = if k < n { k + 1 } else { n };
    }
    assert(chars@.skip(n as int) == Seq::<char>::empty());
    emit_exec(&mut out, &data);
    out
}

// --- JSON-RPC around the relay ------------------------------------------

/// The JSON-RPC version every reply carries.
pub const JSONRPC_VERSION: &'static str = "2.0";

/// The error code of a reply the relay makes itself: the range JSON-RPC
/// leaves to the server's own errors.
pub const RELAY_ERROR_CODE: i64 = -32000;

/// What the person reads when the app is not running.
pub const NOT_RUNNING: &'static str = "sshboard が動いていません。アプリを起動してから、もう一度お試しください。";

/// What the person reads when the token cannot be found.
pub const NO_TOKEN: &'static str = "sshboard の合言葉が見つかりません。アプリを一度起動すると作られます。";

/// The JSON text serde_json writes for member `key` of `line` read as JSON:
/// none when the line is not JSON or has no such member. It depends on the
/// two texts alone.
pub uninterp spec fn json_member_text(line: Seq<char>, key: Seq<char>) -> Option<Seq<char>>;

/// `serde_json::from_str` into a `Value`, then `Value::get` of the member
/// `key`, written back as JSON text by `Value`'s `Display`: the member as
/// JSON text, or none when the line is not JSON or has no such member.
#[verifier::external_body]
fn member_text(line: &str, key: &str) -> (r: Option<String>)
    ensures
        match r {
            Some(t) => json_member_text(line@, key@) == Some(t@),
            None => json_member_text(line@, key@) is None,
        },
{
    let value: serde_json::Value = serde_json::from_str(line).ok()?;
    let member = value.get(key)?;
    Some(member.to_string())
}

/// A hexadecimal digit as serde_json writes it (lower case).
pub open spec fn hex_digit(d: int) -> char {
    seq!['0', '1', '2', '3', '4', '5', '6', '7', '8', '9', 'a', 'b', 'c', 'd', 'e', 'f'][d]
}

/// One character inside a JSON string as serde_json writes it: the quote,
/// the backslash and the control characters below U+0020 are escaped (the
/// common ones by letter, the rest as `\u00XX`); everything else is itself.
pub open spec fn json_char(c: char) -> Seq<char> {
    if c == '"' {
        seq!['\\', '"']
    } else if c == '\\' {
        seq!['\\', '\\']
    } else if c == '\u{8}' {
        seq!['\\', 'b']
    } else if c == '\t' {
        seq!['\\', 't']
    } else if c == '\n' {
        seq!['\\', 'n']
    } else if c == '\u{c}' {
        seq!['\\', 'f']
    } else if c == '\r' {
        seq!['\\', 'r']
    } else if (c as int) < 0x20 {
        seq!['\\', 'u', '0', '0', hex_digit((c as int) / 16), hex_digit((c as int) % 16)]
    } else {
        seq![c]
    }
}

/// The characters of a text inside a JSON string, each as `json_char` writes it.
pub open spec fn json_escaped(s: Seq<char>) -> Seq<char>
    decreases s.len(),
{
    if s.len() == 0 {
        seq![]
    } else {
        json_escaped(s.drop_last()) + json_char(s.last())
    }
}

/// The JSON string literal serde_json writes for a text: the text quoted,
/// with `json_char`'s escapes.
pub open spec fn json_quoted(text: Seq<char>) -> Seq<char> {
    seq!['"'] + json_escaped(text) + seq!['"']
}

/// `Value::from` on a text, written by `Value`'s `Display`: serde_json's
/// string serializer quotes the text and escapes it by its table of escapes.
#[verifier::external_body]
fn quoted(text: &str) -> (r: String)
    ensures
        r@ == json_quoted(text@),
{
    serde_json::Value::from(text).to_string()
}

/// The `id` of a JSON-RPC line, as JSON text: the member `id` of the line,
/// unless it is `null`. A reply must carry the same one or the other side
/// waits for ever. A line that is not JSON, and a notification (no `id`, or
/// a `null` one), give none. (`Value` writes `null` only for a JSON null.)
pub open spec fn id_of(line: Seq<char>) -> Option<Seq<char>> {
    match json_member_text(line, "id"@) {
        Some(t) => if t == "null"@ { None } else { Some(t) },
        None => None,
    }
}

/// The `id` of a JSON-RPC line, as JSON text.
pub fn request_id(line: &str) -> (r: Option<String>)
    ensures
        match r {
            Some(t) => id_of(line@) == Some(t@),
            None => id_of(line@) is None,
        },
{
    let member = member_text(line, "id")?;
    if same_text(member.as_str(), "null") {
        None
    } else {
        Some(member)
    }
}

/// The text of the JSON-RPC error reply for request `id` (JSON text) with
/// this message: `{"error":{"code":-32000,"message":...},"id":...,"jsonrpc":"2.0"}`,
/// its keys in the order serde_json keeps them.
pub open spec fn rpc_error_body(id: Seq<char>, message: Seq<char>) -> Seq<char> {
    "{\"error\":{\"code\":"@ + "-"@ + decimal((0 - RELAY_ERROR_CODE) as nat) + ",\"message\":"@ + json_quoted(message)
        + "},\"id\":"@ + id + ",\"jsonrpc\":\""@ + JSONRPC_VERSION@ + "\"}"@
}

/// The error reply for a request, so the relay never dies silently. A
/// notification (no `id`) gets no reply: the protocol forbids one.
pub fn error_response(id: Option<String>, message: &str) -> (r: Option<String>)
    ensures
        match id {
            Some(i) => r matches Some(t) && t@ == rpc_error_body(i@, message@),
            None => r is None,
        },
{
    let id = id?;
    let mut t = owned("{\"error\":{\"code\":");
    push_str(&mut t, "-");
    push_decimal(&mut t, (0 - RELAY_ERROR_CODE) as u64);
    push_str(&mut t, ",\"message\":");
    let q = quoted(message);
    push_str(&mut t, q.as_str());
    push_str(&mut t, "},\"id\":");
    push_str(&mut t, id.as_str());
    push_str(&mut t, ",\"jsonrpc\":\"");
    push_str(&mut t, JSONRPC_VERSION);
    push_str(&mut t, "\"}");
    Some(t)
}

/// What the relay makes of a reply's status and the session it offers: a
/// 401 means the app no longer takes the token, and the request is answered
/// with that refusal; otherwise a session the app hands out is kept for the
/// next requests. Says whether the token was refused.
pub fn reply_status(status: u16, offered: Option<String>, session: &mut Option<String>) -> (stale: bool)
    ensures
        stale == (status == 401),
        stale ==> *final(session) == *old(session),
        !stale ==> *final(session) == match offered {
            Some(o) => Some(o),
            None => *old(session),
        },
{
    if status == 401 {
        return true;
    }
    if let Some(o) = offered {
        *session = Some(o);
    }
    false
}

// --- What the relay sends and writes back --------------------------------

/// The path the app serves MCP at.
pub const MCP_PATH: &'static str = "/mcp";

/// What the person reads when the app no longer takes the token.
pub const STALE_TOKEN: &'static str = "sshboard の合言葉が合いません。アプリを再起動してください。";

/// What the person reads when the reply could not be read.
pub const UNREADABLE_REPLY: &'static str = "返事を読めませんでした。";

/// The address the relay posts to: loopback only, on the given port.
pub fn relay_url(port: u16) -> (u: String)
    ensures
        u@ == "http://127.0.0.1:"@ + decimal(port as nat) + "/mcp"@,
{
    let mut u = owned("http://127.0.0.1:");
    push_decimal(&mut u, port as u64);
    push_str(&mut u, MCP_PATH);
    u
}

/// The `Authorization` header value for the token.
pub fn bearer(token: &str) -> (h: String)
    ensures
        h@ == "Bearer "@ + token@,
{
    let mut h = owned("Bearer ");
    push_str(&mut h, token);
    h
}

/// Whether a reply is a stream of Server-Sent Events, by its content type.
pub fn is_event_stream(content_type: Option<&str>) -> (b: bool)
    ensures
        b == (content_type matches Some(t) && has_prefix(t@, "text/event-stream"@)),
{
    match content_type {
        Some(t) => {
            let chars = chars_of(t);
            let prefix = chars_of("text/event-stream");
            starts_with_chars(chars.as_slice(), prefix.as_slice())
        },
        None => false,
    }
}

/// A line read from the client, trimmed; an empty one is skipped.
pub fn request_line(raw: &str) -> (r: Option<String>)
    ensures
        trimmed(raw@).len() == 0 ==> r is None,
        trimmed(raw@).len() > 0 ==> (r matches Some(s) && s@ == trimmed(raw@)),
{
    let chars = chars_of(raw);
    let kept = trim_chars(chars.as_slice());
    if kept.len() == 0 {
        None
    } else {
        Some(string_of(kept.as_slice()))
    }
}

/// What the relay writes back for a reply body: nothing for an empty one (a
/// notification is answered with an empty body), each JSON message of an
/// event stream, or the body itself, trimmed.
pub fn reply_messages(is_sse: bool, body: &str) -> (r: Vec<String>)
    ensures
        trimmed(body@).len() == 0 ==> r@.len() == 0,
        (trimmed(body@).len() > 0 && is_sse) ==> r@.map_values(|s: String| s@) == sse_messages(body@),
        (trimmed(body@).len() > 0 && !is_sse) ==> (r@.len() == 1 && r@[0]@ == trimmed(body@)),
{
    let chars = chars_of(body);
    let kept = trim_chars(chars.as_slice());
    if kept.len() == 0 {
        return Vec::new();
    }
    if is_sse {
        parse_sse(body)
    } else {
        let mut r: Vec<String> = Vec::new();
        r.push(string_of(kept.as_slice()));
        r
    }
}

} // verus!
