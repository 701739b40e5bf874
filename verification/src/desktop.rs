//! Decisions the desktop shell makes before it hands work to the engine:
//! which port the MCP endpoint listens on, which names may land in a local
//! directory, how remote paths are joined, and the plain values the screen
//! receives.

use vstd::prelude::*;
use crate::band::Actor;
use crate::connections::{Connections, entries_view, has_id, password_set_entries, unknown_connection_message};
use crate::secrets::{SecretStore, StoreCall};
use crate::text::{
    blank, chars_of, is_blank, owned, parse_u16, push_char, push_chars, push_str,
    string_of, trim_chars, trimmed, u16_text,
};

verus! {

/// The fixed MCP port; registering the agent once is enough.
pub const DEFAULT_MCP_PORT: u16 = 22022;

/// The environment variable a person sets to move the port.
pub const PORT_ENV: &'static str = "SSHBOARD_MCP_PORT";

/// The message when the variable does not hold a port number.
pub open spec fn unreadable_port(trimmed_text: Seq<char>) -> Seq<char> {
    "SSHBOARD_MCP_PORT の値を番号として読めません: "@ + trimmed_text
}

/// The port that the value of the variable asks for.
pub open spec fn port_for(raw: Option<Seq<char>>) -> Result<u16, Seq<char>> {
    match raw {
        None => Ok(DEFAULT_MCP_PORT),
        Some(text) => {
            let t = trimmed(text);
            if t.len() == 0 {
                Ok(DEFAULT_MCP_PORT)
            } else {
                match u16_text(t) {
                    Some(port) => Ok(port),
                    None => Err(unreadable_port(t)),
                }
            }
        },
    }
}

/// Decides the port from the variable's value: unset or blank means the
/// fixed port, a number is used as given (zero included: the OS picks), and
/// anything else is refused with the reason rather than silently ignored.
pub fn resolve_port(raw: Option<&str>) -> (r: Result<u16, String>)
    ensures
        match r {
            Ok(p) => port_for(match raw { None => None, Some(t) => Some(t@) }) == Ok::<u16, Seq<char>>(p),
            Err(e) => port_for(match raw { None => None, Some(t) => Some(t@) }) == Err::<u16, Seq<char>>(e@),
        },
{
    let Some(raw) = raw else {
        return Ok(DEFAULT_MCP_PORT);
    };
    let chars = chars_of(raw);
    let t = trim_chars(chars.as_slice());
    if t.len() == 0 {
        return Ok(DEFAULT_MCP_PORT);
    }
    match parse_u16(t.as_slice()) {
        Some(port) => Ok(port),
        None => {
            let mut message = owned("SSHBOARD_MCP_PORT の値を番号として読めません: ");
            push_chars(&mut message, t.as_slice());
            Err(message)
        },
    }
}

/// Whether the text contains the character.
pub open spec fn has_char(s: Seq<char>, c: char) -> bool {
    exists|i: int| 0 <= i < s.len() && s[i] == c
}

/// A name a server gave for a file that may land directly inside the chosen
/// local directory: one non-blank path segment that cannot climb out.
pub open spec fn is_safe_local_name(name: Seq<char>) -> bool {
    &&& !is_blank(name)
    &&& name != "."@
    &&& name != ".."@
    &&& !has_char(name, '/')
    &&& !has_char(name, '\\')
    &&& !has_char(name, '\0')
}

/// The refusal for a name that may not land locally.
pub open spec fn unsafe_name_message(name: Seq<char>) -> Seq<char> {
    "手元へ落とせない名前です: "@ + name
}

/// Accepts a server-given name only as one segment directly below the
/// chosen directory; `..`, separators and NUL are refused.
pub fn safe_local_name(name: &str) -> (r: Result<&str, String>)
    ensures
        is_safe_local_name(name@) ==> r == Ok::<&str, String>(name),
        !is_safe_local_name(name@) ==> (r matches Err(e) && e@ == unsafe_name_message(name@)),
{
    let chars = chars_of(name);
    let mut separator = false;
    for i in 0..chars.len()
        invariant
            chars@ == name@,
            separator == (exists|j: int|
                0 <= j < i && (chars@[j] == '/' || chars@[j] == '\\' || chars@[j] == '\0')),
    {
        if chars[i] == '/' || chars[i] == '\\' || chars[i] == '\0' {
            separator = true;
        }
    }
    proof {
        reveal_strlit(".");
        reveal_strlit("..");
        if separator {
            let j = choose|j: int|
                0 <= j < chars@.len() && (chars@[j] == '/' || chars@[j] == '\\' || chars@[j] == '\0');
            assert(has_char(name@, chars@[j]));
        } else {
            if has_char(name@, '/') {
                let j = choose|j: int| 0 <= j < name@.len() && name@[j] == '/';
                assert(chars@[j] == '/');
            }
            if has_char(name@, '\\') {
                let j = choose|j: int| 0 <= j < name@.len() && name@[j] == '\\';
                assert(chars@[j] == '\\');
            }
            if has_char(name@, '\0') {
                let j = choose|j: int| 0 <= j < name@.len() && name@[j] == '\0';
                assert(chars@[j] == '\0');
            }
        }
    }
    let dot = chars.len() == 1 && chars[0] == '.';
    let dots = chars.len() == 2 && chars[0] == '.' && chars[1] == '.';
    proof {
        assert(dot == (name@ == "."@)) by {
            if name@ == "."@ {
                assert(chars@.len() == 1 && chars@[0] == '.');
            }
            if dot {
                assert(name@ =~= "."@);
            }
        }
        assert(dots == (name@ == ".."@)) by {
            if name@ == ".."@ {
                assert(chars@.len() == 2 && chars@[0] == '.' && chars@[1] == '.');
            }
            if dots {
                assert(name@ =~= ".."@);
            }
        }
    }
    if !blank(name) && !dot && !dots && !separator {
        Ok(name)
    } else {
        let mut message = owned("手元へ落とせない名前です: ");
        push_str(&mut message, name);
        Err(message)
    }
}

/// `dir` with every trailing `/` removed (`str::trim_end_matches('/')`).
pub open spec fn without_trailing_slashes(dir: Seq<char>) -> Seq<char>
    decreases dir.len(),
{
    if dir.len() > 0 && dir.last() == '/' {
        without_trailing_slashes(dir.drop_last())
    } else {
        dir
    }
}

/// A remote directory and a name joined with exactly one `/`.
pub open spec fn joined_remote(dir: Seq<char>, name: Seq<char>) -> Seq<char> {
    without_trailing_slashes(dir) + seq!['/'] + name
}

/// Joining never doubles the separator: the joined path is the directory
/// without its trailing `/`, one `/`, then the name; the character before
/// that `/` is not another `/`; and the directory is a prefix of what it was.
pub proof fn lemma_join_never_doubles(dir: Seq<char>, name: Seq<char>)
    ensures
        ({
            let d = without_trailing_slashes(dir);
            let j = joined_remote(dir, name);
            &&& j[d.len() as int] == '/'
            &&& j.skip((d.len() + 1) as int) == name
            &&& d.len() > 0 ==> j[d.len() - 1] != '/'
            &&& d.len() <= dir.len() && dir.take(d.len() as int) == d
        }),
    decreases dir.len(),
{
    if dir.len() > 0 && dir.last() == '/' {
        lemma_join_never_doubles(dir.drop_last(), name);
        let d = without_trailing_slashes(dir);
        assert(dir.drop_last().take(d.len() as int) == dir.take(d.len() as int));
    } else {
        assert(dir.take(dir.len() as int) == dir);
    }
    let d = without_trailing_slashes(dir);
    let j = joined_remote(dir, name);
    assert(j.skip((d.len() + 1) as int) =~= name);
    assert(j[d.len() as int] == '/');
    if d.len() > 0 {
        assert(j[d.len() - 1] == d.last());
    }
}

/// Joins a remote directory and a file name without doubling the separator.
pub fn join_remote(dir: &str, name: &str) -> (r: String)
    ensures
        r@ == joined_remote(dir@, name@),
{
    let chars = chars_of(dir);
    let mut end = chars.len();
    assert(chars@.take(end as int) == chars@);
    while end > 0 && chars[end - 1] == '/'
        invariant
            end <= chars@.len(),
            chars@ == dir@,
            without_trailing_slashes(dir@) == without_trailing_slashes(chars@.take(end as int)),
        decreases end,
    {
        assert(chars@.take(end as int).drop_last() == chars@.take(end - 1));
        end -= 1;
    }
    proof {
        assert(chars@.take(chars@.len() as int) == chars@);
    }
    let kept = crate::text::chars_between(chars.as_slice(), 0, end);
    assert(kept@ == chars@.take(end as int));
    let mut out = string_of(kept.as_slice());
    push_char(&mut out, '/');
    push_str(&mut out, name);
    out
}

/// The name the screen uses for whoever holds the console.
pub open spec fn holder_label(holder: Option<Actor>) -> Option<Seq<char>> {
    match holder {
        None => None,
        Some(Actor::Human) => Some("human"@),
        Some(Actor::Ai) => Some("ai"@),
    }
}

/// Who holds the console, as the screen names it.
pub fn holder_name(holder: Option<Actor>) -> (r: Option<&'static str>)
    ensures
        match r {
            None => holder_label(holder) == None::<Seq<char>>,
            Some(t) => holder_label(holder) == Some(t@),
        },
{
    match holder {
        None => None,
        Some(Actor::Human) => Some("human"),
        Some(Actor::Ai) => Some("ai"),
    }
}

// --- Reading a version out of a JSON file we write ourselves --------------

/// Where `p` first occurs in `s`.
pub open spec fn first_match(s: Seq<char>, p: Seq<char>) -> Option<nat>
    decreases s.len(),
{
    if p.len() > s.len() {
        None
    } else if s.take(p.len() as int) == p {
        Some(0)
    } else if s.len() == 0 {
        None
    } else {
        match first_match(s.drop_first(), p) {
            Some(k) => Some(k + 1),
            None => None,
        }
    }
}

/// Where the text goes on after the first `p` in `s` from `from` on.
pub open spec fn past(s: Seq<char>, p: Seq<char>, from: int) -> Option<int> {
    match first_match(s.skip(from), p) {
        Some(k) => Some(from + k + p.len()),
        None => None,
    }
}

/// The string value written after the first `"key"`: past the next `:`,
/// between the next two `"`. A plain reading of a file whose shape is
/// ours, not a JSON parser.
pub open spec fn top_level_string(raw: Seq<char>, key: Seq<char>) -> Option<Seq<char>> {
    match past(raw, seq!['"'] + key + seq!['"'], 0) {
        None => None,
        Some(a) => match past(raw, seq![':'], a) {
            None => None,
            Some(b) => match past(raw, seq!['"'], b) {
                None => None,
                Some(c) => match first_match(raw.skip(c), seq!['"']) {
                    None => None,
                    Some(d) => Some(raw.subrange(c, c + d)),
                },
            },
        },
    }
}

/// A match found fits inside the text.
proof fn lemma_first_match_fits(s: Seq<char>, p: Seq<char>)
    ensures
        first_match(s, p) matches Some(k) ==> k + p.len() <= s.len(),
    decreases s.len(),
{
    if p.len() <= s.len() && s.take(p.len() as int) != p && s.len() > 0 {
        lemma_first_match_fits(s.drop_first(), p);
    }
}

/// Whether `needle` occurs in `hay` at `at`.
fn occurs_at(hay: &Vec<char>, needle: &Vec<char>, at: usize) -> (r: bool)
    requires
        at + needle@.len() <= hay@.len(),
    ensures
        r == (hay@.skip(at as int).take(needle@.len() as int) == needle@),
{
    let n = needle.len();
    let hl = hay.len();
    for k in 0..n
        invariant
            n == needle@.len(),
            hl == hay@.len(),
            at + n <= hl,
            forall|j: int| 0 <= j < k ==> hay@[at + j] == needle@[j],
    {
        assert(at + k < hay@.len());
        if hay[at + k] != needle[k] {
            assert(hay@.skip(at as int).take(n as int)[k as int] != needle@[k as int]);
            return false;
        }
    }
    assert(hay@.skip(at as int).take(n as int) =~= needle@);
    true
}

/// Where the text goes on after the first `needle` in `hay` from `from` on.
fn skip_past(hay: &Vec<char>, needle: &Vec<char>, from: usize) -> (r: Option<usize>)
    requires
        from <= hay@.len(),
    ensures
        match past(hay@, needle@, from as int) {
            Some(e) => r matches Some(x) && x as int == e && e <= hay@.len(),
            None => r is None,
        },
{
    let ghost rest = hay@.skip(from as int);
    let mut i = from;
    assert(hay@.skip(from as int) == rest.skip(0));
    while i <= hay.len()
        invariant
            from <= i <= hay@.len(),
            rest == hay@.skip(from as int),
            first_match(rest, needle@) == match first_match(hay@.skip(i as int), needle@) {
                Some(k) => Some((k + (i - from)) as nat),
                None => None::<nat>,
            },
        decreases hay@.len() - i,
    {
        if needle.len() > hay.len() - i {
            return None;
        }
        if occurs_at(hay, needle, i) {
            proof {
                lemma_first_match_fits(rest, needle@);
            }
            return Some(i + needle.len());
        }
        if i == hay.len() {
            assert(needle@.len() == 0);
            assert(hay@.skip(i as int).take(0) =~= needle@);
            return None;
        }
        assert(hay@.skip(i as int).drop_first() == hay@.skip(i + 1));
        i += 1;
    }
    None
}

/// Reads the string value of `key` out of a JSON file we write ourselves
/// (the version in the app's manifests): the first `"key"`, the next `:`,
/// and the text between the next two `"`.
pub fn json_top_level_string(raw: &str, key: &str) -> (r: Option<String>)
    ensures
        match top_level_string(raw@, key@) {
            Some(v) => r matches Some(s) && s@ == v,
            None => r is None,
        },
{
    let hay = chars_of(raw);
    let mut needle: Vec<char> = Vec::new();
    needle.push('"');
    let k = chars_of(key);
    for i in 0..k.len()
        invariant
            needle@ == seq!['"'] + k@.take(i as int),
    {
        needle.push(k[i]);
        assert(k@.take(i + 1) == k@.take(i as int).push(k@[i as int]));
    }
    needle.push('"');
    assert(k@.take(k@.len() as int) == k@);
    assert(needle@ == seq!['"'] + key@ + seq!['"']);
    let colon = vec![':'];
    let quote = vec!['"'];
    assert(colon@ == seq![':']);
    assert(quote@ == seq!['"']);
    let ghost h = hay@;
    assert(h == raw@);
    let a = match skip_past(&hay, &needle, 0) {
        Some(a) => a,
        None => {
            assert(past(raw@, seq!['"'] + key@ + seq!['"'], 0) is None);
            return None;
        },
    };
    assert(past(raw@, seq!['"'] + key@ + seq!['"'], 0) == Some(a as int));
    let b = match skip_past(&hay, &colon, a) {
        Some(b) => b,
        None => {
            assert(past(raw@, seq![':'], a as int) is None);
            return None;
        },
    };
    assert(past(raw@, seq![':'], a as int) == Some(b as int));
    let c = match skip_past(&hay, &quote, b) {
        Some(c) => c,
        None => {
            assert(past(raw@, seq!['"'], b as int) is None);
            return None;
        },
    };
    assert(past(raw@, seq!['"'], b as int) == Some(c as int));
    let e = match skip_past(&hay, &quote, c) {
        Some(e) => e,
        None => {
            assert(first_match(raw@.skip(c as int), seq!['"']) is None);
            return None;
        },
    };
    let ghost d = first_match(raw@.skip(c as int), seq!['"'])->0;
    assert(e == c + d + 1);
    let value = crate::text::chars_between(hay.as_slice(), c, e - 1);
    assert(value@ == raw@.subrange(c as int, c + d));
    Some(string_of(value.as_slice()))
}

// --- What the connection screen changes ----------------------------------

/// The credential-store name a connection's login password is kept under.
pub open spec fn password_reference(id: Seq<char>) -> Seq<char> {
    "password:"@ + id
}

/// The refusal when the store does not take the password.
pub open spec fn store_refusal(detail: Seq<char>) -> Seq<char> {
    "OS の資格情報ストアへ預けられません: "@ + "OS の資格情報ストアが使えません: "@ + detail
}

/// Keeps a connection's login password in the OS credential store, or,
/// given an empty one, removes it; then gives back the list with the
/// connection referring to it (or to none). The list only ever holds the
/// name, never the password. An unknown connection is refused before the
/// store is touched; a password the store does not take leaves the list as
/// it was. A failed removal does not stop the reference from being cleared,
/// since a reference to nothing would make connecting fail later.
pub fn store_password(
    connections: &Connections,
    id: &str,
    password: &str,
    store: &mut SecretStore,
) -> (r: Result<Connections, String>)
    ensures
        final(store).service_name() == old(store).service_name(),
        !has_id(entries_view(connections.connections@), id@) ==> final(store).calls() == old(store).calls(),
        (has_id(entries_view(connections.connections@), id@) && password@.len() == 0) ==> exists|done: bool|
            final(store).calls() == old(store).calls().push(
                StoreCall::Delete { reference: password_reference(id@), done },
            ),
        (has_id(entries_view(connections.connections@), id@) && password@.len() > 0) ==> final(store).calls()
            == old(store).calls().push(
            StoreCall::Put { reference: password_reference(id@), secret: password@, done: r is Ok },
        ),
        !has_id(entries_view(connections.connections@), id@) ==> (r matches Err(m) && m@
            == unknown_connection_message(id@)),
        (has_id(entries_view(connections.connections@), id@) && password@.len() == 0) ==> (r matches Ok(
            c,
        ) && c.version == connections.version && entries_view(c.connections@) == password_set_entries(
            entries_view(connections.connections@),
            id@,
            None,
        )),
        (has_id(entries_view(connections.connections@), id@) && password@.len() > 0) ==> match r {
            Ok(c) => c.version == connections.version && entries_view(c.connections@)
                == password_set_entries(
                entries_view(connections.connections@),
                id@,
                Some(password_reference(id@)),
            ),
            Err(m) => exists|detail: Seq<char>| m@ == store_refusal(detail),
        },
{
    let mut reference = owned("password:");
    push_str(&mut reference, id);
    if !connections.contains(id) {
        let mut m = owned("そんな接続はありません: ");
        push_str(&mut m, id);
        return Err(m);
    }
    if chars_of(password).len() == 0 {
        let _ = store.delete(reference.as_str());
        connections.with_password_ref(id, None)
    } else {
        match store.put(reference.as_str(), password) {
            Ok(()) => connections.with_password_ref(id, Some(reference)),
            Err(error) => {
                let mut m = owned("OS の資格情報ストアへ預けられません: ");
                let text = error.message();
                push_str(&mut m, text.as_str());
                proof {
                    let d = error->Store_0@;
                    assert(m@ == store_refusal(d));
                }
                Err(m)
            },
        }
    }
}

/// The band line for a connection saved from the screen: only its
/// identifier, never where it points.
pub fn saved_record(id: &str, existed: bool) -> (t: String)
    ensures
        t@ == (if existed {
            "更新した"@
        } else {
            "登録した"@
        }) + " 接続: "@ + id@,
{
    let mut t = if existed {
        owned("更新した")
    } else {
        owned("登録した")
    };
    push_str(&mut t, " 接続: ");
    push_str(&mut t, id);
    t
}

/// The band line for a connection deleted from the screen.
pub fn deleted_record(id: &str) -> (t: String)
    ensures
        t@ == "消した接続: "@ + id@,
{
    let mut t = owned("消した接続: ");
    push_str(&mut t, id);
    t
}

/// The band line for a login password kept or removed: the identifier only.
pub fn password_record(id: &str, removed: bool) -> (t: String)
    ensures
        t@ == "接続 `"@ + id@ + (if removed {
            "` のパスワードを消しました"@
        } else {
            "` のパスワードを預かりました"@
        }),
{
    let mut t = owned("接続 `");
    push_str(&mut t, id);
    if removed {
        push_str(&mut t, "` のパスワードを消しました");
    } else {
        push_str(&mut t, "` のパスワードを預かりました");
    }
    t
}

/// The token the relay and the app use: one pinned in the environment when
/// it is not blank (taken as it is), else the one kept in the file, trimmed,
/// when something is left.
pub open spec fn chosen_token(pinned: Option<Seq<char>>, held: Option<Seq<char>>) -> Option<Seq<char>> {
    match pinned {
        Some(p) if !is_blank(p) => Some(p),
        _ => match held {
            Some(h) => if trimmed(h).len() > 0 {
                Some(trimmed(h))
            } else {
                None
            },
            None => None,
        },
    }
}

/// Chooses the token from what the environment pins and what the file holds.
pub fn choose_token(pinned: Option<&str>, held: Option<&str>) -> (r: Option<String>)
    ensures
        match chosen_token(
            match pinned {
                Some(p) => Some(p@),
                None => None,
            },
            match held {
                Some(h) => Some(h@),
                None => None,
            },
        ) {
            Some(t) => r matches Some(s) && s@ == t,
            None => r is None,
        },
{
    if let Some(p) = pinned {
        if !blank(p) {
            return Some(owned(p));
        }
    }
    match held {
        Some(h) => {
            let chars = chars_of(h);
            let kept = trim_chars(chars.as_slice());
            if kept.len() > 0 {
                Some(string_of(kept.as_slice()))
            } else {
                None
            }
        },
        None => None,
    }
}

/// The refusal when no connection was ticked for export.
pub const NOTHING_TICKED: &'static str = "書き出す接続が選ばれていません";

/// The band line for an export: how many connections, never which hosts.
pub fn exported_record(count: usize) -> (t: String)
    ensures
        t@ == "接続を "@ + crate::text::decimal(count as nat) + " 件、暗号化して書き出しました"@,
{
    let mut t = owned("接続を ");
    crate::text::push_decimal(&mut t, count as u64);
    push_str(&mut t, " 件、暗号化して書き出しました");
    t
}

/// The band line for an import: how many connections came in.
pub fn imported_record(count: usize) -> (t: String)
    ensures
        t@ == "接続を "@ + crate::text::decimal(count as nat) + " 件、取り込みました"@,
{
    let mut t = owned("接続を ");
    crate::text::push_decimal(&mut t, count as u64);
    push_str(&mut t, " 件、取り込みました");
    t
}

} // verus!
