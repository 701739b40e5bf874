//! Handing connections to another machine as one file sealed with a
//! passphrase, and the steps around it: which secrets go in, where they go
//! back, and what is undone when putting them back fails.
//!
//! The cryptography is `age`'s (scrypt and ChaCha20-Poly1305); none is written here.

use vstd::prelude::*;
use crate::connections::{
    ConnectionEntry, Connections, EntryView, entries_view, has_id, position_of, lemma_position,
    opt_view, refs_of, texts_view,
};
use crate::text::{chars_of, decimal, less_text, owned, push_str, same_text, text_less};

verus! {

#[verifier::external_type_specification]
#[verifier::external_body]
pub struct ExIoError(std::io::Error);

#[verifier::external_type_specification]
#[verifier::external_body]
pub struct ExJsonError(serde_json::Error);

/// The version of the contents this build reads and writes.
pub const BUNDLE_VERSION: u32 = 1;

/// The shortest passphrase accepted when writing: a floor against an empty
/// or mistyped one, not a measure of strength. Reading does not check it.
pub const MIN_PASSPHRASE_LEN: usize = 8;

/// The file extension; the contents are `age` ciphertext.
pub const BUNDLE_EXTENSION: &'static str = "sshbx";

/// Why a bundle could not be written or read, split where the next step of
/// the person differs.
#[derive(Debug)]
pub enum BundleError {
    /// Too short a passphrase (empty included); refused before writing.
    WeakPassphrase,
    /// The contents could not be turned into JSON.
    Serialize(serde_json::Error),
    /// The passphrase does not open it; retype it.
    IncorrectPassphrase,
    /// Broken, cut short or altered; ask for it again.
    Corrupt,
    /// A version this build does not know.
    UnsupportedVersion(u32),
    /// It opened, but the contents are not sshboard's.
    Parse(serde_json::Error),
    /// Reading or writing failed.
    Io(std::io::Error),
}

/// `Display` of a `serde_json::Error`: its description. What it says is
/// not stated here.
#[verifier::external_body]
fn json_error_text(error: &serde_json::Error) -> (t: String)
{
    error.to_string()
}

/// `Display` of a `std::io::Error`: its description. What it says is not
/// stated here.
#[verifier::external_body]
fn io_error_text(error: &std::io::Error) -> (t: String)
{
    error.to_string()
}

/// What a person reads for a bundle error; a description that comes from
/// JSON or from reading and writing stands as `detail`.
pub open spec fn bundle_error_text(e: BundleError, detail: Seq<char>) -> Seq<char> {
    match e {
        BundleError::WeakPassphrase => "パスフレーズが短すぎます（8 文字以上）"@,
        BundleError::Serialize(_) => "中身を組み立てられません: "@ + detail,
        BundleError::IncorrectPassphrase => "パスフレーズが違います"@,
        BundleError::Corrupt => "ファイルが壊れているか、sshboard のものではありません"@,
        BundleError::UnsupportedVersion(v) => "この版のファイルは読めません（版 "@ + decimal(v as nat) + "）"@,
        BundleError::Parse(_) => "中身が sshboard のものではありません: "@ + detail,
        BundleError::Io(_) => "読み書きに失敗しました: "@ + detail,
    }
}

impl BundleError {
    /// What went wrong, for a person: the next step differs by the cause.
    pub fn message(&self) -> (m: String)
        ensures
            exists|detail: Seq<char>| m@ == bundle_error_text(*self, detail),
    {
        match self {
            BundleError::WeakPassphrase => {
                let m = owned("パスフレーズが短すぎます（8 文字以上）");
                assert(m@ == bundle_error_text(*self, seq![]));
                m
            },
            BundleError::Serialize(error) => {
                let mut m = owned("中身を組み立てられません: ");
                let d = json_error_text(error);
                push_str(&mut m, d.as_str());
                assert(m@ == bundle_error_text(*self, d@));
                m
            },
            BundleError::IncorrectPassphrase => {
                let m = owned("パスフレーズが違います");
                assert(m@ == bundle_error_text(*self, seq![]));
                m
            },
            BundleError::Corrupt => {
                let m = owned("ファイルが壊れているか、sshboard のものではありません");
                assert(m@ == bundle_error_text(*self, seq![]));
                m
            },
            BundleError::UnsupportedVersion(v) => {
                let mut m = owned("この版のファイルは読めません（版 ");
                crate::text::push_decimal(&mut m, *v as u64);
                push_str(&mut m, "）");
                assert(m@ == bundle_error_text(*self, seq![]));
                m
            },
            BundleError::Parse(error) => {
                let mut m = owned("中身が sshboard のものではありません: ");
                let d = json_error_text(error);
                push_str(&mut m, d.as_str());
                assert(m@ == bundle_error_text(*self, d@));
                m
            },
            BundleError::Io(error) => {
                let mut m = owned("読み書きに失敗しました: ");
                let d = io_error_text(error);
                push_str(&mut m, d.as_str());
                assert(m@ == bundle_error_text(*self, d@));
                m
            },
        }
    }
}

/// The secrets a bundle carries: credential-store name to secret, each name
/// once, in the order of the names, so the same contents always come out in
/// the same order.
#[derive(Clone, PartialEq, Eq)]
pub struct SecretMap {
    entries: Vec<(String, String)>,
}

/// The names strictly rise in text order: each once, in order.
pub open spec fn names_ascending(s: Seq<(Seq<char>, Seq<char>)>) -> bool {
    forall|i: int, j: int| 0 <= i < j < s.len() ==> text_less(#[trigger] s[i].0, #[trigger] s[j].0)
}

/// How many leading names come before `name`: where it is, or would go.
pub open spec fn names_before(s: Seq<(Seq<char>, Seq<char>)>, name: Seq<char>) -> nat
    decreases s.len(),
{
    if s.len() == 0 || !text_less(s[0].0, name) {
        0
    } else {
        1 + names_before(s.drop_first(), name)
    }
}

/// The pairs after `name` is given `secret`: it replaces the secret the
/// name had, or goes in at the name's place in the order.
pub open spec fn with_secret(s: Seq<(Seq<char>, Seq<char>)>, name: Seq<char>, secret: Seq<char>) -> Seq<(Seq<char>, Seq<char>)> {
    let p = names_before(s, name) as int;
    if p < s.len() && s[p].0 == name {
        s.update(p, (name, secret))
    } else {
        s.insert(p, (name, secret))
    }
}

impl View for SecretMap {
    type V = Seq<(Seq<char>, Seq<char>)>;

    closed spec fn view(&self) -> Seq<(Seq<char>, Seq<char>)> {
        self.entries@.map_values(|p: (String, String)| (p.0@, p.1@))
    }
}

/// Whether the secrets hold this name.
pub open spec fn holds_name(s: Seq<(Seq<char>, Seq<char>)>, name: Seq<char>) -> bool {
    exists|i: int| 0 <= i < s.len() && #[trigger] s[i].0 == name
}

/// `names_before` counts the leading names before `name`; from there on,
/// in an ordered list, no name comes before it.
proof fn lemma_names_before(s: Seq<(Seq<char>, Seq<char>)>, name: Seq<char>)
    ensures
        names_before(s, name) <= s.len(),
        forall|i: int| 0 <= i < names_before(s, name) ==> text_less(#[trigger] s[i].0, name),
        names_ascending(s) ==> forall|i: int|
            names_before(s, name) <= i < s.len() ==> !text_less(#[trigger] s[i].0, name),
    decreases s.len(),
{
    if s.len() > 0 && text_less(s[0].0, name) {
        let rest = s.drop_first();
        lemma_names_before(rest, name);
        assert forall|i: int| 0 <= i < names_before(s, name) implies text_less(#[trigger] s[i].0, name) by {
            if i > 0 {
                assert(s[i] == rest[i - 1]);
            }
        }
        if names_ascending(s) {
            assert forall|i: int| names_before(s, name) <= i < s.len() implies !text_less(#[trigger] s[i].0, name) by {
                assert(s[i] == rest[i - 1]);
            }
        }
    } else if names_ascending(s) {
        assert forall|i: int| 0 <= i < s.len() implies !text_less(#[trigger] s[i].0, name) by {
            if i > 0 {
                assert(text_less(s[0].0, s[i].0));
                crate::text::lemma_text_less_transitive(s[0].0, s[i].0, name);
            }
        }
    }
}

/// Giving a name a secret keeps the names in order, and the names held
/// afterwards are those held before and that one.
proof fn lemma_with_secret(s: Seq<(Seq<char>, Seq<char>)>, name: Seq<char>, secret: Seq<char>)
    requires
        names_ascending(s),
    ensures
        names_ascending(with_secret(s, name, secret)),
        forall|n: Seq<char>| holds_name(with_secret(s, name, secret), n) <==> (holds_name(s, n) || n == name),
{
    lemma_names_before(s, name);
    let p = names_before(s, name) as int;
    let w = with_secret(s, name, secret);
    if p < s.len() && s[p].0 == name {
        assert forall|i: int, j: int| 0 <= i < j < w.len() implies text_less(#[trigger] w[i].0, #[trigger] w[j].0) by {
            assert(text_less(s[i].0, s[j].0));
        }
        assert forall|n: Seq<char>| holds_name(w, n) <==> (holds_name(s, n) || n == name) by {
            if holds_name(s, n) {
                let k = choose|k: int| 0 <= k < s.len() && #[trigger] s[k].0 == n;
                assert(w[k].0 == n);
            }
            if n == name {
                assert(w[p].0 == n);
            }
            if holds_name(w, n) {
                let k = choose|k: int| 0 <= k < w.len() && #[trigger] w[k].0 == n;
                assert(s[k].0 == n);
            }
        }
    } else {
        assert forall|i: int| p <= i < s.len() implies text_less(name, #[trigger] s[i].0) by {
            crate::text::lemma_text_less_total(s[i].0, name);
            if s[i].0 == name && i > p {
                assert(text_less(s[p].0, s[i].0));
            }
        }
        assert forall|i: int, j: int| 0 <= i < j < w.len() implies text_less(#[trigger] w[i].0, #[trigger] w[j].0) by {
            if j < p {
                assert(w[i] == s[i] && w[j] == s[j]);
            } else if j == p {
                assert(w[i] == s[i] && w[j] == (name, secret));
            } else if i < p {
                assert(w[i] == s[i] && w[j] == s[j - 1]);
                crate::text::lemma_text_less_transitive(s[i].0, name, s[j - 1].0);
            } else if i == p {
                assert(w[j] == s[j - 1]);
            } else {
                assert(w[i] == s[i - 1] && w[j] == s[j - 1]);
            }
        }
        assert forall|n: Seq<char>| holds_name(w, n) <==> (holds_name(s, n) || n == name) by {
            if holds_name(s, n) {
                let k = choose|k: int| 0 <= k < s.len() && #[trigger] s[k].0 == n;
                if k < p {
                    assert(w[k].0 == n);
                } else {
                    assert(w[k + 1].0 == n);
                }
            }
            if n == name {
                assert(w[p].0 == n);
            }
            if holds_name(w, n) {
                let k = choose|k: int| 0 <= k < w.len() && #[trigger] w[k].0 == n;
                if k < p {
                    assert(s[k].0 == n);
                } else if k > p {
                    assert(s[k - 1].0 == n);
                }
            }
        }
    }
}

impl SecretMap {
    pub closed spec fn wf(&self) -> bool {
        names_ascending(self@)
    }

    pub fn new() -> (m: Self)
        ensures
            m.wf(),
            m@.len() == 0,
    {
        let m = SecretMap { entries: Vec::new() };
        assert(m@ =~= Seq::<(Seq<char>, Seq<char>)>::empty());
        m
    }

    /// Gives `name` this secret: replaces the one it had, or adds it at its
    /// place in the order of the names.
    pub fn insert(&mut self, name: String, secret: String)
        requires
            old(self).wf(),
        ensures
            final(self).wf(),
            final(self)@ == with_secret(old(self)@, name@, secret@),
    {
        let ghost before = self@;
        let mut i: usize = 0;
        assert(before.skip(0) == before);
        while i < self.entries.len() && less_text(self.entries[i].0.as_str(), name.as_str())
            invariant
                before == self@,
                before == old(self)@,
                i <= before.len(),
                names_before(before, name@) == i + names_before(before.skip(i as int), name@),
            decreases before.len() - i,
        {
            assert(before.skip(i as int)[0] == before[i as int]);
            assert(before.skip(i as int).drop_first() == before.skip(i + 1));
            i += 1;
        }
        if i < self.entries.len() {
            assert(before.skip(i as int)[0] == before[i as int]);
        }
        assert(names_before(before, name@) == i);
        proof {
            lemma_with_secret(before, name@, secret@);
        }
        let ghost nv = name@;
        let ghost sv = secret@;
        if i < self.entries.len() && same_text(self.entries[i].0.as_str(), name.as_str()) {
            self.entries.set(i, (name, secret));
            assert(self@ =~= before.update(i as int, (nv, sv)));
        } else {
            self.entries.insert(i, (name, secret));
            assert(self@ =~= before.insert(i as int, (nv, sv)));
        }
    }

    /// The secret stored under `name`.
    pub fn get(&self, name: &str) -> (r: Option<&String>)
        ensures
            r is Some <==> holds_name(self@, name@),
            r matches Some(s) ==> exists|i: int| 0 <= i < self@.len() && self@[i] == (name@, s@),
    {
        for i in 0..self.entries.len()
            invariant
                forall|j: int| 0 <= j < i ==> #[trigger] self@[j].0 != name@,
        {
            if same_text(self.entries[i].0.as_str(), name) {
                assert(self@[i as int] == (name@, self.entries@[i as int].1@));
                assert(self@[i as int].0 == name@);
                return Some(&self.entries[i].1);
            }
        }
        None
    }

    pub fn contains_key(&self, name: &str) -> (b: bool)
        ensures
            b == holds_name(self@, name@),
    {
        self.get(name).is_some()
    }

    pub fn len(&self) -> (n: usize)
        ensures
            n == self@.len(),
    {
        self.entries.len()
    }

    pub fn is_empty(&self) -> (b: bool)
        ensures
            b == (self@.len() == 0),
    {
        self.entries.len() == 0
    }

    /// The `i`-th name and secret, in the order they were given.
    pub fn entry(&self, i: usize) -> (r: (&str, &str))
        requires
            i < self@.len(),
        ensures
            (r.0@, r.1@) == self@[i as int],
    {
        (self.entries[i].0.as_str(), self.entries[i].1.as_str())
    }
}

/// The contents before sealing: the connections and the secrets they refer to.
#[derive(Clone, PartialEq, Eq)]
pub struct BundlePayload {
    pub version: u32,
    /// The same as in `connections.toml`: no secret, only names.
    pub connections: Connections,
    /// Name to secret: the only real secrets here.
    pub secrets: SecretMap,
}

impl BundlePayload {
    pub fn new(connections: Connections, secrets: SecretMap) -> (p: Self)
        ensures
            p.version == BUNDLE_VERSION,
            p.connections == connections,
            p.secrets == secrets,
    {
        BundlePayload { version: BUNDLE_VERSION, connections, secrets }
    }

    /// A description in the form `{:?}` gives for the payload's fields, its
    /// secrets replaced by how many there are: never a secret.
    pub fn describe(&self) -> (d: String)
        ensures
            d@ == description(
                self.version,
                self.connections.version,
                entries_view(self.connections.connections@),
                self.secrets@.len(),
            ),
    {
        let ghost entries = entries_view(self.connections.connections@);
        let mut d = owned("BundlePayload { version: ");
        crate::text::push_decimal(&mut d, self.version as u64);
        crate::text::push_str(&mut d, ", connections: Connections { version: ");
        crate::text::push_decimal(&mut d, self.connections.version as u64);
        crate::text::push_str(&mut d, ", connections: [");
        let ghost head = d@;
        for i in 0..self.connections.connections.len()
            invariant
                entries == entries_view(self.connections.connections@),
                d@ == head + joined_entries(entries.take(i as int)),
        {
            if i > 0 {
                crate::text::push_str(&mut d, ", ");
            }
            push_entry_debug(&mut d, &self.connections.connections[i]);
            proof {
                let t = entries.take(i + 1);
                assert(t.drop_last() == entries.take(i as int));
                assert(t.last() == entries[i as int]);
                if i == 0 {
                    assert(t.len() == 1);
                }
            }
        }
        assert(entries.take(entries.len() as int) == entries);
        crate::text::push_str(&mut d, "] }, secrets: <");
        crate::text::push_decimal(&mut d, self.secrets.len() as u64);
        crate::text::push_str(&mut d, " 件・伏せています> }");
        d
    }
}

/// What `{:?}` writes for a text: the text quoted, with the escapes of
/// `str::escape_debug`. Fixed by the standard library's Unicode tables.
pub uninterp spec fn debug_text(s: Seq<char>) -> Seq<char>;

/// `{:?}` on a `str`.
#[verifier::external_body]
fn debug_quoted(s: &str) -> (r: String)
    ensures
        r@ == debug_text(s@),
{
    format!("{:?}", s)
}

/// What `{:?}` writes for an optional text.
pub open spec fn opt_debug(o: Option<Seq<char>>) -> Seq<char> {
    match o {
        Some(t) => "Some("@ + debug_text(t) + ")"@,
        None => "None"@,
    }
}

/// The texts as `{:?}` writes them, separated by a comma and a space.
pub open spec fn joined_debug(v: Seq<Seq<char>>) -> Seq<char>
    decreases v.len(),
{
    if v.len() == 0 {
        seq![]
    } else if v.len() == 1 {
        debug_text(v[0])
    } else {
        joined_debug(v.drop_last()) + ", "@ + debug_text(v.last())
    }
}

/// What `{:?}` writes for a connection, field by field in declaration order.
pub open spec fn entry_debug(e: EntryView) -> Seq<char> {
    entry_head_debug(e) + entry_refs_debug(e) + ", write_roots: ["@ + joined_debug(e.write_roots) + "] }"@
}

/// The first fields of a connection as `{:?}` writes them.
pub open spec fn entry_head_debug(e: EntryView) -> Seq<char> {
    "ConnectionEntry { id: "@ + debug_text(e.id) + ", name: "@ + debug_text(e.name) + ", host: "@
        + debug_text(e.host) + ", port: "@ + decimal(e.port as nat) + ", user: "@ + debug_text(e.user)
}

/// The optional fields of a connection as `{:?}` writes them.
pub open spec fn entry_refs_debug(e: EntryView) -> Seq<char> {
    entry_keys_debug(e) + entry_marks_debug(e)
}

/// The key and the credential-store names, as `{:?}` writes them.
pub open spec fn entry_keys_debug(e: EntryView) -> Seq<char> {
    ", key_path: "@ + opt_debug(e.key_path) + (", keyring_passphrase_ref: "@ + opt_debug(e.keyring_passphrase_ref))
        + (", keyring_password_ref: "@ + opt_debug(e.keyring_password_ref))
}

/// The host key, `known_hosts`, colour and tag, as `{:?}` writes them.
pub open spec fn entry_marks_debug(e: EntryView) -> Seq<char> {
    ", fingerprint: "@ + opt_debug(e.fingerprint) + (", known_hosts: "@ + opt_debug(e.known_hosts)) + (", color: "@
        + opt_debug(e.color)) + (", tag: "@ + opt_debug(e.tag))
}

/// The connections as `{:?}` writes them, separated by a comma and a space.
pub open spec fn joined_entries(entries: Seq<EntryView>) -> Seq<char>
    decreases entries.len(),
{
    if entries.len() == 0 {
        seq![]
    } else if entries.len() == 1 {
        entry_debug(entries[0])
    } else {
        joined_entries(entries.drop_last()) + ", "@ + entry_debug(entries.last())
    }
}

/// How a payload describes itself: what `{:?}` writes for its version and
/// its connections, and only how many secrets it carries.
pub open spec fn description(version: u32, list_version: u32, entries: Seq<EntryView>, secrets: nat) -> Seq<char> {
    "BundlePayload { version: "@ + decimal(version as nat) + ", connections: Connections { version: "@ + decimal(
        list_version as nat,
    ) + ", connections: ["@ + joined_entries(entries) + "] }, secrets: <"@ + decimal(secrets)
        + " 件・伏せています> }"@
}

fn push_opt_debug(d: &mut String, o: &Option<String>)
    ensures
        final(d)@ == old(d)@ + opt_debug(opt_view(*o)),
{
    match o {
        Some(t) => {
            crate::text::push_str(d, "Some(");
            let q = debug_quoted(t.as_str());
            crate::text::push_str(d, q.as_str());
            crate::text::push_str(d, ")");
        },
        None => crate::text::push_str(d, "None"),
    }
}

fn push_list_debug(d: &mut String, v: &Vec<String>)
    ensures
        final(d)@ == old(d)@ + joined_debug(texts_view(v@)),
{
    let ghost items = texts_view(v@);
    let ghost head = d@;
    for i in 0..v.len()
        invariant
            items == texts_view(v@),
            d@ == head + joined_debug(items.take(i as int)),
    {
        if i > 0 {
            crate::text::push_str(d, ", ");
        }
        let q = debug_quoted(v[i].as_str());
        crate::text::push_str(d, q.as_str());
        proof {
            let t = items.take(i + 1);
            assert(t.drop_last() == items.take(i as int));
            assert(t.last() == items[i as int]);
            if i == 0 {
                assert(t.len() == 1);
            }
        }
    }
    assert(items.take(items.len() as int) == items);
}

fn push_debug_text(d: &mut String, t: &str)
    ensures
        final(d)@ == old(d)@ + debug_text(t@),
{
    let q = debug_quoted(t);
    crate::text::push_str(d, q.as_str());
}

fn push_entry_head(d: &mut String, e: &ConnectionEntry)
    ensures
        final(d)@ == old(d)@ + entry_head_debug(e@),
{
    let ghost start = d@;
    crate::text::push_str(d, "ConnectionEntry { id: ");
    push_debug_text(d, e.id.as_str());
    crate::text::push_str(d, ", name: ");
    push_debug_text(d, e.name.as_str());
    crate::text::push_str(d, ", host: ");
    push_debug_text(d, e.host.as_str());
    assert(d@ =~= start + ("ConnectionEntry { id: "@ + debug_text(e@.id) + ", name: "@ + debug_text(e@.name)
        + ", host: "@ + debug_text(e@.host)));
    crate::text::push_str(d, ", port: ");
    crate::text::push_decimal(d, e.port as u64);
    crate::text::push_str(d, ", user: ");
    push_debug_text(d, e.user.as_str());
    assert(d@ =~= start + entry_head_debug(e@));
}

fn push_field(d: &mut String, label: &str, o: &Option<String>)
    ensures
        final(d)@ == old(d)@ + (label@ + opt_debug(opt_view(*o))),
{
    let ghost start = d@;
    crate::text::push_str(d, label);
    push_opt_debug(d, o);
    assert(d@ =~= start + (label@ + opt_debug(opt_view(*o))));
}

fn push_entry_refs(d: &mut String, e: &ConnectionEntry)
    ensures
        final(d)@ == old(d)@ + entry_refs_debug(e@),
{
    let ghost start = d@;
    push_field(d, ", key_path: ", &e.key_path);
    let ghost a = d@;
    push_field(d, ", keyring_passphrase_ref: ", &e.keyring_passphrase_ref);
    let ghost b = d@;
    push_field(d, ", keyring_password_ref: ", &e.keyring_password_ref);
    let ghost c = d@;
    assert(c =~= start + entry_keys_debug(e@));
    push_field(d, ", fingerprint: ", &e.fingerprint);
    push_field(d, ", known_hosts: ", &e.known_hosts);
    push_field(d, ", color: ", &e.color);
    push_field(d, ", tag: ", &e.tag);
    assert(d@ =~= c + entry_marks_debug(e@));
    assert(d@ =~= start + entry_refs_debug(e@));
}

fn push_entry_debug(d: &mut String, e: &ConnectionEntry)
    ensures
        final(d)@ == old(d)@ + entry_debug(e@),
{
    let ghost start = d@;
    push_entry_head(d, e);
    push_entry_refs(d, e);
    crate::text::push_str(d, ", write_roots: [");
    push_list_debug(d, &e.write_roots);
    crate::text::push_str(d, "] }");
    assert(d@ =~= start + entry_debug(e@));
}

/// Refuses a passphrase shorter than [`MIN_PASSPHRASE_LEN`] characters,
/// before anything is sealed.
pub fn validate_passphrase(passphrase: &str) -> (r: Result<(), BundleError>)
    ensures
        passphrase@.len() < MIN_PASSPHRASE_LEN ==> (r matches Err(BundleError::WeakPassphrase)),
        passphrase@.len() >= MIN_PASSPHRASE_LEN ==> r is Ok,
{
    if chars_of(passphrase).len() < MIN_PASSPHRASE_LEN {
        return Err(BundleError::WeakPassphrase);
    }
    Ok(())
}

/// Refuses contents of a version this build does not know.
pub fn check_version(version: u32) -> (r: Result<(), BundleError>)
    ensures
        version == BUNDLE_VERSION ==> r is Ok,
        version != BUNDLE_VERSION ==> (r matches Err(BundleError::UnsupportedVersion(v)) && v == version),
{
    if version != BUNDLE_VERSION {
        return Err(BundleError::UnsupportedVersion(version));
    }
    Ok(())
}

/// Whether `file` is an age file that, opened with `passphrase`, gives
/// `plaintext`: its header holds the file key wrapped under the passphrase
/// and its authenticated body decrypts to those bytes. Which such file one
/// sealing gives rests on a random salt and file key; whether it holds
/// depends on the three values alone.
pub uninterp spec fn age_sealed(file: Seq<u8>, plaintext: Seq<u8>, passphrase: Seq<char>) -> bool;

/// `file` opened with `passphrase` gives `plaintext` and nothing else: every
/// plaintext it is an age file of under that passphrase is this one.
pub open spec fn opens_only_to(file: Seq<u8>, plaintext: Seq<u8>, passphrase: Seq<char>) -> bool {
    forall|q: Seq<u8>| #[trigger] age_sealed(file, q, passphrase) ==> q == plaintext
}

/// What goes in comes back out: a file sealed from `sealed` under a
/// passphrase, once opened with that passphrase, gives back `sealed`.
pub proof fn lemma_what_goes_in_comes_back_out(
    file: Seq<u8>,
    sealed: Seq<u8>,
    passphrase: Seq<char>,
    opened: Seq<u8>,
)
    requires
        age_sealed(file, sealed, passphrase),
        opens_only_to(file, opened, passphrase),
    ensures
        opened == sealed,
{
}

/// `age::Encryptor::with_user_passphrase` writing `plaintext` through
/// `wrap_output` into a byte vector and `finish`: an age file of the
/// plaintext under the passphrase. age reports only the errors of the writer
/// it is given, and writing into a byte vector does not fail, so it always
/// succeeds. The salt, the file key and the work factor come from chance and
/// the machine, so which file it is is not stated.
#[verifier::external_body]
fn age_encrypt(plaintext: &[u8], passphrase: &str) -> (r: Result<Vec<u8>, std::io::Error>)
    ensures
        r is Ok,
        r matches Ok(b) ==> age_sealed(b@, plaintext@, passphrase@),
{
    let encryptor = age::Encryptor::with_user_passphrase(age::secrecy::SecretString::from(passphrase.to_owned()));
    let mut sealed = Vec::new();
    let mut writer = encryptor.wrap_output(&mut sealed)?;
    std::io::Write::write_all(&mut writer, plaintext)?;
    writer.finish()?;
    Ok(sealed)
}

/// `zeroize::Zeroize::zeroize` on a byte buffer: the bytes are overwritten
/// with zeros and the buffer is left empty.
#[verifier::external_body]
fn wipe(buffer: &mut Vec<u8>)
    ensures
        final(buffer)@.len() == 0,
{
    zeroize::Zeroize::zeroize(buffer);
}

/// The bytes every age file starts with: `age-encryption.org/`.
pub open spec fn age_magic() -> Seq<u8> {
    seq![97u8, 103, 101, 45, 101, 110, 99, 114, 121, 112, 116, 105, 111, 110, 46, 111, 114, 103, 47]
}

/// Whether the bytes start as an age file does.
pub open spec fn has_age_magic(blob: Seq<u8>) -> bool {
    blob.len() >= age_magic().len() && blob.subrange(0, age_magic().len() as int) == age_magic()
}

/// Opens `blob` with `passphrase` through age: `age::Decryptor::new` reads
/// the header, `decrypt` with `age::scrypt::Identity::new(passphrase)` opens
/// the file key, and `read_to_end` reads the authenticated body; the stage
/// that failed is told apart. The header parser first asks for the bytes of
/// `age-encryption.org/`, so other bytes are not an age file. What it gives
/// back is the plaintext of the file under that passphrase, and the only
/// one: the file key is unwrapped and the body decrypted with authenticated
/// encryption, so one file and passphrase open to one plaintext. Whether the
/// key opens also depends on the work factor this machine accepts, so
/// success is not stated.
#[verifier::external_body]
fn age_open(blob: &[u8], passphrase: &str) -> (r: OpenStage)
    ensures
        !has_age_magic(blob@) ==> r is NotAgeFile,
        r matches OpenStage::Opened(p) ==> age_sealed(blob@, p@, passphrase@),
        r matches OpenStage::Opened(p) ==> opens_only_to(blob@, p@, passphrase@),
{
    let Ok(decryptor) = age::Decryptor::new(blob) else { return OpenStage::NotAgeFile };
    let identity = age::scrypt::Identity::new(age::secrecy::SecretString::from(passphrase.to_owned()));
    let Ok(mut reader) = decryptor.decrypt(std::iter::once(&identity as &dyn age::Identity)) else {
        return OpenStage::KeyRefused;
    };
    let mut plaintext = Vec::new();
    match std::io::Read::read_to_end(&mut reader, &mut plaintext) {
        Ok(_) => OpenStage::Opened(plaintext),
        Err(_) => OpenStage::BodyBroken,
    }
}

/// Seals the plaintext contents with the passphrase. A short passphrase is
/// refused before anything is sealed; the plaintext buffer is wiped whether
/// sealing succeeds or not.
pub fn seal(plaintext: &mut Vec<u8>, passphrase: &str) -> (r: Result<Vec<u8>, BundleError>)
    ensures
        passphrase@.len() < MIN_PASSPHRASE_LEN ==> (r matches Err(BundleError::WeakPassphrase)),
        passphrase@.len() >= MIN_PASSPHRASE_LEN ==> (r matches Ok(b) && age_sealed(b@, old(plaintext)@, passphrase@)),
        passphrase@.len() >= MIN_PASSPHRASE_LEN ==> final(plaintext)@.len() == 0,
{
    validate_passphrase(passphrase)?;
    let sealed = age_encrypt(plaintext.as_slice(), passphrase);
    wipe(plaintext);
    match sealed {
        Ok(bytes) => Ok(bytes),
        Err(error) => Err(BundleError::Io(error)),
    }
}

/// How opening a file ended, at each of its three stages.
pub enum OpenStage {
    /// The header is not an age header: not a bundle at all.
    NotAgeFile,
    /// The passphrase did not open the key (a mistyped passphrase and a broken
    /// key stanza look the same; the first is far more common).
    KeyRefused,
    /// The key opened but the body failed its check: altered or cut short.
    BodyBroken,
    /// The plaintext.
    Opened(Vec<u8>),
}

/// What each stage's outcome means for the person.
pub open spec fn opened_result(stage: OpenStage) -> Result<Seq<u8>, ()> {
    match stage {
        OpenStage::Opened(bytes) => Ok(bytes@),
        _ => Err(()),
    }
}

/// Turns the outcome of opening into the library's answer.
pub fn classify_open(stage: OpenStage) -> (r: Result<Vec<u8>, BundleError>)
    ensures
        stage is NotAgeFile ==> (r matches Err(BundleError::Corrupt)),
        stage is KeyRefused ==> (r matches Err(BundleError::IncorrectPassphrase)),
        stage is BodyBroken ==> (r matches Err(BundleError::Corrupt)),
        stage matches OpenStage::Opened(b) ==> (r matches Ok(p) && p@ == b@),
{
    match stage {
        OpenStage::NotAgeFile => Err(BundleError::Corrupt),
        OpenStage::KeyRefused => Err(BundleError::IncorrectPassphrase),
        OpenStage::BodyBroken => Err(BundleError::Corrupt),
        OpenStage::Opened(bytes) => Ok(bytes),
    }
}

/// Opens a sealed file: a file that is not age is corrupt (the passphrase was
/// not even used), a key that does not open means the passphrase, and a body
/// that fails its check after the key opened means tampering.
pub fn open(blob: &[u8], passphrase: &str) -> (r: Result<Vec<u8>, BundleError>)
    ensures
        r is Ok || (r matches Err(BundleError::Corrupt)) || (r matches Err(BundleError::IncorrectPassphrase)),
        !has_age_magic(blob@) ==> (r matches Err(BundleError::Corrupt)),
        r matches Ok(p) ==> age_sealed(blob@, p@, passphrase@),
        r matches Ok(p) ==> opens_only_to(blob@, p@, passphrase@),
{
    classify_open(age_open(blob, passphrase))
}

/// The steps of handing connections over fail for these reasons, apart from
/// the cryptography failing.
#[derive(Debug)]
pub enum TransferError {
    /// A ticked identifier is not in the list.
    UnknownConnection { id: String },
    /// A secret a connection refers to could not be taken out of the store.
    SecretMissing { reference: String, detail: String },
    /// A secret could not be put into the store.
    SecretStore { reference: String, detail: String },
}

/// What a person reads for a failed step.
pub open spec fn transfer_error_text(e: TransferError) -> Seq<char> {
    match e {
        TransferError::UnknownConnection { id } => "そんな接続はありません: "@ + id@,
        TransferError::SecretMissing { reference, detail } => "`"@ + reference@ + "` の秘密を取り出せません（"@
            + detail@ + "）。パスフレーズを登録し直すか、その接続を外してください"@,
        TransferError::SecretStore { reference, detail } => "`"@ + reference@ + "` を保存できません（"@ + detail@
            + "）"@,
    }
}

impl TransferError {
    /// What went wrong and, where there is one, what to do.
    pub fn message(&self) -> (m: String)
        ensures
            m@ == transfer_error_text(*self),
    {
        match self {
            TransferError::UnknownConnection { id } => {
                let mut m = owned("そんな接続はありません: ");
                push_str(&mut m, id.as_str());
                m
            },
            TransferError::SecretMissing { reference, detail } => {
                let mut m = owned("`");
                push_str(&mut m, reference.as_str());
                push_str(&mut m, "` の秘密を取り出せません（");
                push_str(&mut m, detail.as_str());
                push_str(&mut m, "）。パスフレーズを登録し直すか、その接続を外してください");
                m
            },
            TransferError::SecretStore { reference, detail } => {
                let mut m = owned("`");
                push_str(&mut m, reference.as_str());
                push_str(&mut m, "` を保存できません（");
                push_str(&mut m, detail.as_str());
                push_str(&mut m, "）");
                m
            },
        }
    }
}

/// One request made of a vault: what was handed to it and what came back.
pub enum VaultCall {
    Get { reference: Seq<char>, answer: Result<Seq<char>, Seq<char>> },
    Put { reference: Seq<char>, secret: Seq<char>, answer: Result<(), Seq<char>> },
    Delete { reference: Seq<char>, answer: Result<(), Seq<char>> },
}

/// A text answer as plain values.
pub open spec fn text_answer(r: Result<String, String>) -> Result<Seq<char>, Seq<char>> {
    match r {
        Ok(s) => Ok(s@),
        Err(e) => Err(e@),
    }
}

/// An answer with nothing in it but its failure, as plain values.
pub open spec fn unit_answer(r: Result<(), String>) -> Result<(), Seq<char>> {
    match r {
        Ok(()) => Ok(()),
        Err(e) => Err(e@),
    }
}

/// Where secrets live; in the product, the OS credential store. Implemented
/// by whoever runs the steps, so the steps can be tried without a real store.
pub trait SecretVault {
    fn get(&self, reference: &str) -> Result<String, String>;

    fn put(&self, reference: &str, secret: &str) -> Result<(), String>;

    fn delete(&self, reference: &str) -> Result<(), String>;
}

/// A vault together with the record of the requests made of it through
/// this handle: each request adds one entry, with what was handed over and
/// what came back. The steps of handing connections over go through it, so
/// what they ask of the vault can be stated.
pub struct LoggedVault<V: SecretVault> {
    vault: V,
    calls: Ghost<Seq<VaultCall>>,
}

impl<V: SecretVault> LoggedVault<V> {
    /// The requests made through this handle, oldest first.
    pub closed spec fn calls(&self) -> Seq<VaultCall> {
        self.calls@
    }

    /// The vault, with nothing asked of it yet.
    pub fn new(vault: V) -> (l: Self)
        ensures
            l.calls().len() == 0,
    {
        LoggedVault { vault, calls: Ghost(Seq::empty()) }
    }

    /// The vault itself.
    pub fn inner(&self) -> &V {
        &self.vault
    }

    /// Asks the vault for the secret under `reference`.
    pub fn get(&mut self, reference: &str) -> (r: Result<String, String>)
        ensures
            final(self).calls() == old(self).calls().push(
                VaultCall::Get { reference: reference@, answer: text_answer(r) },
            ),
    {
        let r = self.vault.get(reference);
        self.calls = Ghost(self.calls@.push(VaultCall::Get { reference: reference@, answer: text_answer(r) }));
        r
    }

    /// Asks the vault to keep `secret` under `reference`.
    pub fn put(&mut self, reference: &str, secret: &str) -> (r: Result<(), String>)
        ensures
            final(self).calls() == old(self).calls().push(
                VaultCall::Put { reference: reference@, secret: secret@, answer: unit_answer(r) },
            ),
    {
        let r = self.vault.put(reference, secret);
        self.calls = Ghost(self.calls@.push(VaultCall::Put { reference: reference@, secret: secret@, answer: unit_answer(r) }));
        r
    }

    /// Asks the vault to remove the secret under `reference`.
    pub fn delete(&mut self, reference: &str) -> (r: Result<(), String>)
        ensures
            final(self).calls() == old(self).calls().push(
                VaultCall::Delete { reference: reference@, answer: unit_answer(r) },
            ),
    {
        let r = self.vault.delete(reference);
        self.calls = Ghost(self.calls@.push(VaultCall::Delete { reference: reference@, answer: unit_answer(r) }));
        r
    }
}

/// The requests made after the first `before.len()`.
pub open spec fn new_calls(before: Seq<VaultCall>, after: Seq<VaultCall>) -> Seq<VaultCall> {
    after.subrange(before.len() as int, after.len() as int)
}

/// `after` is `before` with requests added at the end.
pub open spec fn extends(before: Seq<VaultCall>, after: Seq<VaultCall>) -> bool {
    before.len() <= after.len() && after.subrange(0, before.len() as int) == before
}

/// The requests are secrets asked for under `refs`, in order, as far as they go.
pub open spec fn fetched_in_order(f: Seq<VaultCall>, refs: Seq<Seq<char>>) -> bool {
    &&& f.len() <= refs.len()
    &&& forall|t: int| 0 <= t < f.len() ==> (#[trigger] f[t] matches VaultCall::Get { reference, .. } && reference == refs[t])
}

/// The `t`-th request was answered with a secret.
pub open spec fn fetched_ok(f: Seq<VaultCall>, t: int) -> bool {
    f[t] matches VaultCall::Get { answer: Ok(_), .. }
}

/// Some request asked for `name` and was given `secret`.
pub open spec fn was_given(f: Seq<VaultCall>, name: Seq<char>, secret: Seq<char>) -> bool {
    exists|t: int| 0 <= t < f.len() && #[trigger] f[t] == VaultCall::Get { reference: name, answer: Ok(secret) }
}

/// The credential-store names looked up while collecting `ids`: those of
/// each ticked connection in order, up to the first identifier that is not
/// registered.
pub open spec fn export_refs(entries: Seq<EntryView>, ids: Seq<Seq<char>>) -> Seq<Seq<char>>
    decreases ids.len(),
{
    if ids.len() == 0 {
        seq![]
    } else {
        match ticked(entries, ids.drop_last()) {
            None => export_refs(entries, ids.drop_last()),
            Some(_) => match position_of(entries, ids.last()) {
                None => export_refs(entries, ids.drop_last()),
                Some(k) => export_refs(entries, ids.drop_last()) + refs_of(entries[k]),
            },
        }
    }
}

/// The first `k` secrets were put and taken.
pub open spec fn put_in_order(f: Seq<VaultCall>, s: Seq<(Seq<char>, Seq<char>)>, k: int) -> bool {
    forall|t: int| 0 <= t < k ==> #[trigger] f[t] == VaultCall::Put { reference: s[t].0, secret: s[t].1, answer: Ok(()) }
}

/// The first `k` secrets were put, the `k`-th was refused with `detail`, and
/// then the `k` put before it were deleted again, in order, and nothing more.
pub open spec fn rolled_back(f: Seq<VaultCall>, s: Seq<(Seq<char>, Seq<char>)>, k: int, detail: Seq<char>) -> bool {
    &&& 0 <= k < s.len()
    &&& f.len() == 2 * k + 1
    &&& put_in_order(f, s, k)
    &&& f[k] == VaultCall::Put { reference: s[k].0, secret: s[k].1, answer: Err(detail) }
    &&& forall|j: int| 0 <= j < k ==> (#[trigger] f[k + 1 + j] matches VaultCall::Delete { reference, .. } && reference == s[j].0)
}

/// The ticked connections in the order ticked, if every one is registered.
pub open spec fn ticked(entries: Seq<EntryView>, ids: Seq<Seq<char>>) -> Option<Seq<EntryView>>
    decreases ids.len(),
{
    if ids.len() == 0 {
        Some(seq![])
    } else {
        match ticked(entries, ids.drop_last()) {
            None => None,
            Some(prefix) => match position_of(entries, ids.last()) {
                None => None,
                Some(k) => Some(prefix.push(entries[k])),
            },
        }
    }
}

/// The credential-store names the connections refer to, in order.
pub open spec fn all_refs(chosen: Seq<EntryView>) -> Seq<Seq<char>>
    decreases chosen.len(),
{
    if chosen.len() == 0 {
        seq![]
    } else {
        all_refs(chosen.drop_last()) + refs_of(chosen.last())
    }
}

/// Some ticked, registered connection refers to the credential-store name `r`.
pub open spec fn referred_by(entries: Seq<EntryView>, ids: Seq<Seq<char>>, r: Seq<char>) -> bool {
    exists|k: int|
        0 <= k < ids.len() && #[trigger] position_of(entries, ids[k]) is Some
            && refs_of(entries[position_of(entries, ids[k])->0]).contains(r)
}

/// The texts of a list of strings.
pub open spec fn ids_view(ids: Seq<String>) -> Seq<Seq<char>> {
    ids.map_values(|s: String| s@)
}

/// Collects the ticked connections and the secrets they refer to into the
/// contents of a bundle. Only ticked connections go in, and only their
/// secrets; a secret that cannot be taken out stops the export rather than
/// leaving a hole in the file.
pub fn build_payload<V: SecretVault>(
    all: &Connections,
    ids: &[String],
    vault: &mut LoggedVault<V>,
) -> (r: Result<BundlePayload, TransferError>)
    ensures
        extends(old(vault).calls(), final(vault).calls()),
        fetched_in_order(
            new_calls(old(vault).calls(), final(vault).calls()),
            export_refs(entries_view(all.connections@), ids_view(ids@)),
        ),
        forall|t: int| 0 <= t < new_calls(old(vault).calls(), final(vault).calls()).len() - 1 ==> fetched_ok(
            new_calls(old(vault).calls(), final(vault).calls()),
            t,
        ),
        !(r matches Err(TransferError::SecretMissing { .. })) ==> {
            &&& new_calls(old(vault).calls(), final(vault).calls()).len() == export_refs(
                entries_view(all.connections@),
                ids_view(ids@),
            ).len()
            &&& forall|t: int| 0 <= t < new_calls(old(vault).calls(), final(vault).calls()).len() ==> fetched_ok(
                new_calls(old(vault).calls(), final(vault).calls()),
                t,
            )
        },
        r matches Err(TransferError::SecretMissing { reference, detail }) ==> {
            &&& new_calls(old(vault).calls(), final(vault).calls()).len() >= 1
            &&& new_calls(old(vault).calls(), final(vault).calls()).last() == VaultCall::Get {
                reference: reference@,
                answer: Err(detail@),
            }
        },
        r matches Ok(p) ==> forall|k: int| 0 <= k < p.secrets@.len() ==> was_given(
            new_calls(old(vault).calls(), final(vault).calls()),
            #[trigger] p.secrets@[k].0,
            p.secrets@[k].1,
        ),
        r matches Ok(p) ==> {
            &&& p.version == BUNDLE_VERSION
            &&& p.connections.version == all.version
            &&& ticked(entries_view(all.connections@), ids_view(ids@)) == Some(entries_view(p.connections.connections@))
            &&& p.secrets.wf()
            &&& forall|n: Seq<char>| holds_name(p.secrets@, n) <==> all_refs(entries_view(p.connections.connections@)).contains(n)
        },
        r matches Err(TransferError::UnknownConnection { id }) ==> {
            &&& ticked(entries_view(all.connections@), ids_view(ids@)) is None
            &&& ids_view(ids@).contains(id@)
            &&& position_of(entries_view(all.connections@), id@) is None
            &&& exists|k: int| 0 <= k < ids@.len() && #[trigger] ids_view(ids@)[k] == id@ && ticked(
                entries_view(all.connections@),
                ids_view(ids@).take(k),
            ) is Some
        },
        r matches Err(TransferError::SecretMissing { reference, .. }) ==> referred_by(
            entries_view(all.connections@),
            ids_view(ids@),
            reference@,
        ),
        !(r matches Err(TransferError::SecretStore { .. })),
        (ticked(entries_view(all.connections@), ids_view(ids@)) is Some && forall|n: Seq<char>|
            !referred_by(entries_view(all.connections@), ids_view(ids@), n)) ==> r is Ok,
{
    let ghost entries = entries_view(all.connections@);
    let ghost idv = ids_view(ids@);
    let ghost base = vault.calls();
    let ghost mut fresh: Seq<VaultCall> = Seq::empty();
    let mut chosen: Vec<ConnectionEntry> = Vec::new();
    let mut secrets = SecretMap::new();
    assert(vault.calls() =~= base + fresh);
    for i in 0..ids.len()
        invariant
            entries == entries_view(all.connections@),
            idv == ids_view(ids@),
            ticked(entries, idv.take(i as int)) == Some(entries_view(chosen@)),
            secrets.wf(),
            forall|n: Seq<char>| holds_name(secrets@, n) <==> all_refs(entries_view(chosen@)).contains(n),
            base == old(vault).calls(),
            vault.calls() == base + fresh,
            fresh.len() == export_refs(entries, idv.take(i as int)).len(),
            forall|t: int| 0 <= t < fresh.len() ==> (#[trigger] fresh[t] matches VaultCall::Get { reference, answer: Ok(_) }
                && reference == export_refs(entries, idv.take(i as int))[t]),
            forall|k: int| 0 <= k < secrets@.len() ==> was_given(fresh, #[trigger] secrets@[k].0, secrets@[k].1),
    {
        let id = &ids[i];
        proof {
            assert(idv.take(i + 1).drop_last() == idv.take(i as int));
            assert(idv.take(i + 1).last() == id@);
        }
        let found = all.get(id.as_str());
        let entry = match found {
            Some(e) => e,
            None => {
                proof {
                    lemma_ticked_prefix_none(entries, idv, i as int);
                    assert(idv[i as int] == id@);
                    lemma_export_refs_prefix_none(entries, idv, i as int);
                    assert(idv[i as int] == id@ && ticked(entries, idv.take(i as int)) is Some);
                    assert(export_refs(entries, idv.take(i + 1)) == export_refs(entries, idv.take(i as int)));
                    assert(new_calls(base, vault.calls()) =~= fresh);
                    assert(vault.calls().subrange(0, base.len() as int) =~= base);
                }
                return Err(TransferError::UnknownConnection { id: id.clone() });
            },
        };
        let ghost k = position_of(entries, id@)->0;
        let refs = entry.keyring_refs();
        let ghost before_chosen = entries_view(chosen@);
        let ghost r0 = export_refs(entries, idv.take(i as int));
        proof {
            lemma_position(entries, id@);
            assert(idv[i as int] == id@);
            assert(entries[k] == entry@);
            assert(export_refs(entries, idv.take(i + 1)) == r0 + refs_of(entry@));
            lemma_export_refs_grow(entries, idv, i + 1);
        }
        for j in 0..refs.len()
            invariant
                i < ids@.len(),
                ticked(entries, idv.take(i as int)) == Some(before_chosen),
                base == old(vault).calls(),
                vault.calls() == base + fresh,
                r0 == export_refs(entries, idv.take(i as int)),
                export_refs(entries, idv.take(i + 1)) == r0 + refs_of(entry@),
                export_refs(entries, idv.take(i + 1)).len() <= export_refs(entries, idv).len(),
                forall|t: int| 0 <= t < export_refs(entries, idv.take(i + 1)).len() ==> export_refs(entries, idv.take(i + 1))[t]
                    == export_refs(entries, idv)[t],
                fresh.len() == r0.len() + j,
                forall|t: int| 0 <= t < fresh.len() ==> (#[trigger] fresh[t] matches VaultCall::Get { reference, answer: Ok(_) }
                    && reference == (r0 + refs_of(entry@))[t]),
                forall|k2: int| 0 <= k2 < secrets@.len() ==> was_given(fresh, #[trigger] secrets@[k2].0, secrets@[k2].1),
                entries == entries_view(all.connections@),
                idv == ids_view(ids@),
                idv[i as int] == id@,
                position_of(entries, id@) == Some(k),
                0 <= k < entries.len(),
                entries[k] == entry@,
                secrets.wf(),
                refs@.map_values(|t: &str| t@) == refs_of(entry@),
                forall|n: Seq<char>| holds_name(secrets@, n) <==> (all_refs(before_chosen).contains(n)
                    || refs_of(entry@).take(j as int).contains(n)),
        {
            let reference = refs[j];
            let got = vault.get(reference);
            proof {
                assert((r0 + refs_of(entry@))[r0.len() + j] == reference@) by {
                    assert(refs_of(entry@)[j as int] == reference@);
                }
            }
            let secret = match got {
                Ok(s) => s,
                Err(detail) => {
                    proof {
                        assert(refs_of(entry@).contains(reference@)) by {
                            assert(refs_of(entry@)[j as int] == reference@);
                        }
                        assert(position_of(entries, idv[i as int]) is Some);
                        assert(referred_by(entries, idv, reference@));
                        let f = fresh.push(VaultCall::Get { reference: reference@, answer: Err(detail@) });
                        assert(vault.calls() =~= base + f);
                        assert(new_calls(base, vault.calls()) =~= f);
                        assert(vault.calls().subrange(0, base.len() as int) =~= base);
                        assert forall|t: int| 0 <= t < f.len() implies (#[trigger] f[t] matches VaultCall::Get { reference, .. }
                            && reference == export_refs(entries, idv)[t]) by {
                            if t < fresh.len() {
                                assert(f[t] == fresh[t]);
                            }
                        }
                        assert forall|t: int| 0 <= t < f.len() - 1 implies fetched_ok(f, t) by {
                            assert(f[t] == fresh[t]);
                        }
                    }
                    return Err(TransferError::SecretMissing { reference: owned(reference), detail });
                },
            };
            let ghost before = secrets@;
            let ghost sv = secret@;
            let ghost old_fresh = fresh;
            proof {
                fresh = fresh.push(VaultCall::Get { reference: reference@, answer: Ok(sv) });
                assert(vault.calls() =~= base + fresh);
            }
            secrets.insert(owned(reference), secret);
            proof {
                assert(secrets@ == with_secret(before, reference@, sv));
                assert forall|t: int| 0 <= t < fresh.len() implies (#[trigger] fresh[t] matches VaultCall::Get { reference, answer: Ok(_) }
                    && reference == (r0 + refs_of(entry@))[t]) by {
                    if t < old_fresh.len() {
                        assert(fresh[t] == old_fresh[t]);
                    }
                }
                assert forall|k2: int| 0 <= k2 < secrets@.len() implies was_given(fresh, #[trigger] secrets@[k2].0, secrets@[k2].1) by {
                    lemma_with_secret_pairs(before, reference@, sv);
                    if secrets@[k2] == (reference@, sv) {
                        assert(fresh[old_fresh.len() as int] == VaultCall::Get { reference: reference@, answer: Ok(sv) });
                    } else {
                        let w = choose|w: int| 0 <= w < before.len() && before[w] == secrets@[k2];
                        assert(was_given(old_fresh, before[w].0, before[w].1));
                        let t = choose|t: int| 0 <= t < old_fresh.len() && #[trigger] old_fresh[t] == VaultCall::Get { reference: before[w].0, answer: Ok(before[w].1) };
                        assert(fresh[t] == old_fresh[t]);
                    }
                }

                assert(refs_of(entry@).take(j + 1) == refs_of(entry@).take(j as int).push(reference@));
                lemma_with_secret(before, reference@, sv);
                assert(secrets@ == with_secret(before, reference@, sv));
                assert forall|n: Seq<char>| holds_name(secrets@, n) <==> (all_refs(before_chosen).contains(n)
                    || refs_of(entry@).take(j + 1).contains(n)) by {
                    assert(holds_name(with_secret(before, reference@, sv), n) <==> (holds_name(before, n)
                        || n == reference@));
                    if n == reference@ {
                        assert(refs_of(entry@).take(j + 1)[j as int] == n);
                    }
                    if refs_of(entry@).take(j + 1).contains(n) && n != reference@ {
                        let w = choose|w: int| 0 <= w < j + 1 && #[trigger] refs_of(entry@).take(j + 1)[w] == n;
                        assert(refs_of(entry@).take(j as int)[w] == n);
                    }
                };
            }
        }
        chosen.push(entry.duplicate());
        proof {
            assert(refs_of(entry@).take(refs@.len() as int) == refs_of(entry@));
            assert(entries_view(chosen@) == before_chosen.push(entry@));
            assert(entries_view(chosen@).drop_last() == before_chosen);
            assert forall|n: Seq<char>| holds_name(secrets@, n) <==> all_refs(entries_view(chosen@)).contains(n) by {
                let c = all_refs(before_chosen) + refs_of(entry@);
                assert(all_refs(entries_view(chosen@)) == c);
                if all_refs(before_chosen).contains(n) {
                    let w = choose|w: int| 0 <= w < all_refs(before_chosen).len() && #[trigger] all_refs(before_chosen)[w] == n;
                    assert(c[w] == n);
                }
                if refs_of(entry@).contains(n) {
                    let w = choose|w: int| 0 <= w < refs_of(entry@).len() && #[trigger] refs_of(entry@)[w] == n;
                    assert(c[all_refs(before_chosen).len() + w] == n);
                }
                if c.contains(n) {
                    let w = choose|w: int| 0 <= w < c.len() && #[trigger] c[w] == n;
                    if w < all_refs(before_chosen).len() {
                        assert(all_refs(before_chosen)[w] == n);
                    } else {
                        assert(refs_of(entry@)[w - all_refs(before_chosen).len()] == n);
                    }
                }
            };
            lemma_position(entries, id@);
            assert(all.connections@[k]@ == entries[k]);
        }
    }
    assert(idv.take(ids@.len() as int) == idv);
    assert(new_calls(base, vault.calls()) =~= fresh);
    assert(vault.calls().subrange(0, base.len() as int) =~= base);
    Ok(BundlePayload::new(Connections { version: all.version, connections: chosen }, secrets))
}

/// The list after bringing `incoming` in: the current connections whose
/// identifier does not come in, in their order, then everything that came in.
pub open spec fn merged_entries(current: Seq<EntryView>, incoming: Seq<EntryView>) -> Seq<EntryView> {
    current.filter(|x: EntryView| !has_id(incoming, x.id)) + incoming
}

/// The names of the secrets, in order.
pub open spec fn secret_names(s: Seq<(Seq<char>, Seq<char>)>) -> Seq<Seq<char>> {
    s.map_values(|p: (Seq<char>, Seq<char>)| p.0)
}

/// Brings the contents of an opened bundle into the current list. The
/// secrets go into the store first and the merged list is returned after
/// (the caller saves it), so no listed connection lacks its secret. When a
/// secret cannot be put, the ones put before it are deleted again before the
/// error is returned.
pub fn apply_payload<V: SecretVault>(
    payload: BundlePayload,
    current: Connections,
    vault: &mut LoggedVault<V>,
) -> (r: Result<Connections, TransferError>)
    ensures
        extends(old(vault).calls(), final(vault).calls()),
        r is Ok ==> {
            &&& new_calls(old(vault).calls(), final(vault).calls()).len() == payload.secrets@.len()
            &&& put_in_order(
                new_calls(old(vault).calls(), final(vault).calls()),
                payload.secrets@,
                payload.secrets@.len() as int,
            )
        },
        r matches Err(TransferError::SecretStore { reference, detail }) ==> exists|k: int|
            #[trigger] rolled_back(new_calls(old(vault).calls(), final(vault).calls()), payload.secrets@, k, detail@)
                && reference@ == payload.secrets@[k].0,
        r matches Ok(c) ==> {
            &&& c.version == current.version
            &&& entries_view(c.connections@) == merged_entries(
                entries_view(current.connections@),
                entries_view(payload.connections.connections@),
            )
        },
        r matches Err(TransferError::SecretStore { reference, .. }) ==> holds_name(
            payload.secrets@,
            reference@,
        ),
        r is Ok || (r matches Err(TransferError::SecretStore { .. })),
        payload.secrets@.len() == 0 ==> r is Ok,
{
    let BundlePayload { connections: incoming, secrets, .. } = payload;
    let ghost base = vault.calls();
    let ghost mut fresh: Seq<VaultCall> = Seq::empty();
    assert(vault.calls() =~= base + fresh);
    let mut put: Vec<String> = Vec::new();
    let count = secrets.len();
    for i in 0..count
        invariant
            count == secrets@.len(),
            secrets@ == payload.secrets@,
            put@.map_values(|t: String| t@) == secret_names(secrets@.take(i as int)),
            base == old(vault).calls(),
            vault.calls() == base + fresh,
            fresh.len() == i,
            put_in_order(fresh, secrets@, i as int),
    {
        let (reference, secret) = secrets.entry(i);
        let outcome = vault.put(reference, secret);
        match outcome {
            Ok(()) => {},
            Err(detail) => {
                let ghost refused = fresh.push(
                    VaultCall::Put { reference: reference@, secret: secret@, answer: Err(detail@) },
                );
                let ghost mut dels: Seq<VaultCall> = Seq::empty();
                proof {
                    assert(vault.calls() =~= base + refused + dels);
                    assert(put@.len() == i) by {
                        assert(put@.map_values(|t: String| t@).len() == put@.len());
                    }
                }
                for j in 0..put.len()
                    invariant
                        put@.map_values(|t: String| t@) == secret_names(secrets@.take(i as int)),
                        i < secrets@.len(),
                        base == old(vault).calls(),
                        secrets@ == payload.secrets@,
                        put@.len() == i,
                        vault.calls() == base + refused + dels,
                        dels.len() == j,
                        forall|t: int| 0 <= t < j ==> (#[trigger] dels[t] matches VaultCall::Delete { reference, .. }
                            && reference == secrets@[t].0),
                {
                    let done = vault.delete(put[j].as_str());
                    proof {
                        assert(put@[j as int]@ == put@.map_values(|t: String| t@)[j as int]);
                        assert(secret_names(secrets@.take(i as int))[j as int] == secrets@[j as int].0);
                        let d = VaultCall::Delete { reference: put@[j as int]@, answer: unit_answer(done) };
                        let old_dels = dels;
                        dels = dels.push(d);
                        assert(vault.calls() =~= base + refused + dels);
                        assert forall|t: int| 0 <= t < j + 1 implies (#[trigger] dels[t] matches VaultCall::Delete { reference, .. }
                            && reference == secrets@[t].0) by {
                            if t < j {
                                assert(dels[t] == old_dels[t]);
                            }
                        }
                    }
                }
                proof {
                    assert(secrets@[i as int].0 == reference@);
                    assert(secrets@[i as int] == (reference@, secret@));
                    let f = refused + dels;
                    assert(new_calls(base, vault.calls()) =~= f);
                    assert(vault.calls().subrange(0, base.len() as int) =~= base);
                    assert forall|t: int| 0 <= t < i implies #[trigger] f[t] == VaultCall::Put {
                        reference: secrets@[t].0, secret: secrets@[t].1, answer: Ok(()) } by {
                        assert(f[t] == fresh[t]);
                    }
                    assert forall|t: int| 0 <= t < i implies (#[trigger] f[i + 1 + t] matches VaultCall::Delete { reference, .. }
                        && reference == secrets@[t].0) by {
                        assert(f[i + 1 + t] == dels[t]);
                    }
                    assert(rolled_back(f, payload.secrets@, i as int, detail@));
                    assert(rolled_back(new_calls(base, vault.calls()), payload.secrets@, i as int, detail@));
                }
                let named = owned(reference);
                let ghost dv = detail@;
                let e = TransferError::SecretStore { reference: named, detail };
                assert(e matches TransferError::SecretStore { reference: rr, detail: dd } && rr@ == payload.secrets@[i as int].0 && dd@ == dv);
                assert(exists|k: int| #[trigger] rolled_back(new_calls(base, vault.calls()), payload.secrets@, k, dv)
                    && named@ == payload.secrets@[k].0);
                return Err(e);
            },
        }
        proof {
            let old_fresh = fresh;
            fresh = fresh.push(VaultCall::Put { reference: reference@, secret: secret@, answer: Ok(()) });
            assert(vault.calls() =~= base + fresh);
            assert(secrets@[i as int] == (reference@, secret@));
            assert forall|t: int| 0 <= t < i + 1 implies #[trigger] fresh[t] == VaultCall::Put {
                reference: secrets@[t].0, secret: secrets@[t].1, answer: Ok(()) } by {
                if t < i {
                    assert(fresh[t] == old_fresh[t]);
                }
            }
        }
        let ghost before_put = put@;
        proof {
            assert(before_put.map_values(|t: String| t@).len() == before_put.len());
            assert(secret_names(secrets@.take(i as int)).len() == i);
        }
        put.push(owned(reference));
        proof {
            assert(secrets@[i as int].0 == reference@);
            assert forall|k: int| 0 <= k < i + 1 implies #[trigger] put@[k]@ == secrets@[k].0 by {
                if k < i {
                    assert(before_put[k] == put@[k]);
                    assert(before_put.map_values(|t: String| t@)[k] == secret_names(secrets@.take(i as int))[k]);
                }
            }
            assert(put@.map_values(|t: String| t@) =~= secret_names(secrets@.take(i + 1)));
        }
    }
    let ghost cur = entries_view(current.connections@);
    let ghost inc = entries_view(incoming.connections@);
    let ghost keep = |x: EntryView| !has_id(inc, x.id);
    let mut merged: Vec<ConnectionEntry> = Vec::new();
    for i in 0..current.connections.len()
        invariant
            cur == entries_view(current.connections@),
            inc == entries_view(incoming.connections@),
            keep == (|x: EntryView| !has_id(inc, x.id)),
            entries_view(merged@) == cur.take(i as int).filter(keep),
    {
        let held = &current.connections[i];
        let ghost before = merged@;
        proof {
            assert(cur.take(i + 1).drop_last() == cur.take(i as int));
            assert(cur.take(i + 1).last() == cur[i as int]);
            reveal(Seq::filter);
        }
        if !incoming.contains(held.id.as_str()) {
            merged.push(held.duplicate());
            assert(entries_view(merged@) =~= entries_view(before).push(cur[i as int]));
        }
    }
    assert(cur.take(cur.len() as int) == cur);
    let ghost kept = entries_view(merged@);
    for i in 0..incoming.connections.len()
        invariant
            inc == entries_view(incoming.connections@),
            entries_view(merged@) == kept + inc.take(i as int),
    {
        let ghost before = entries_view(merged@);
        merged.push(incoming.connections[i].duplicate());
        assert(inc.take(i + 1) =~= inc.take(i as int).push(inc[i as int]));
        assert(entries_view(merged@) =~= before.push(inc[i as int]));
        assert(entries_view(merged@) =~= kept + inc.take(i + 1));
    }
    assert(inc.take(inc.len() as int) == inc);
    assert(new_calls(base, vault.calls()) =~= fresh);
    assert(vault.calls().subrange(0, base.len() as int) =~= base);
    Ok(Connections { version: current.version, connections: merged })
}

/// What comes in wins. Every incoming connection is in the merged list; every
/// current connection whose identifier does not come in stays; and a
/// connection in the merged list whose identifier came in is one of the
/// incoming ones, so the one it replaced is gone.
pub proof fn lemma_incoming_wins(current: Seq<EntryView>, incoming: Seq<EntryView>)
    ensures
        forall|j: int|
            0 <= j < incoming.len() ==> #[trigger] merged_entries(current, incoming).contains(
                incoming[j],
            ),
        forall|j: int|
            0 <= j < current.len() && !has_id(incoming, current[j].id) ==> merged_entries(
                current,
                incoming,
            ).contains(#[trigger] current[j]),
        forall|k: int|
            0 <= k < merged_entries(current, incoming).len() && has_id(
                incoming,
                (#[trigger] merged_entries(current, incoming)[k]).id,
            ) ==> incoming.contains(merged_entries(current, incoming)[k]),
        merged_entries(current, incoming).len() <= current.len() + incoming.len(),
{
    let keep = |x: EntryView| !has_id(incoming, x.id);
    let kept = current.filter(keep);
    let m = merged_entries(current, incoming);
    assert(m == kept + incoming);
    broadcast use vstd::seq_lib::group_filter_ensures;
    assert forall|j: int| 0 <= j < incoming.len() implies #[trigger] m.contains(incoming[j]) by {
        assert(m[kept.len() + j] == incoming[j]);
    }
    assert forall|j: int| 0 <= j < current.len() && !has_id(incoming, current[j].id) implies m.contains(
        #[trigger] current[j],
    ) by {
        current.lemma_filter_contains(keep, j);
        let w = choose|w: int| 0 <= w < kept.len() && #[trigger] kept[w] == current[j];
        assert(m[w] == current[j]);
    }
    assert forall|k: int| 0 <= k < m.len() && has_id(incoming, (#[trigger] m[k]).id) implies incoming.contains(
        m[k],
    ) by {
        if k < kept.len() {
            current.lemma_filter_pred(keep, k);
            assert(m[k] == kept[k]);
        } else {
            assert(m[k] == incoming[k - kept.len()]);
        }
    }
    current.lemma_filter_len(keep);
}

/// The names looked up for a prefix of the identifiers come first among
/// those looked up for all of them.
proof fn lemma_export_refs_grow(entries: Seq<EntryView>, ids: Seq<Seq<char>>, m: int)
    requires
        0 <= m <= ids.len(),
    ensures
        export_refs(entries, ids.take(m)).len() <= export_refs(entries, ids).len(),
        forall|t: int| 0 <= t < export_refs(entries, ids.take(m)).len() ==> export_refs(entries, ids.take(m))[t]
            == export_refs(entries, ids)[t],
    decreases ids.len(),
{
    if m < ids.len() {
        let d = ids.drop_last();
        assert(d.take(m) == ids.take(m));
        lemma_export_refs_grow(entries, d, m);
    } else {
        assert(ids.take(m) == ids);
    }
}

/// Once an identifier is not registered, nothing more is looked up.
proof fn lemma_export_refs_prefix_none(entries: Seq<EntryView>, ids: Seq<Seq<char>>, i: int)
    requires
        0 <= i < ids.len(),
        ticked(entries, ids.take(i + 1)) is None,
    ensures
        export_refs(entries, ids) == export_refs(entries, ids.take(i + 1)),
    decreases ids.len() - i,
{
    if i + 1 < ids.len() {
        assert(ids.take(i + 2).drop_last() == ids.take(i + 1));
        lemma_export_refs_prefix_none(entries, ids, i + 1);
    } else {
        assert(ids.take(i + 1) == ids);
    }
}

/// Every name and secret held after giving `name` a secret is that pair or
/// one held before.
proof fn lemma_with_secret_pairs(s: Seq<(Seq<char>, Seq<char>)>, name: Seq<char>, secret: Seq<char>)
    ensures
        forall|k: int| 0 <= k < with_secret(s, name, secret).len() ==> #[trigger] with_secret(s, name, secret)[k] == (name, secret)
            || exists|j: int| 0 <= j < s.len() && s[j] == with_secret(s, name, secret)[k],
{
    lemma_names_before(s, name);
    let p = names_before(s, name) as int;
    let w = with_secret(s, name, secret);
    assert forall|k: int| 0 <= k < w.len() implies #[trigger] w[k] == (name, secret) || exists|j: int| 0 <= j < s.len() && s[j] == w[k] by {
        if p < s.len() && s[p].0 == name {
            if k != p {
                assert(s[k] == w[k]);
            }
        } else {
            if k < p {
                assert(s[k] == w[k]);
            } else if k > p {
                assert(s[k - 1] == w[k]);
            }
        }
    }
}

proof fn lemma_ticked_prefix_none(entries: Seq<EntryView>, ids: Seq<Seq<char>>, i: int)
    requires
        0 <= i < ids.len(),
        ticked(entries, ids.take(i + 1)) is None,
    ensures
        ticked(entries, ids) is None,
    decreases ids.len() - i,
{
    if i + 1 < ids.len() {
        assert(ids.take(i + 2).drop_last() == ids.take(i + 1));
        lemma_ticked_prefix_none(entries, ids, i + 1);
    } else {
        assert(ids.take(i + 1) == ids);
    }
}

} // verus!
