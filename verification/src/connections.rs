//! The registered connections and their rules.
//!
//! No secret lives here: a connection holds only the names under which the
//! OS credential store keeps its secrets. Host and user never reach the agent;
//! it gets a [`ConnectionSummary`].

use vstd::prelude::*;
use crate::text::{blank, chars_of, decimal, is_blank, owned, push_decimal, push_str, same_text};

verus! {

/// The format version this build reads and writes.
pub const CURRENT_VERSION: u32 = 1;

/// The default SSH port.
pub const DEFAULT_PORT: u16 = 22;

pub fn default_port() -> (p: u16)
    ensures
        p == DEFAULT_PORT,
{
    DEFAULT_PORT
}

/// The longest tag, counted in characters (not bytes), that fits on a line.
pub const CONNECTION_TAG_MAX_CHARS: usize = 12;

/// The colours a connection may be marked with.
pub const CONNECTION_COLORS: [&'static str; 7] = [
    "red",
    "orange",
    "yellow",
    "green",
    "blue",
    "purple",
    "gray",
];

/// Whether `c` names a colour of the palette.
pub open spec fn in_palette(c: Seq<char>) -> bool {
    ||| c == "red"@
    ||| c == "orange"@
    ||| c == "yellow"@
    ||| c == "green"@
    ||| c == "blue"@
    ||| c == "purple"@
    ||| c == "gray"@
}

/// Whether a colour belongs to the palette.
pub fn is_connection_color(color: &str) -> (r: bool)
    ensures
        r == in_palette(color@),
{
    same_text(color, "red") || same_text(color, "orange") || same_text(color, "yellow")
        || same_text(color, "green") || same_text(color, "blue") || same_text(color, "purple")
        || same_text(color, "gray")
}

/// Whether a tag fits: at most [`CONNECTION_TAG_MAX_CHARS`] characters.
pub fn is_connection_tag(tag: &str) -> (r: bool)
    ensures
        r == (tag@.len() <= CONNECTION_TAG_MAX_CHARS),
{
    chars_of(tag).len() <= CONNECTION_TAG_MAX_CHARS
}

/// One registered connection. A person registers it in the GUI.
#[derive(Debug, Clone, PartialEq, Eq)]
pub struct ConnectionEntry {
    /// The identifier machines use; the agent sees it.
    pub id: String,
    /// The name a person reads; the agent sees it.
    pub name: String,
    /// Never given to the agent.
    pub host: String,
    pub port: u16,
    /// Never given to the agent.
    pub user: String,
    /// The private key; without one, ssh-agent (or a stored password) is used.
    pub key_path: Option<String>,
    /// The credential-store name of the key's passphrase, not the passphrase.
    pub keyring_passphrase_ref: Option<String>,
    /// The credential-store name of the login password, not the password.
    pub keyring_password_ref: Option<String>,
    /// The pinned host-key fingerprint.
    pub fingerprint: Option<String>,
    /// A `known_hosts` file; the default place when absent.
    pub known_hosts: Option<String>,
    /// A colour from the palette, to tell production from the rest at a glance.
    pub color: Option<String>,
    /// A short label shown beside the name.
    pub tag: Option<String>,
    /// Directories the agent may write under; empty means it writes nowhere.
    pub write_roots: Vec<String>,
}

/// What the agent is given of a connection: never host, user, port or key.
#[derive(Debug, Clone, PartialEq, Eq)]
pub struct ConnectionSummary {
    pub id: String,
    pub name: String,
    pub tag: Option<String>,
    pub write_roots: Vec<String>,
}

/// An optional text by its characters.
pub open spec fn opt_view(o: Option<String>) -> Option<Seq<char>> {
    match o {
        Some(s) => Some(s@),
        None => None,
    }
}

/// A list of texts by their characters.
pub open spec fn texts_view(v: Seq<String>) -> Seq<Seq<char>> {
    v.map_values(|s: String| s@)
}

/// A connection as plain values.
pub struct EntryView {
    pub id: Seq<char>,
    pub name: Seq<char>,
    pub host: Seq<char>,
    pub port: u16,
    pub user: Seq<char>,
    pub key_path: Option<Seq<char>>,
    pub keyring_passphrase_ref: Option<Seq<char>>,
    pub keyring_password_ref: Option<Seq<char>>,
    pub fingerprint: Option<Seq<char>>,
    pub known_hosts: Option<Seq<char>>,
    pub color: Option<Seq<char>>,
    pub tag: Option<Seq<char>>,
    pub write_roots: Seq<Seq<char>>,
}

impl View for ConnectionEntry {
    type V = EntryView;

    open spec fn view(&self) -> EntryView {
        EntryView {
            id: self.id@,
            name: self.name@,
            host: self.host@,
            port: self.port,
            user: self.user@,
            key_path: opt_view(self.key_path),
            keyring_passphrase_ref: opt_view(self.keyring_passphrase_ref),
            keyring_password_ref: opt_view(self.keyring_password_ref),
            fingerprint: opt_view(self.fingerprint),
            known_hosts: opt_view(self.known_hosts),
            color: opt_view(self.color),
            tag: opt_view(self.tag),
            write_roots: texts_view(self.write_roots@),
        }
    }
}

/// What the agent sees of a connection, as plain values.
pub struct SummaryView {
    pub id: Seq<char>,
    pub name: Seq<char>,
    pub tag: Option<Seq<char>>,
    pub write_roots: Seq<Seq<char>>,
}

impl View for ConnectionSummary {
    type V = SummaryView;

    open spec fn view(&self) -> SummaryView {
        SummaryView {
            id: self.id@,
            name: self.name@,
            tag: opt_view(self.tag),
            write_roots: texts_view(self.write_roots@),
        }
    }
}

/// The summary of a connection: identifier, name, tag and where the agent may write.
pub open spec fn summary_of(e: EntryView) -> SummaryView {
    SummaryView { id: e.id, name: e.name, tag: e.tag, write_roots: e.write_roots }
}

/// The credential-store names a connection refers to.
pub open spec fn refs_of(e: EntryView) -> Seq<Seq<char>> {
    (match e.keyring_passphrase_ref {
        Some(r) => seq![r],
        None => seq![],
    }) + (match e.keyring_password_ref {
        Some(r) => seq![r],
        None => seq![],
    })
}

/// A copy of a text.
pub fn copy_text(s: &String) -> (r: String)
    ensures
        r@ == s@,
{
    s.clone()
}

/// A copy of an optional text.
pub fn copy_opt(o: &Option<String>) -> (r: Option<String>)
    ensures
        opt_view(r) == opt_view(*o),
{
    match o {
        Some(s) => Some(s.clone()),
        None => None,
    }
}

/// A copy of a list of texts.
pub fn copy_texts(v: &Vec<String>) -> (r: Vec<String>)
    ensures
        texts_view(r@) == texts_view(v@),
{
    let mut r: Vec<String> = Vec::new();
    for i in 0..v.len()
        invariant
            r@.len() == i,
            forall|k: int| 0 <= k < i ==> #[trigger] r@[k]@ == v@[k]@,
    {
        let c = v[i].clone();
        r.push(c);
    }
    assert(texts_view(r@) =~= texts_view(v@));
    r
}

impl ConnectionEntry {
    /// A copy of this connection.
    pub fn duplicate(&self) -> (r: ConnectionEntry)
        ensures
            r@ == self@,
    {
        ConnectionEntry {
            id: self.id.clone(),
            name: self.name.clone(),
            host: self.host.clone(),
            port: self.port,
            user: self.user.clone(),
            key_path: copy_opt(&self.key_path),
            keyring_passphrase_ref: copy_opt(&self.keyring_passphrase_ref),
            keyring_password_ref: copy_opt(&self.keyring_password_ref),
            fingerprint: copy_opt(&self.fingerprint),
            known_hosts: copy_opt(&self.known_hosts),
            color: copy_opt(&self.color),
            tag: copy_opt(&self.tag),
            write_roots: copy_texts(&self.write_roots),
        }
    }

    /// The form the agent may see.
    pub fn summary(&self) -> (s: ConnectionSummary)
        ensures
            s@ == summary_of(self@),
    {
        ConnectionSummary {
            id: self.id.clone(),
            name: self.name.clone(),
            tag: copy_opt(&self.tag),
            write_roots: copy_texts(&self.write_roots),
        }
    }

    /// The credential-store names this connection refers to.
    pub fn keyring_refs(&self) -> (r: Vec<&str>)
        ensures
            r@.map_values(|t: &str| t@) == refs_of(self@),
    {
        let mut r: Vec<&str> = Vec::new();
        if let Some(p) = &self.keyring_passphrase_ref {
            r.push(p.as_str());
        }
        if let Some(p) = &self.keyring_password_ref {
            r.push(p.as_str());
        }
        assert(r@.map_values(|t: &str| t@) =~= refs_of(self@));
        r
    }
}

/// Why a list of connections was refused. Never swallowed.
#[derive(Debug, PartialEq, Eq)]
pub enum ConnectionsError {
    /// The file could not be read as the format.
    Malformed { detail: String },
    /// A version this build does not know; stopped, not dropped.
    UnknownVersion { found: u32 },
    /// Two connections with one identifier: which to use cannot be decided.
    DuplicateId { id: String },
    /// A connection without an identifier.
    EmptyId,
    /// A colour outside the palette.
    UnknownColor { id: String, color: String },
    /// A tag too long for a line.
    TagTooLong { id: String, chars: usize },
    /// The file could not be touched.
    Io { detail: String },
    /// Where settings live is unknown.
    NoConfigDirectory,
}

/// What a person reads for a refused list.
pub open spec fn connections_error_text(e: ConnectionsError) -> Seq<char> {
    match e {
        ConnectionsError::Malformed { detail } => "接続の一覧を読めません: "@ + detail@,
        ConnectionsError::UnknownVersion { found } => "知らない版の接続一覧です（version = "@ + decimal(
            found as nat,
        ) + "）"@,
        ConnectionsError::DuplicateId { id } => "識別子が重複しています: "@ + id@,
        ConnectionsError::EmptyId => "識別子が空の接続があります"@,
        ConnectionsError::UnknownColor { id, color } => "`"@ + id@ + "` の色 `"@ + color@ + "` は配色にありません"@,
        ConnectionsError::TagTooLong { id, chars } => "`"@ + id@ + "` のタグが長すぎます（"@ + decimal(
            chars as nat,
        ) + " 文字・上限 12 文字）"@,
        ConnectionsError::Io { detail } => "接続の一覧を触れません: "@ + detail@,
        ConnectionsError::NoConfigDirectory => "設定の置き場所が分かりません"@,
    }
}

impl ConnectionsError {
    /// What was wrong with the list, for a person.
    pub fn message(&self) -> (m: String)
        ensures
            m@ == connections_error_text(*self),
    {
        match self {
            ConnectionsError::Malformed { detail } => {
                let mut m = owned("接続の一覧を読めません: ");
                push_str(&mut m, detail.as_str());
                m
            },
            ConnectionsError::UnknownVersion { found } => {
                let mut m = owned("知らない版の接続一覧です（version = ");
                push_decimal(&mut m, *found as u64);
                push_str(&mut m, "）");
                m
            },
            ConnectionsError::DuplicateId { id } => {
                let mut m = owned("識別子が重複しています: ");
                push_str(&mut m, id.as_str());
                m
            },
            ConnectionsError::EmptyId => owned("識別子が空の接続があります"),
            ConnectionsError::UnknownColor { id, color } => {
                let mut m = owned("`");
                push_str(&mut m, id.as_str());
                push_str(&mut m, "` の色 `");
                push_str(&mut m, color.as_str());
                push_str(&mut m, "` は配色にありません");
                m
            },
            ConnectionsError::TagTooLong { id, chars } => {
                let mut m = owned("`");
                push_str(&mut m, id.as_str());
                push_str(&mut m, "` のタグが長すぎます（");
                push_decimal(&mut m, *chars as u64);
                push_str(&mut m, " 文字・上限 12 文字）");
                m
            },
            ConnectionsError::Io { detail } => {
                let mut m = owned("接続の一覧を触れません: ");
                push_str(&mut m, detail.as_str());
                m
            },
            ConnectionsError::NoConfigDirectory => owned("設定の置き場所が分かりません"),
        }
    }
}

/// The list of registered connections.
#[derive(Debug, Clone, PartialEq, Eq)]
pub struct Connections {
    pub version: u32,
    pub connections: Vec<ConnectionEntry>,
}

/// The connections as plain values.
pub open spec fn entries_view(v: Seq<ConnectionEntry>) -> Seq<EntryView> {
    v.map_values(|e: ConnectionEntry| e@)
}

/// What is wrong with connection `i`, given the ones before it.
pub open spec fn entry_fault(entries: Seq<ConnectionEntry>, i: int) -> Option<ConnectionsError> {
    let e = entries[i];
    if is_blank(e.id@) {
        Some(ConnectionsError::EmptyId)
    } else if exists|j: int| 0 <= j < i && #[trigger] entries[j].id@ == e.id@ {
        Some(ConnectionsError::DuplicateId { id: e.id })
    } else if e.color is Some && !in_palette(e.color->0@) {
        Some(ConnectionsError::UnknownColor { id: e.id, color: e.color->0 })
    } else if e.tag is Some && e.tag->0@.len() > CONNECTION_TAG_MAX_CHARS {
        Some(ConnectionsError::TagTooLong { id: e.id, chars: e.tag->0@.len() as usize })
    } else {
        None
    }
}

/// The first fault from connection `i` on, checked in order.
pub open spec fn first_fault(entries: Seq<ConnectionEntry>, i: int) -> Option<ConnectionsError>
    decreases entries.len() - i,
{
    if i < 0 || i >= entries.len() {
        None
    } else {
        match entry_fault(entries, i) {
            Some(f) => Some(f),
            None => first_fault(entries, i + 1),
        }
    }
}

/// Why a list may not be read or written, if it may not.
pub open spec fn fault_of(c: Connections) -> Option<ConnectionsError> {
    if c.version != CURRENT_VERSION {
        Some(ConnectionsError::UnknownVersion { found: c.version })
    } else {
        first_fault(c.connections@, 0)
    }
}

/// The position of the first connection with this identifier.
pub open spec fn position_of(entries: Seq<EntryView>, id: Seq<char>) -> Option<int>
    decreases entries.len(),
{
    if entries.len() == 0 {
        None
    } else if entries[0].id == id {
        Some(0)
    } else {
        match position_of(entries.drop_first(), id) {
            Some(k) => Some(k + 1),
            None => None,
        }
    }
}

/// Every identifier in the list is distinct.
pub open spec fn ids_distinct(entries: Seq<EntryView>) -> bool {
    forall|i: int, j: int|
        0 <= i < entries.len() && 0 <= j < entries.len() && i != j ==> #[trigger] entries[i].id
            != #[trigger] entries[j].id
}

/// `position_of` finds the first match, and finds nothing only when there is none.
pub proof fn lemma_position(entries: Seq<EntryView>, id: Seq<char>)
    ensures
        match position_of(entries, id) {
            Some(k) => 0 <= k < entries.len() && entries[k].id == id && forall|j: int|
                0 <= j < k ==> #[trigger] entries[j].id != id,
            None => forall|j: int| 0 <= j < entries.len() ==> #[trigger] entries[j].id != id,
        },
    decreases entries.len(),
{
    if entries.len() > 0 && entries[0].id != id {
        let rest = entries.drop_first();
        lemma_position(rest, id);
        assert(forall|j: int| 0 < j < entries.len() ==> entries[j] == rest[j - 1]);
    }
}

proof fn lemma_first_position(entries: Seq<EntryView>, id: Seq<char>, k: int)
    requires
        0 <= k < entries.len(),
        entries[k].id == id,
        forall|j: int| 0 <= j < k ==> entries[j].id != id,
    ensures
        position_of(entries, id) == Some(k),
{
    lemma_position(entries, id);
    match position_of(entries, id) {
        Some(p) => {
            if p < k {
                assert(entries[p].id != id);
            } else if p > k {
                assert(entries[k].id != id);
            }
        },
        None => {
            assert(entries[k].id != id);
        },
    }
}

impl Connections {
    /// No connection yet, at the current version.
    pub fn empty() -> (c: Self)
        ensures
            c.version == CURRENT_VERSION,
            c.connections@.len() == 0,
    {
        Connections { version: CURRENT_VERSION, connections: Vec::new() }
    }

    /// Refuses an unknown version, an empty or repeated identifier, a colour
    /// outside the palette and a tag that is too long; the first problem in
    /// list order is reported.
    pub fn validate(&self) -> (r: Result<(), ConnectionsError>)
        ensures
            match fault_of(*self) {
                None => r == Ok::<(), ConnectionsError>(()),
                Some(f) => r == Err::<(), ConnectionsError>(f),
            },
    {
        if self.version != CURRENT_VERSION {
            return Err(ConnectionsError::UnknownVersion { found: self.version });
        }
        let entries = &self.connections;
        let ghost all = entries@;
        for i in 0..entries.len()
            invariant
                all == entries@,
                self.version == CURRENT_VERSION,
                self.connections@ == all,
                first_fault(all, 0) == first_fault(all, i as int),
        {
            let e = &entries[i];
            if blank(e.id.as_str()) {
                return Err(ConnectionsError::EmptyId);
            }
            let mut j: usize = 0;
            while j < i
                invariant
                    j <= i < all.len(),
                    all == entries@,
                    self.version == CURRENT_VERSION,
                    self.connections@ == all,
                    first_fault(all, 0) == first_fault(all, i as int),
                    !is_blank(all[i as int].id@),
                    *e == all[i as int],
                    forall|k: int| 0 <= k < j ==> #[trigger] all[k].id@ != e.id@,
                decreases i - j,
            {
                if same_text(entries[j].id.as_str(), e.id.as_str()) {
                    assert(all[j as int].id@ == e.id@);
                    assert(entry_fault(all, i as int) == Some(ConnectionsError::DuplicateId { id: e.id }));
                    return Err(ConnectionsError::DuplicateId { id: e.id.clone() });
                }
                j += 1;
            }
            if let Some(color) = &e.color {
                if !is_connection_color(color.as_str()) {
                    return Err(ConnectionsError::UnknownColor { id: e.id.clone(), color: color.clone() });
                }
            }
            if let Some(tag) = &e.tag {
                if !is_connection_tag(tag.as_str()) {
                    let chars = chars_of(tag.as_str()).len();
                    return Err(ConnectionsError::TagTooLong { id: e.id.clone(), chars });
                }
            }
            assert(entry_fault(all, i as int) == None::<ConnectionsError>);
        }
        Ok(())
    }

    /// What the agent is given: identifier, name, tag and write roots of each.
    pub fn summaries(&self) -> (s: Vec<ConnectionSummary>)
        ensures
            s@.map_values(|x: ConnectionSummary| x@) == entries_view(self.connections@).map_values(
                |e: EntryView| summary_of(e),
            ),
    {
        let mut s: Vec<ConnectionSummary> = Vec::new();
        for i in 0..self.connections.len()
            invariant
                s@.len() == i,
                forall|k: int| 0 <= k < i ==> #[trigger] s@[k]@ == summary_of(self.connections@[k]@),
        {
            let one = self.connections[i].summary();
            s.push(one);
        }
        assert(s@.map_values(|x: ConnectionSummary| x@) =~= entries_view(self.connections@).map_values(
            |e: EntryView| summary_of(e),
        ));
        s
    }

    /// The connection with this identifier, for local use only.
    pub fn get(&self, id: &str) -> (r: Option<&ConnectionEntry>)
        ensures
            match position_of(entries_view(self.connections@), id@) {
                None => r is None,
                Some(k) => r == Some(&self.connections@[k]),
            },
    {
        let ghost view = entries_view(self.connections@);
        for i in 0..self.connections.len()
            invariant
                view == entries_view(self.connections@),
                forall|j: int| 0 <= j < i ==> view[j].id != id@,
        {
            if same_text(self.connections[i].id.as_str(), id) {
                proof {
                    lemma_first_position(view, id@, i as int);
                }
                return Some(&self.connections[i]);
            }
        }
        proof {
            lemma_position(view, id@);
            if position_of(view, id@) is Some {
                let k = position_of(view, id@)->0;
                assert(view[k].id != id@);
            }
        }
        None
    }
}

/// Whether some connection has this identifier.
pub open spec fn has_id(entries: Seq<EntryView>, id: Seq<char>) -> bool {
    exists|i: int| 0 <= i < entries.len() && #[trigger] entries[i].id == id
}

/// Every connection with the identifier of `e` replaced by `e`.
pub open spec fn replaced(entries: Seq<EntryView>, e: EntryView) -> Seq<EntryView> {
    entries.map_values(|x: EntryView| if x.id == e.id { e } else { x })
}

/// The list after saving `e`: it replaces the connections with its
/// identifier, or joins the end when there is none.
pub open spec fn saved_entries(entries: Seq<EntryView>, e: EntryView) -> Seq<EntryView> {
    if has_id(entries, e.id) {
        replaced(entries, e)
    } else {
        entries.push(e)
    }
}

/// The list without the connections that have this identifier.
pub open spec fn removed_entries(entries: Seq<EntryView>, id: Seq<char>) -> Seq<EntryView> {
    entries.filter(|x: EntryView| x.id != id)
}

/// The connection with its login-password reference set (or cleared).
pub open spec fn with_password(x: EntryView, reference: Option<Seq<char>>) -> EntryView {
    EntryView { keyring_password_ref: reference, ..x }
}

/// The list with the password reference of the connections with this
/// identifier replaced.
pub open spec fn password_set_entries(
    entries: Seq<EntryView>,
    id: Seq<char>,
    reference: Option<Seq<char>>,
) -> Seq<EntryView> {
    entries.map_values(|x: EntryView| if x.id == id { with_password(x, reference) } else { x })
}

/// The refusal when no connection has the identifier.
pub open spec fn unknown_connection_message(id: Seq<char>) -> Seq<char> {
    "そんな接続はありません: "@ + id
}

impl Connections {
    /// Whether a connection with this identifier is registered.
    pub fn contains(&self, id: &str) -> (r: bool)
        ensures
            r == has_id(entries_view(self.connections@), id@),
    {
        let ghost view = entries_view(self.connections@);
        for i in 0..self.connections.len()
            invariant
                view == entries_view(self.connections@),
                forall|j: int| 0 <= j < i ==> view[j].id != id@,
        {
            if same_text(self.connections[i].id.as_str(), id) {
                assert(view[i as int].id == id@);
                return true;
            }
        }
        false
    }

    /// A copy of the list with `entry` saved: it replaces the connection with
    /// the same identifier, or is added at the end. Also says which happened.
    pub fn with_saved(&self, entry: &ConnectionEntry) -> (r: (Connections, bool))
        ensures
            r.0.version == self.version,
            r.1 == has_id(entries_view(self.connections@), entry@.id),
            entries_view(r.0.connections@) == saved_entries(entries_view(self.connections@), entry@),
    {
        let existed = self.contains(entry.id.as_str());
        let ghost view = entries_view(self.connections@);
        let mut next: Vec<ConnectionEntry> = Vec::new();
        for i in 0..self.connections.len()
            invariant
                view == entries_view(self.connections@),
                next@.len() == i,
                forall|k: int| 0 <= k < i ==> #[trigger] next@[k]@ == (if view[k].id == entry@.id {
                    entry@
                } else {
                    view[k]
                }),
        {
            let held = &self.connections[i];
            if same_text(held.id.as_str(), entry.id.as_str()) {
                next.push(entry.duplicate());
            } else {
                next.push(held.duplicate());
            }
        }
        if !existed {
            next.push(entry.duplicate());
        }
        proof {
            if existed {
                assert(entries_view(next@) =~= replaced(view, entry@));
            } else {
                assert forall|k: int| 0 <= k < view.len() implies view[k].id != entry@.id by {
                    if view[k].id == entry@.id {
                        assert(has_id(view, entry@.id));
                    }
                }
                assert(entries_view(next@) =~= view.push(entry@));
            }
        }
        (Connections { version: self.version, connections: next }, existed)
    }

    /// A copy of the list without the connections that have this identifier.
    pub fn without(&self, id: &str) -> (r: Connections)
        ensures
            r.version == self.version,
            entries_view(r.connections@) == removed_entries(entries_view(self.connections@), id@),
    {
        let ghost view = entries_view(self.connections@);
        let mut next: Vec<ConnectionEntry> = Vec::new();
        for i in 0..self.connections.len()
            invariant
                view == entries_view(self.connections@),
                entries_view(next@) == removed_entries(view.take(i as int), id@),
        {
            let held = &self.connections[i];
            let ghost before = next@;
            proof {
                assert(view.take(i + 1).drop_last() == view.take(i as int));
                assert(view.take(i + 1).last() == view[i as int]);
                reveal(Seq::filter);
            }
            if !same_text(held.id.as_str(), id) {
                next.push(held.duplicate());
                assert(entries_view(next@) =~= entries_view(before).push(view[i as int]));
            }
        }
        assert(view.take(view.len() as int) == view);
        Connections { version: self.version, connections: next }
    }

    /// Whether the connection keeps a login password in the credential store.
    pub fn has_password(&self, id: &str) -> (r: bool)
        ensures
            r == exists|i: int|
                0 <= i < self.connections@.len() && #[trigger] self.connections@[i]@.id == id@
                    && self.connections@[i]@.keyring_password_ref is Some,
    {
        for i in 0..self.connections.len()
            invariant
                forall|j: int|
                    0 <= j < i ==> !(#[trigger] self.connections@[j]@.id == id@
                        && self.connections@[j]@.keyring_password_ref is Some),
        {
            let held = &self.connections[i];
            if same_text(held.id.as_str(), id) && held.keyring_password_ref.is_some() {
                assert(self.connections@[i as int]@.id == id@
                    && self.connections@[i as int]@.keyring_password_ref is Some);
                return true;
            }
        }
        false
    }

    /// A copy of the list where the connection with this identifier refers to
    /// `reference` for its login password (or to none). Refused when no
    /// connection has the identifier.
    pub fn with_password_ref(&self, id: &str, reference: Option<String>) -> (r: Result<Connections, String>)
        ensures
            !has_id(entries_view(self.connections@), id@) ==> (r matches Err(m) && m@
                == unknown_connection_message(id@)),
            has_id(entries_view(self.connections@), id@) ==> (r matches Ok(c) && c.version
                == self.version && entries_view(c.connections@) == password_set_entries(
                entries_view(self.connections@),
                id@,
                opt_view(reference),
            )),
    {
        if !self.contains(id) {
            let mut m = crate::text::owned("そんな接続はありません: ");
            crate::text::push_str(&mut m, id);
            return Err(m);
        }
        let ghost view = entries_view(self.connections@);
        let mut next: Vec<ConnectionEntry> = Vec::new();
        for i in 0..self.connections.len()
            invariant
                view == entries_view(self.connections@),
                next@.len() == i,
                forall|k: int| 0 <= k < i ==> #[trigger] next@[k]@ == (if view[k].id == id@ {
                    with_password(view[k], opt_view(reference))
                } else {
                    view[k]
                }),
        {
            let held = self.connections[i].duplicate();
            if same_text(held.id.as_str(), id) {
                let mut changed = held;
                changed.keyring_password_ref = copy_opt(&reference);
                assert(changed@ == with_password(view[i as int], opt_view(reference)));
                next.push(changed);
            } else {
                next.push(held);
            }
        }
        assert(entries_view(next@) =~= password_set_entries(view, id@, opt_view(reference)));
        Ok(Connections { version: self.version, connections: next })
    }
}

/// Saving a connection and then looking its identifier up gives back that
/// connection, and every connection with another identifier is still there,
/// in the same order.
pub proof fn lemma_saved_then_found(entries: Seq<EntryView>, e: EntryView)
    ensures
        position_of(saved_entries(entries, e), e.id) is Some,
        saved_entries(entries, e)[position_of(saved_entries(entries, e), e.id)->0] == e,
        removed_entries(saved_entries(entries, e), e.id) == removed_entries(entries, e.id),
{
    lemma_saved_found(entries, e);
    if has_id(entries, e.id) {
        lemma_filter_map_same(entries, e);
    } else {
        lemma_filter_push_same(entries, e);
    }
}

proof fn lemma_saved_found(entries: Seq<EntryView>, e: EntryView)
    ensures
        position_of(saved_entries(entries, e), e.id) is Some,
        saved_entries(entries, e)[position_of(saved_entries(entries, e), e.id)->0] == e,
{
    let s = saved_entries(entries, e);
    lemma_position(s, e.id);
    if has_id(entries, e.id) {
        let w = choose|i: int| 0 <= i < entries.len() && #[trigger] entries[i].id == e.id;
        assert(s[w].id == e.id);
        match position_of(s, e.id) {
            Some(k) => {
                if entries[k].id != e.id {
                    assert(s[k] == entries[k]);
                }
            },
            None => {
                assert(s[w].id != e.id);
            },
        }
    } else {
        assert(s[entries.len() as int].id == e.id);
        match position_of(s, e.id) {
            Some(k) => {
                if k < entries.len() {
                    assert(s[k] == entries[k]);
                    assert(has_id(entries, e.id));
                }
            },
            None => {
                assert(s[entries.len() as int].id != e.id);
            },
        }
    }
}

proof fn lemma_filter_push_same(entries: Seq<EntryView>, e: EntryView)
    ensures
        removed_entries(entries.push(e), e.id) == removed_entries(entries, e.id),
{
    reveal(Seq::filter);
    assert(entries.push(e).drop_last() == entries);
}

proof fn lemma_filter_map_same(entries: Seq<EntryView>, e: EntryView)
    ensures
        removed_entries(replaced(entries, e), e.id) == removed_entries(entries, e.id),
    decreases entries.len(),
{
    let m = replaced(entries, e);
    reveal(Seq::filter);
    if entries.len() > 0 {
        let d = entries.drop_last();
        lemma_filter_map_same(d, e);
        assert(m.drop_last() == replaced(d, e));
    }
}

/// After removing an identifier, looking it up finds nothing.
pub proof fn lemma_removed_is_gone(entries: Seq<EntryView>, id: Seq<char>)
    ensures
        position_of(removed_entries(entries, id), id) is None,
        removed_entries(entries, id).len() <= entries.len(),
{
    let r = removed_entries(entries, id);
    broadcast use vstd::seq_lib::group_filter_ensures;
    lemma_position(r, id);
    if position_of(r, id) is Some {
        let k = position_of(r, id)->0;
        assert(r[k].id != id);
    }
}

} // verus!
