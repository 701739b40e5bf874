//! The decisions of the engine, the one place every operation goes through:
//! which connections are open and which one operations go to, who holds the
//! console, how a connection authenticates, and whether a download may land
//! where it was asked to. The sessions themselves, the network and the files
//! are driven around these decisions by the caller.

use vstd::prelude::*;
use crate::band::Actor;
use crate::diag::{Diagnostics, Level, Stage, recorded_once};
use crate::connections::{ConnectionEntry, Connections, EntryView, entries_view, opt_view, position_of, texts_view, copy_opt, copy_texts};
use crate::probes::MissingArgument;
use crate::secrets::{SecretStore, StoreCall};
use crate::text::{decimal, less_text, owned, push_decimal, push_str, same_text, text_less};

verus! {

/// The credential-store service the connection list refers into.
pub const KEYRING_SERVICE: &'static str = "sshboard";

/// What to do when the destination of a download already exists.
///
/// Refusing is the default: a download overwrites a file on the person's
/// machine, which cannot be put back from here.
#[derive(Debug, Clone, Copy, PartialEq, Eq, Structural)]
pub enum OnConflict {
    /// Refuse when it exists; nothing is touched until a person says so.
    Refuse,
    /// Only when a person chose to overwrite there and then.
    Overwrite,
}

impl Default for OnConflict {
    fn default() -> (c: Self)
        ensures
            c == OnConflict::Refuse,
    {
        OnConflict::Refuse
    }
}

/// Why the engine refused or failed. Never just "it did not work".
#[derive(Debug)]
pub enum EngineError {
    /// Nothing is connected yet.
    NotConnected,
    /// That connection is already open; it is not opened twice.
    AlreadyConnected { id: String, name: String },
    /// No connection is registered under this identifier.
    UnknownConnection(String),
    /// The connection list itself cannot be read.
    Connections(String),
    /// The key needs a passphrase, which only a person types.
    PassphraseNeeded { id: String },
    /// The other side holds the console; one side types at a time.
    ConsoleHeldByOther { holder: String },
    /// The console is not open yet.
    ConsoleNotOpen,
    /// The person holds the console; the agent may only ask for it.
    ConsoleApprovalNeeded,
    /// Operations were pointed at a connection that is not open.
    NotOpen { id: String },
    /// The console is open on another connection; it is not moved silently.
    ConsoleOnOtherConnection { id: String },
    /// The file pointed at cannot authenticate (a public key, not a key).
    /// Only the name of its format is carried, never the path.
    UnusableKey { id: String, format: String },
    /// The host key cannot be trusted: seen for the first time, or not the
    /// registered one.
    UntrustedHost { id: String, algorithm: String, fingerprint: String, expected: Option<String> },
    /// The command is not on the allowlist a person wrote.
    NotAllowed { id: String },
    /// The allowlist itself cannot be read; it is not treated as empty.
    Allowlist(String),
    /// The SSH side failed; its message.
    Ssh(String),
    /// A local file cannot be read or written.
    Local(String),
    /// An argument the operation needs is missing.
    BadArgument(String),
}

/// What a person reads for an engine error.
pub open spec fn engine_error_text(e: EngineError) -> Seq<char> {
    match e {
        EngineError::NotConnected => "まだサーバーに繋がっていません。sshboard の画面で接続を開いてください"@,
        EngineError::AlreadyConnected { id, name } => "すでに "@ + name@ + "（"@ + id@
            + "）へ繋がっています。先に切ってから繋ぎ直してください（同時に 2 本は張りません）"@,
        EngineError::UnknownConnection(id) => id@ + " という接続は登録されていません"@,
        EngineError::Connections(detail) => "接続一覧を読めません: "@ + detail@,
        EngineError::PassphraseNeeded { id } => id@
            + " の鍵にはパスフレーズが要ります。sshboard の画面で人が入れてください（AI はパスフレーズを扱いません）"@,
        EngineError::ConsoleHeldByOther { holder } => "端末は"@ + holder@
            + "が握っています。**同時に触れるのは 1 人です**（D29）。人は画面の［取り返す］でいつでも取り返せます"@,
        EngineError::ConsoleNotOpen => "端末がまだ開いていません。先に開いてから打ってください"@,
        EngineError::ConsoleApprovalNeeded => "端末は人が握っています。AI にできるのは頼むことだけです（人が答えるまで握れません）"@,
        EngineError::NotOpen { id } => id@ + " は開いていません。画面の一覧を開き直してください"@,
        EngineError::ConsoleOnOtherConnection { id } => "端末は "@ + id@
            + " で開いています。**別の接続では開き直しません**（打鍵がどちらへ行くのか分からなくなるため）。先に［止める］を押してください"@,
        EngineError::UnusableKey { id, format } => id@ + " に指定されたファイルは認証に使えません（"@
            + format@ + " と読めました）。秘密鍵のファイルを指してください（`.pub` は公開鍵で、認証には使えません）"@,
        EngineError::UntrustedHost { algorithm, fingerprint, expected, .. } => match expected {
            Some(registered) => "ホスト鍵が登録と違います（"@ + algorithm@ + " / 見えたもの "@
                + fingerprint@ + "・登録 "@ + registered@ + "）"@,
            None => "初めて見るホストです（"@ + algorithm@ + " / "@ + fingerprint@
                + "）。確かめて登録してください"@,
        },
        EngineError::NotAllowed { id } => "`"@ + id@
            + "` は許可リストにありません。sshboard が AI に走らせるのは、人が readonly.toml へ書いたものだけです（D3）。断ったことは記録に残りました。**足すかどうかは人が決めます**"@,
        EngineError::Allowlist(detail) => "コマンドの許可リストを読めません: "@ + detail@
            + "。読めない一覧を空として扱わないので、いまは 1 本も走りません"@,
        EngineError::Ssh(message) => message@,
        EngineError::Local(detail) => "手元のファイルを扱えません: "@ + detail@,
        EngineError::BadArgument(detail) => detail@,
    }
}

/// A new string of `a` then `b`.
fn joined(a: &str, b: &str) -> (s: String)
    ensures
        s@ == a@ + b@,
{
    let mut s = owned(a);
    push_str(&mut s, b);
    s
}

impl EngineError {
    /// What went wrong and what to do next.
    pub fn message(&self) -> (m: String)
        ensures
            m@ == engine_error_text(*self),
    {
        match self {
            EngineError::NotConnected => owned(
                "まだサーバーに繋がっていません。sshboard の画面で接続を開いてください",
            ),
            EngineError::AlreadyConnected { id, name } => {
                let mut m = joined("すでに ", name.as_str());
                push_str(&mut m, "（");
                push_str(&mut m, id.as_str());
                push_str(
                    &mut m,
                    "）へ繋がっています。先に切ってから繋ぎ直してください（同時に 2 本は張りません）",
                );
                m
            },
            EngineError::UnknownConnection(id) => joined(id.as_str(), " という接続は登録されていません"),
            EngineError::Connections(detail) => joined("接続一覧を読めません: ", detail.as_str()),
            EngineError::PassphraseNeeded { id } => joined(
                id.as_str(),
                " の鍵にはパスフレーズが要ります。sshboard の画面で人が入れてください（AI はパスフレーズを扱いません）",
            ),
            EngineError::ConsoleHeldByOther { holder } => {
                let mut m = joined("端末は", holder.as_str());
                push_str(
                    &mut m,
                    "が握っています。**同時に触れるのは 1 人です**（D29）。人は画面の［取り返す］でいつでも取り返せます",
                );
                m
            },
            EngineError::ConsoleNotOpen => owned("端末がまだ開いていません。先に開いてから打ってください"),
            EngineError::ConsoleApprovalNeeded => owned(
                "端末は人が握っています。AI にできるのは頼むことだけです（人が答えるまで握れません）",
            ),
            EngineError::NotOpen { id } => joined(id.as_str(), " は開いていません。画面の一覧を開き直してください"),
            EngineError::ConsoleOnOtherConnection { id } => {
                let mut m = joined("端末は ", id.as_str());
                push_str(
                    &mut m,
                    " で開いています。**別の接続では開き直しません**（打鍵がどちらへ行くのか分からなくなるため）。先に［止める］を押してください",
                );
                m
            },
            EngineError::UnusableKey { id, format } => {
                let mut m = joined(id.as_str(), " に指定されたファイルは認証に使えません（");
                push_str(&mut m, format.as_str());
                push_str(
                    &mut m,
                    " と読めました）。秘密鍵のファイルを指してください（`.pub` は公開鍵で、認証には使えません）",
                );
                m
            },
            EngineError::UntrustedHost { algorithm, fingerprint, expected, .. } => match expected {
                Some(registered) => {
                    let mut m = joined("ホスト鍵が登録と違います（", algorithm.as_str());
                    push_str(&mut m, " / 見えたもの ");
                    push_str(&mut m, fingerprint.as_str());
                    push_str(&mut m, "・登録 ");
                    push_str(&mut m, registered.as_str());
                    push_str(&mut m, "）");
                    m
                },
                None => {
                    let mut m = joined("初めて見るホストです（", algorithm.as_str());
                    push_str(&mut m, " / ");
                    push_str(&mut m, fingerprint.as_str());
                    push_str(&mut m, "）。確かめて登録してください");
                    m
                },
            },
            EngineError::NotAllowed { id } => {
                let mut m = joined("`", id.as_str());
                push_str(
                    &mut m,
                    "` は許可リストにありません。sshboard が AI に走らせるのは、人が readonly.toml へ書いたものだけです（D3）。断ったことは記録に残りました。**足すかどうかは人が決めます**",
                );
                m
            },
            EngineError::Allowlist(detail) => {
                let mut m = joined("コマンドの許可リストを読めません: ", detail.as_str());
                push_str(&mut m, "。読めない一覧を空として扱わないので、いまは 1 本も走りません");
                m
            },
            EngineError::Ssh(message) => owned(message.as_str()),
            EngineError::Local(detail) => joined("手元のファイルを扱えません: ", detail.as_str()),
            EngineError::BadArgument(detail) => owned(detail.as_str()),
        }
    }
}

/// The name of a side in records and refusals: only "person" or "AI", never
/// a destination.
pub open spec fn who_text(actor: Actor) -> Seq<char> {
    match actor {
        Actor::Human => "人"@,
        Actor::Ai => "AI"@,
    }
}

/// The name of a side in records and refusals.
pub fn who(actor: Actor) -> (s: &'static str)
    ensures
        s@ == who_text(actor),
{
    match actor {
        Actor::Human => "人",
        Actor::Ai => "AI",
    }
}

/// "The other side holds it", naming who holds it.
pub fn held_by(holder: Actor) -> (e: EngineError)
    ensures
        e matches EngineError::ConsoleHeldByOther { holder: h } && h@ == who_text(holder),
{
    EngineError::ConsoleHeldByOther { holder: owned(who(holder)) }
}

/// A missing argument, refused before anything reaches a server.
pub fn bad_argument(missing: &MissingArgument) -> (e: EngineError)
    ensures
        e matches EngineError::BadArgument(d) && d@ == missing.what@ + "を指定してください"@,
{
    EngineError::BadArgument(missing.message())
}

/// Checks where a download would land, before the server is touched. The
/// facts about the local file system come from the caller: whether the
/// destination exists, and its parent directory with whether it is one.
/// Refuses an existing destination unless overwriting was chosen, and a
/// destination whose directory is missing; directories are never made here.
pub fn check_destination(
    local: &str,
    exists: bool,
    parent: Option<&str>,
    parent_is_dir: bool,
    on_conflict: OnConflict,
) -> (r: Result<(), EngineError>)
    ensures
        (on_conflict == OnConflict::Refuse && exists) ==> (r matches Err(EngineError::Local(d)) && d@
            == local@ + " は既に在ります。上書きしてよいかは人が決めてください"@),
        !(on_conflict == OnConflict::Refuse && exists) ==> match parent {
            Some(p) if p@.len() > 0 && !parent_is_dir => (r matches Err(EngineError::Local(d)) && d@
                == p@ + " というディレクトリがありません"@),
            _ => r is Ok,
        },
{
    if on_conflict == OnConflict::Refuse && exists {
        return Err(EngineError::Local(joined(local, " は既に在ります。上書きしてよいかは人が決めてください")));
    }
    match parent {
        Some(p) => {
            if chars_len(p) > 0 && !parent_is_dir {
                Err(EngineError::Local(joined(p, " というディレクトリがありません")))
            } else {
                Ok(())
            }
        },
        None => Ok(()),
    }
}

/// The number of characters of `s`.
fn chars_len(s: &str) -> (n: usize)
    ensures
        n == s@.len(),
{
    crate::text::chars_of(s).len()
}

/// Where the agent may write on an open connection. The same thing is shown
/// to the person and to the agent.
#[derive(Debug, Clone, PartialEq, Eq)]
pub struct WriteAccess {
    /// Directories the agent may write to; empty means it may not write.
    pub ai_roots: Vec<String>,
    /// Whether the person may write anywhere: always true.
    pub human_unrestricted: bool,
}

/// One open connection in the form that may be shown outside: no host name
/// and no user name.
#[derive(Debug, Clone, PartialEq, Eq)]
pub struct Opened {
    pub id: String,
    pub name: String,
    pub tag: Option<String>,
    /// The fingerprint of the host key that answered, for a person to check.
    pub fingerprint: String,
    pub host_key_algorithm: String,
    pub write: WriteAccess,
}

/// An open connection as plain values.
pub struct OpenedView {
    pub id: Seq<char>,
    pub name: Seq<char>,
    pub tag: Option<Seq<char>>,
    pub fingerprint: Seq<char>,
    pub host_key_algorithm: Seq<char>,
    pub ai_roots: Seq<Seq<char>>,
    pub human_unrestricted: bool,
}

impl View for Opened {
    type V = OpenedView;

    open spec fn view(&self) -> OpenedView {
        OpenedView {
            id: self.id@,
            name: self.name@,
            tag: opt_view(self.tag),
            fingerprint: self.fingerprint@,
            host_key_algorithm: self.host_key_algorithm@,
            ai_roots: texts_view(self.write.ai_roots@),
            human_unrestricted: self.write.human_unrestricted,
        }
    }
}

/// The views of a list of open connections.
pub open spec fn opened_views(v: Seq<Opened>) -> Seq<OpenedView> {
    v.map_values(|o: Opened| o@)
}

impl Opened {
    /// The open form of a registered connection, with the host key that
    /// answered and the directories the agent may write to. The person may
    /// always write.
    pub fn for_entry(
        entry: &ConnectionEntry,
        fingerprint: String,
        host_key_algorithm: String,
        ai_roots: Vec<String>,
    ) -> (o: Opened)
        ensures
            o@ == (OpenedView {
                id: entry@.id,
                name: entry@.name,
                tag: entry@.tag,
                fingerprint: fingerprint@,
                host_key_algorithm: host_key_algorithm@,
                ai_roots: texts_view(ai_roots@),
                human_unrestricted: true,
            }),
    {
        Opened {
            id: entry.id.clone(),
            name: entry.name.clone(),
            tag: copy_opt(&entry.tag),
            fingerprint,
            host_key_algorithm,
            write: WriteAccess { ai_roots, human_unrestricted: true },
        }
    }

    /// A copy of this open connection.
    pub fn duplicate(&self) -> (r: Opened)
        ensures
            r@ == self@,
    {
        Opened {
            id: self.id.clone(),
            name: self.name.clone(),
            tag: copy_opt(&self.tag),
            fingerprint: self.fingerprint.clone(),
            host_key_algorithm: self.host_key_algorithm.clone(),
            write: WriteAccess {
                ai_roots: copy_texts(&self.write.ai_roots),
                human_unrestricted: self.write.human_unrestricted,
            },
        }
    }
}

// --- The console: one side types at a time ------------------------------

/// The console slot as plain values: whether a console is open, who holds
/// it, and which connection it belongs to (by identifier only).
pub struct SlotView {
    pub open: bool,
    pub holder: Option<Actor>,
    pub connection: Option<Seq<char>>,
}

/// The console, who holds it and which connection it belongs to. The one
/// place the holding is kept, so the screen and the agent cannot disagree.
pub struct ConsoleSlot {
    open: bool,
    holder: Option<Actor>,
    connection: Option<String>,
}

impl View for ConsoleSlot {
    type V = SlotView;

    closed spec fn view(&self) -> SlotView {
        SlotView { open: self.open, holder: self.holder, connection: opt_view(self.connection) }
    }
}

/// The other side holds the console.
pub open spec fn held_by_other(holder: Option<Actor>, actor: Actor) -> bool {
    holder matches Some(h) && h != actor
}

/// The console belongs to a connection other than `target`.
pub open spec fn on_other_connection(connection: Option<Seq<char>>, target: Seq<char>) -> bool {
    connection matches Some(c) && c != target
}

/// Whether `actor` may open the console on `target`: something must be
/// connected, the other side must not hold it, and it must not be open on
/// another connection (it is never moved silently).
pub open spec fn open_allowed(v: SlotView, actor: Actor, target: Option<Seq<char>>) -> bool {
    &&& target is Some
    &&& !held_by_other(v.holder, actor)
    &&& !on_other_connection(v.connection, target->0)
}

/// Whether `actor` may take the console: the person always may; the agent
/// only when nobody or the agent itself holds it.
pub open spec fn take_allowed(holder: Option<Actor>, actor: Actor) -> bool {
    !held_by_other(holder, actor) || actor == Actor::Human
}

/// Whether `actor` may type: only the side holding an open console.
pub open spec fn type_allowed(v: SlotView, actor: Actor) -> bool {
    v.holder == Some(actor) && v.open
}

/// The slot after `actor` opened a console on `target`.
pub open spec fn opened_slot(actor: Actor, target: Seq<char>) -> SlotView {
    SlotView { open: true, holder: Some(actor), connection: Some(target) }
}

/// The slot after `actor` took it.
pub open spec fn taken_slot(v: SlotView, actor: Actor) -> SlotView {
    SlotView { holder: Some(actor), ..v }
}

/// The slot after the console was stopped: nothing open, nobody holding.
pub open spec fn stopped_slot() -> SlotView {
    SlotView { open: false, holder: None, connection: None }
}

/// The record of a console refused with nothing connected.
pub open spec fn open_refused_unconnected() -> Seq<char> {
    "端末を開けません（繋がっていません）"@
}

pub open spec fn open_hint_connect() -> Seq<char> {
    "先に接続を開いてください"@
}

/// The record of a console refused because `holder` holds it.
pub open spec fn open_refused_held(holder: Actor) -> Seq<char> {
    "端末を開けません（"@ + who_text(holder) + "が握っています）"@
}

pub open spec fn take_back_hint() -> Seq<char> {
    "人は画面の［取り返す］でいつでも取り返せます"@
}

/// The record of a console refused because it is open on `open_on`.
pub open spec fn open_refused_elsewhere(open_on: Seq<char>) -> Seq<char> {
    "端末を開けません（"@ + open_on + " で開いています）"@
}

pub open spec fn stop_first_hint() -> Seq<char> {
    "先に［止める］を押してください"@
}

/// The record of a console opened.
pub open spec fn opened_message(actor: Actor, cols: u32, rows: u32) -> Seq<char> {
    "端末を開きました（"@ + who_text(actor) + "・"@ + decimal(cols as nat) + "×"@ + decimal(rows as nat)
        + "）"@
}

/// The record of a keystroke refused with no console open.
pub open spec fn typing_refused_unopened() -> Seq<char> {
    "打鍵を断りました（端末が開いていません）"@
}

pub open spec fn open_first_hint() -> Seq<char> {
    "先に端末を開いてください"@
}

/// The record of a keystroke by `actor` refused while `holder` holds it.
pub open spec fn typing_refused_held(actor: Actor, holder: Actor) -> Seq<char> {
    "打鍵を断りました（"@ + who_text(actor) + "が打ち、"@ + who_text(holder) + "が握っています）"@
}

pub open spec fn one_at_a_time_hint() -> Seq<char> {
    "同時に触れるのは 1 人です。人は［取り返す］で取り返せます"@
}

/// The record of a handover to `actor` from whoever held it.
pub open spec fn taken_message(previous: Option<Actor>, actor: Actor) -> Seq<char> {
    match previous {
        Some(h) => "握りが"@ + who_text(h) + "から"@ + who_text(actor) + "へ移りました"@,
        None => who_text(actor) + "が握りました"@,
    }
}

/// The record of a handover refused because `holder` holds it.
pub open spec fn take_refused_message(holder: Actor) -> Seq<char> {
    "握りを渡しませんでした（"@ + who_text(holder) + "が握っています）"@
}

pub open spec fn cannot_take_hint() -> Seq<char> {
    "AI は人から奪えません（D29）"@
}

impl ConsoleSlot {
    /// No console, nobody holding it.
    pub fn new() -> (s: Self)
        ensures
            s@ == stopped_slot(),
    {
        ConsoleSlot { open: false, holder: None, connection: None }
    }

    /// Who holds the console.
    pub fn holder(&self) -> (h: Option<Actor>)
        ensures
            h == self@.holder,
    {
        self.holder
    }

    /// Which connection the console belongs to.
    pub fn connection(&self) -> (c: Option<String>)
        ensures
            opt_view(c) == self@.connection,
    {
        copy_opt(&self.connection)
    }

    /// Whether a console is open.
    pub fn is_open(&self) -> (b: bool)
        ensures
            b == self@.open,
    {
        self.open
    }

    /// Decides whether `actor` may open the console on `target`, the
    /// connection operations go to (none when nothing is connected). The
    /// same side opening again is taken as holding it again. A refusal is
    /// written down, with what to do next; a console that may open records
    /// nothing yet.
    pub fn check_open(&self, diag: &mut Diagnostics, actor: Actor, target: Option<&str>) -> (r: Result<(), EngineError>)
        requires
            old(diag).wf(),
        ensures
            r is Ok <==> open_allowed(
                self@,
                actor,
                match target {
                    Some(t) => Some(t@),
                    None => None,
                },
            ),
            r is Ok ==> *final(diag) == *old(diag),
            target is None ==> {
                &&& r matches Err(EngineError::NotConnected)
                &&& recorded_once(*old(diag), *final(diag), Level::Error, Stage::Exec, None,
                    open_refused_unconnected(), Some(open_hint_connect()))
            },
            (target is Some && held_by_other(self@.holder, actor)) ==> {
                &&& r matches Err(EngineError::ConsoleHeldByOther { holder }) && holder@ == who_text(self@.holder->0)
                &&& recorded_once(*old(diag), *final(diag), Level::Error, Stage::Exec, Some(target->0@),
                    open_refused_held(self@.holder->0), Some(take_back_hint()))
            },
            (target is Some && !held_by_other(self@.holder, actor) && on_other_connection(
                self@.connection,
                target->0@,
            )) ==> {
                &&& r matches Err(EngineError::ConsoleOnOtherConnection { id }) && id@ == self@.connection->0
                &&& recorded_once(*old(diag), *final(diag), Level::Error, Stage::Exec, Some(target->0@),
                    open_refused_elsewhere(self@.connection->0), Some(stop_first_hint()))
            },
    {
        let target = match target {
            Some(t) => t,
            None => {
                diag.error(Stage::Exec, None, "端末を開けません（繋がっていません）", "先に接続を開いてください");
                return Err(EngineError::NotConnected);
            },
        };
        if let Some(h) = self.holder {
            if h != actor {
                let mut m = owned("端末を開けません（");
                push_str(&mut m, who(h));
                push_str(&mut m, "が握っています）");
                diag.error(Stage::Exec, Some(target), m.as_str(), "人は画面の［取り返す］でいつでも取り返せます");
                return Err(held_by(h));
            }
        }
        if let Some(c) = &self.connection {
            if !same_text(c.as_str(), target) {
                let mut m = owned("端末を開けません（");
                push_str(&mut m, c.as_str());
                push_str(&mut m, " で開いています）");
                diag.error(Stage::Exec, Some(target), m.as_str(), "先に［止める］を押してください");
                return Err(EngineError::ConsoleOnOtherConnection { id: c.clone() });
            }
        }
        Ok(())
    }

    /// Records a console `actor` has just opened on `target`, `cols` by
    /// `rows`. If the other side took hold meanwhile, refuses and changes
    /// nothing (the new console is to be closed). Otherwise says whether an
    /// older console is to be closed, `actor` holds the new one, and the
    /// opening is written down (a console that opens but shows nothing can
    /// then be traced).
    pub fn settle_open(&mut self, diag: &mut Diagnostics, actor: Actor, target: &str, cols: u32, rows: u32) -> (r: Result<bool, EngineError>)
        requires
            old(diag).wf(),
        ensures
            held_by_other(old(self)@.holder, actor) ==> {
                &&& r matches Err(EngineError::ConsoleHeldByOther { holder }) && holder@ == who_text(
                    old(self)@.holder->0,
                )
                &&& final(self)@ == old(self)@
                &&& *final(diag) == *old(diag)
            },
            !held_by_other(old(self)@.holder, actor) ==> {
                &&& r == Ok::<bool, EngineError>(old(self)@.open)
                &&& final(self)@ == opened_slot(actor, target@)
                &&& recorded_once(*old(diag), *final(diag), Level::Info, Stage::Exec, Some(target@),
                    opened_message(actor, cols, rows), None)
            },
    {
        if let Some(h) = self.holder {
            if h != actor {
                return Err(held_by(h));
            }
        }
        let was_open = self.open;
        self.open = true;
        self.holder = Some(actor);
        self.connection = Some(owned(target));
        let mut m = owned("端末を開きました（");
        push_str(&mut m, who(actor));
        push_str(&mut m, "・");
        push_decimal(&mut m, cols as u64);
        push_str(&mut m, "×");
        push_decimal(&mut m, rows as u64);
        push_str(&mut m, "）");
        diag.info(Stage::Exec, Some(target), m.as_str());
        Ok(was_open)
    }

    /// Decides whether `actor` may type into the console: only the side
    /// holding it, and only when it is open. A keystroke refused because
    /// nothing is open or the other side holds it is written down; what was
    /// typed never is.
    pub fn check_type(&self, diag: &mut Diagnostics, actor: Actor) -> (r: Result<(), EngineError>)
        requires
            old(diag).wf(),
        ensures
            r is Ok <==> type_allowed(self@, actor),
            self@.holder is None ==> {
                &&& r matches Err(EngineError::ConsoleNotOpen)
                &&& recorded_once(*old(diag), *final(diag), Level::Error, Stage::Exec, None,
                    typing_refused_unopened(), Some(open_first_hint()))
            },
            held_by_other(self@.holder, actor) ==> {
                &&& r matches Err(EngineError::ConsoleHeldByOther { holder }) && holder@ == who_text(self@.holder->0)
                &&& recorded_once(*old(diag), *final(diag), Level::Error, Stage::Exec, None,
                    typing_refused_held(actor, self@.holder->0), Some(one_at_a_time_hint()))
            },
            self@.holder == Some(actor) ==> *final(diag) == *old(diag),
            (self@.holder == Some(actor) && !self@.open) ==> (r matches Err(EngineError::ConsoleNotOpen)),
    {
        match self.holder {
            None => {
                diag.error(Stage::Exec, None, "打鍵を断りました（端末が開いていません）", "先に端末を開いてください");
                Err(EngineError::ConsoleNotOpen)
            },
            Some(h) => {
                if h != actor {
                    let mut m = owned("打鍵を断りました（");
                    push_str(&mut m, who(actor));
                    push_str(&mut m, "が打ち、");
                    push_str(&mut m, who(h));
                    push_str(&mut m, "が握っています）");
                    diag.error(Stage::Exec, None, m.as_str(), "同時に触れるのは 1 人です。人は［取り返す］で取り返せます");
                    Err(held_by(h))
                } else if !self.open {
                    Err(EngineError::ConsoleNotOpen)
                } else {
                    Ok(())
                }
            },
        }
    }

    /// Decides whether the window size may be passed on: whenever a console
    /// is open, held or not, so the watching side follows too.
    pub fn check_resize(&self) -> (r: Result<(), EngineError>)
        ensures
            self@.open ==> r is Ok,
            !self@.open ==> (r matches Err(EngineError::ConsoleNotOpen)),
    {
        if self.open {
            Ok(())
        } else {
            Err(EngineError::ConsoleNotOpen)
        }
    }

    /// `actor` takes the console. The person always wins; the agent takes it
    /// only when nobody or the agent itself holds it, and otherwise may only
    /// ask. The handover is written down either way. Gives back what the
    /// console's watchers are to be told: the new holder.
    pub fn take(&mut self, diag: &mut Diagnostics, actor: Actor) -> (r: Result<Option<Actor>, EngineError>)
        requires
            old(diag).wf(),
        ensures
            r is Ok <==> take_allowed(old(self)@.holder, actor),
            take_allowed(old(self)@.holder, actor) ==> {
                &&& r == Ok::<Option<Actor>, EngineError>(Some(actor))
                &&& final(self)@ == taken_slot(old(self)@, actor)
                &&& recorded_once(*old(diag), *final(diag), Level::Info, Stage::Exec, None,
                    taken_message(old(self)@.holder, actor), None)
            },
            !take_allowed(old(self)@.holder, actor) ==> {
                &&& r matches Err(EngineError::ConsoleApprovalNeeded)
                &&& final(self)@ == old(self)@
                &&& recorded_once(*old(diag), *final(diag), Level::Error, Stage::Exec, None,
                    take_refused_message(old(self)@.holder->0), Some(cannot_take_hint()))
            },
    {
        if let Some(h) = self.holder {
            if h != actor && actor != Actor::Human {
                let mut m = owned("握りを渡しませんでした（");
                push_str(&mut m, who(h));
                push_str(&mut m, "が握っています）");
                diag.error(Stage::Exec, None, m.as_str(), "AI は人から奪えません（D29）");
                return Err(EngineError::ConsoleApprovalNeeded);
            }
        }
        let m = match self.holder {
            Some(h) => {
                let mut m = owned("握りが");
                push_str(&mut m, who(h));
                push_str(&mut m, "から");
                push_str(&mut m, who(actor));
                push_str(&mut m, "へ移りました");
                m
            },
            None => {
                let mut m = owned(who(actor));
                push_str(&mut m, "が握りました");
                m
            },
        };
        diag.info(Stage::Exec, None, m.as_str());
        self.holder = Some(actor);
        Ok(Some(actor))
    }

    /// `actor` stops the console. The person can always stop it, and the
    /// agent can stop what it holds or what nobody holds, but never the
    /// person's console. Stopping frees it so the next side can open it
    /// again, and a console that was open is recorded as stopped; the
    /// console's watchers are then told that nobody holds it. Says whether a
    /// console was open to be closed.
    pub fn stop(&mut self, diag: &mut Diagnostics, actor: Actor) -> (r: Result<bool, EngineError>)
        requires
            old(diag).wf(),
        ensures
            r is Ok <==> take_allowed(old(self)@.holder, actor),
            take_allowed(old(self)@.holder, actor) ==> {
                &&& r == Ok::<bool, EngineError>(old(self)@.open)
                &&& final(self)@ == stopped_slot()
                &&& old(self)@.open ==> recorded_once(*old(diag), *final(diag), Level::Info, Stage::Exec,
                    None, "端末を止めました"@, None)
                &&& !old(self)@.open ==> *final(diag) == *old(diag)
            },
            !take_allowed(old(self)@.holder, actor) ==> {
                &&& r matches Err(EngineError::ConsoleHeldByOther { holder }) && holder@ == who_text(
                    old(self)@.holder->0,
                )
                &&& final(self)@ == old(self)@
                &&& *final(diag) == *old(diag)
            },
    {
        if let Some(h) = self.holder {
            if h != actor && actor != Actor::Human {
                return Err(held_by(h));
            }
        }
        let was_open = self.open;
        self.open = false;
        self.holder = None;
        self.connection = None;
        if was_open {
            diag.info(Stage::Exec, None, "端末を止めました");
        }
        Ok(was_open)
    }
}

/// The person can always take the console back, whoever holds it.
pub proof fn lemma_person_can_always_take(holder: Option<Actor>)
    ensures
        take_allowed(holder, Actor::Human),
{
}

/// The agent can never take the console from the person.
pub proof fn lemma_agent_cannot_take_from_person()
    ensures
        !take_allowed(Some(Actor::Human), Actor::Ai),
{
}

/// Once a side has taken the console, only that side can type into it.
pub proof fn lemma_only_the_taker_types(v: SlotView, taker: Actor, other: Actor)
    ensures
        type_allowed(taken_slot(v, taker), other) ==> other == taker,
{
}

/// The side that opened the console can type into it, and the other side
/// cannot.
pub proof fn lemma_opener_types(actor: Actor, target: Seq<char>, other: Actor)
    ensures
        type_allowed(opened_slot(actor, target), actor),
        other != actor ==> !type_allowed(opened_slot(actor, target), other),
{
}

/// Stopping frees the console: nobody can type, anybody can take it, and
/// anybody can open it again on whatever is connected.
pub proof fn lemma_stop_frees(actor: Actor, target: Seq<char>)
    ensures
        !type_allowed(stopped_slot(), actor),
        take_allowed(stopped_slot().holder, actor),
        open_allowed(stopped_slot(), actor, Some(target)),
{
}

// --- The open connections and the one operations go to ------------------

/// Identifiers strictly rising in text order: kept in order, each once, so
/// the tabs do not move about.
pub open spec fn ids_ascending(live: Seq<OpenedView>) -> bool {
    forall|i: int, j: int|
        0 <= i < j < live.len() ==> text_less(#[trigger] live[i].id, #[trigger] live[j].id)
}

/// Whether a connection with this identifier is open.
pub open spec fn holds_id(live: Seq<OpenedView>, id: Seq<char>) -> bool {
    exists|i: int| 0 <= i < live.len() && #[trigger] live[i].id == id
}

/// How many leading connections come before `id` in text order: where
/// `id` is, or would go.
pub open spec fn lower_bound(live: Seq<OpenedView>, id: Seq<char>) -> nat
    decreases live.len(),
{
    if live.len() == 0 || !text_less(live[0].id, id) {
        0
    } else {
        1 + lower_bound(live.drop_first(), id)
    }
}

/// The list with `o` opened: it replaces the one with its identifier, or
/// goes in at its place in the order.
pub open spec fn with_opened(live: Seq<OpenedView>, o: OpenedView) -> Seq<OpenedView> {
    let p = lower_bound(live, o.id) as int;
    if p < live.len() && live[p].id == o.id {
        live.update(p, o)
    } else {
        live.insert(p, o)
    }
}

/// The list without the connection that has this identifier.
pub open spec fn without_id(live: Seq<OpenedView>, id: Seq<char>) -> Seq<OpenedView> {
    let p = lower_bound(live, id) as int;
    if p < live.len() && live[p].id == id {
        live.remove(p)
    } else {
        live
    }
}

/// Where operations go after `target` was closed: when it was the one
/// operations went to, the first that is still open (or none); otherwise
/// unchanged. Something open never lacks a destination.
pub open spec fn next_active(active: Option<Seq<char>>, target: Seq<char>, live: Seq<OpenedView>) -> Option<Seq<char>> {
    if active == Some(target) {
        if live.len() > 0 {
            Some(live[0].id)
        } else {
            None
        }
    } else {
        active
    }
}

/// The open connections and where operations go, as plain values.
pub struct HeldView {
    pub live: Seq<OpenedView>,
    pub active: Option<Seq<char>>,
}

/// Well formed: in order, and operations go to an open connection exactly
/// when something is open.
pub open spec fn held_wf(v: HeldView) -> bool {
    &&& ids_ascending(v.live)
    &&& v.active is Some ==> holds_id(v.live, v.active->0)
    &&& v.live.len() > 0 ==> v.active is Some
}

/// Every open connection, each once, and the one operations go to.
pub struct Held {
    live: Vec<Opened>,
    active: Option<String>,
}

impl View for Held {
    type V = HeldView;

    closed spec fn view(&self) -> HeldView {
        HeldView { live: opened_views(self.live@), active: opt_view(self.active) }
    }
}

/// `lower_bound` counts leading connections before `id`, and the next one
/// (if any) does not come before it.
pub proof fn lemma_lower_bound(live: Seq<OpenedView>, id: Seq<char>)
    ensures
        lower_bound(live, id) <= live.len(),
        forall|i: int| 0 <= i < lower_bound(live, id) ==> text_less(#[trigger] live[i].id, id),
        lower_bound(live, id) < live.len() ==> !text_less(live[lower_bound(live, id) as int].id, id),
    decreases live.len(),
{
    if live.len() > 0 && text_less(live[0].id, id) {
        let rest = live.drop_first();
        lemma_lower_bound(rest, id);
        assert forall|i: int| 0 <= i < lower_bound(live, id) implies text_less(#[trigger] live[i].id, id) by {
            if i > 0 {
                assert(live[i] == rest[i - 1]);
            }
        }
    }
}

/// In an ordered list, nothing from `lower_bound` on comes before `id`, and
/// `id` is open exactly when it sits at `lower_bound`.
pub proof fn lemma_lower_bound_ordered(live: Seq<OpenedView>, id: Seq<char>)
    requires
        ids_ascending(live),
    ensures
        forall|i: int| lower_bound(live, id) <= i < live.len() ==> !text_less(#[trigger] live[i].id, id),
        holds_id(live, id) <==> (lower_bound(live, id) < live.len() && live[lower_bound(live, id) as int].id == id),
{
    lemma_lower_bound(live, id);
    let p = lower_bound(live, id) as int;
    assert forall|i: int| p <= i < live.len() implies !text_less(#[trigger] live[i].id, id) by {
        if i > p {
            assert(text_less(live[p].id, live[i].id));
            crate::text::lemma_text_less_transitive(live[p].id, live[i].id, id);
        }
    }
    if holds_id(live, id) {
        let k = choose|k: int| 0 <= k < live.len() && #[trigger] live[k].id == id;
        if k < p {
            crate::text::lemma_text_less_irreflexive(id);
        } else if k > p {
            assert(text_less(live[p].id, live[k].id));
        }
    }
}

/// Opening keeps the list in order, and adds exactly the new identifier.
pub proof fn lemma_with_opened(live: Seq<OpenedView>, o: OpenedView)
    requires
        ids_ascending(live),
    ensures
        ids_ascending(with_opened(live, o)),
        forall|x: Seq<char>| holds_id(with_opened(live, o), x) <==> (holds_id(live, x) || x == o.id),
        holds_id(live, o.id) ==> with_opened(live, o).len() == live.len(),
        !holds_id(live, o.id) ==> with_opened(live, o).len() == live.len() + 1,
{
    lemma_lower_bound(live, o.id);
    lemma_lower_bound_ordered(live, o.id);
    let p = lower_bound(live, o.id) as int;
    let w = with_opened(live, o);
    if p < live.len() && live[p].id == o.id {
        assert forall|i: int, j: int| 0 <= i < j < w.len() implies text_less(#[trigger] w[i].id, #[trigger] w[j].id) by {
            assert(text_less(live[i].id, live[j].id));
        }
        assert forall|x: Seq<char>| holds_id(w, x) <==> (holds_id(live, x) || x == o.id) by {
            if holds_id(live, x) {
                let k = choose|k: int| 0 <= k < live.len() && #[trigger] live[k].id == x;
                assert(w[k].id == x);
            }
            if x == o.id {
                assert(w[p].id == x);
            }
            if holds_id(w, x) {
                let k = choose|k: int| 0 <= k < w.len() && #[trigger] w[k].id == x;
                assert(live[k].id == x);
            }
        }
    } else {
        assert forall|i: int| p <= i < live.len() implies text_less(o.id, #[trigger] live[i].id) by {
            assert(!text_less(live[i].id, o.id));
            crate::text::lemma_text_less_total(live[i].id, o.id);
            if live[i].id == o.id {
                assert(holds_id(live, o.id));
            }
        }
        assert forall|i: int, j: int| 0 <= i < j < w.len() implies text_less(#[trigger] w[i].id, #[trigger] w[j].id) by {
            if j < p {
                assert(w[i] == live[i] && w[j] == live[j]);
            } else if j == p {
                assert(w[i] == live[i] && w[j] == o);
            } else if i < p {
                assert(w[i] == live[i] && w[j] == live[j - 1]);
                crate::text::lemma_text_less_transitive(live[i].id, o.id, live[j - 1].id);
            } else if i == p {
                assert(w[i] == o && w[j] == live[j - 1]);
            } else {
                assert(w[i] == live[i - 1] && w[j] == live[j - 1]);
            }
        }
        assert forall|x: Seq<char>| holds_id(w, x) <==> (holds_id(live, x) || x == o.id) by {
            if holds_id(live, x) {
                let k = choose|k: int| 0 <= k < live.len() && #[trigger] live[k].id == x;
                if k < p {
                    assert(w[k].id == x);
                } else {
                    assert(w[k + 1].id == x);
                }
            }
            if x == o.id {
                assert(w[p].id == x);
            }
            if holds_id(w, x) {
                let k = choose|k: int| 0 <= k < w.len() && #[trigger] w[k].id == x;
                if k < p {
                    assert(live[k].id == x);
                } else if k > p {
                    assert(live[k - 1].id == x);
                }
            }
        }
    }
}

/// Closing keeps the list in order, and takes away exactly that identifier.
pub proof fn lemma_without_id(live: Seq<OpenedView>, id: Seq<char>)
    requires
        ids_ascending(live),
    ensures
        ids_ascending(without_id(live, id)),
        forall|x: Seq<char>| holds_id(without_id(live, id), x) <==> (holds_id(live, x) && x != id),
        holds_id(live, id) ==> without_id(live, id).len() + 1 == live.len(),
{
    lemma_lower_bound(live, id);
    lemma_lower_bound_ordered(live, id);
    let p = lower_bound(live, id) as int;
    let w = without_id(live, id);
    if p < live.len() && live[p].id == id {
        assert forall|i: int, j: int| 0 <= i < j < w.len() implies text_less(#[trigger] w[i].id, #[trigger] w[j].id) by {
            if j < p {
                assert(w[i] == live[i] && w[j] == live[j]);
            } else if i < p {
                assert(w[i] == live[i] && w[j] == live[j + 1]);
            } else {
                assert(w[i] == live[i + 1] && w[j] == live[j + 1]);
            }
        }
        assert forall|x: Seq<char>| holds_id(w, x) <==> (holds_id(live, x) && x != id) by {
            if holds_id(live, x) && x != id {
                let k = choose|k: int| 0 <= k < live.len() && #[trigger] live[k].id == x;
                if k < p {
                    assert(w[k].id == x);
                } else {
                    assert(w[k - 1].id == x);
                }
            }
            if holds_id(w, x) {
                let k = choose|k: int| 0 <= k < w.len() && #[trigger] w[k].id == x;
                if k < p {
                    assert(live[k].id == x);
                    assert(text_less(live[k].id, live[p].id));
                    crate::text::lemma_text_less_irreflexive(x);
                } else {
                    assert(live[k + 1].id == x);
                    assert(text_less(live[p].id, live[k + 1].id));
                    crate::text::lemma_text_less_irreflexive(x);
                }
            }
        }
    }
}

/// Closing any connection leaves the held sessions well formed: still in
/// order, and operations still go to an open connection whenever one is
/// open. Opening one does too, and operations then go to it.
pub proof fn lemma_open_and_close_keep_a_destination(v: HeldView, o: OpenedView, t: Seq<char>)
    requires
        held_wf(v),
    ensures
        held_wf(HeldView {
            live: without_id(v.live, t),
            active: next_active(v.active, t, without_id(v.live, t)),
        }),
        held_wf(HeldView { live: with_opened(v.live, o), active: Some(o.id) }),
{
    lemma_without_id(v.live, t);
    lemma_with_opened(v.live, o);
    let after = without_id(v.live, t);
    let a = next_active(v.active, t, after);
    if a is Some {
        if v.active == Some(t) {
            assert(after[0].id == a->0);
        } else {
            assert(holds_id(v.live, a->0));
        }
    }
    if after.len() > 0 && v.active != Some(t) {
        assert(holds_id(after, after[0].id));
    }
    assert(holds_id(with_opened(v.live, o), o.id));
}

/// The record of operations pointed at a connection that is not open.
pub open spec fn focus_refused_message() -> Seq<char> {
    "開いていない接続を宛先にしようとしました（画面の一覧が実態とずれています）"@
}

impl Held {
    pub closed spec fn wf(&self) -> bool {
        held_wf(self@)
    }

    /// A well-formed set of open connections holds each identifier once, in
    /// order, and has a destination whenever something is open.
    pub proof fn lemma_wf(&self)
        requires
            self.wf(),
        ensures
            held_wf(self@),
    {
    }

    /// Nothing open.
    pub fn new() -> (h: Self)
        ensures
            h.wf(),
            h@.live.len() == 0,
            h@.active is None,
    {
        let h = Held { live: Vec::new(), active: None };
        assert(h@.live =~= Seq::<OpenedView>::empty());
        h
    }

    /// Where `id` is, or would go, in the order.
    fn slot_of(&self, id: &str) -> (p: usize)
        ensures
            p == lower_bound(self@.live, id@),
    {
        let ghost live = self@.live;
        let mut i: usize = 0;
        assert(live.skip(0) == live);
        while i < self.live.len() && less_text(self.live[i].id.as_str(), id)
            invariant
                live == opened_views(self.live@),
                i <= live.len(),
                lower_bound(live, id@) == i + lower_bound(live.skip(i as int), id@),
            decreases live.len() - i,
        {
            assert(live.skip(i as int)[0] == live[i as int]);
            assert(live.skip(i as int).drop_first() == live.skip(i + 1));
            i += 1;
        }
        if i < self.live.len() {
            assert(live.skip(i as int)[0] == live[i as int]);
        }
        i
    }

    /// Every open connection, in order. The tabs show these.
    pub fn open_connections(&self) -> (v: Vec<Opened>)
        ensures
            opened_views(v@) == self@.live,
    {
        let mut v: Vec<Opened> = Vec::new();
        for i in 0..self.live.len()
            invariant
                v@.len() == i,
                forall|k: int| 0 <= k < i ==> #[trigger] v@[k]@ == self.live@[k]@,
        {
            v.push(self.live[i].duplicate());
        }
        assert(opened_views(v@) =~= self@.live);
        v
    }

    /// The connection operations go to.
    pub fn active(&self) -> (r: Option<Opened>)
        requires
            self.wf(),
        ensures
            self@.active is None ==> r is None,
            self@.active matches Some(a) ==> (r matches Some(o) && o@.id == a && exists|i: int|
                0 <= i < self@.live.len() && self@.live[i] == o@),
    {
        match &self.active {
            None => None,
            Some(a) => {
                let p = self.slot_of(a.as_str());
                proof {
                    lemma_lower_bound_ordered(self@.live, a@);
                }
                let o = self.live[p].duplicate();
                assert(self@.live[p as int] == o@);
                Some(o)
            },
        }
    }

    /// The identifier of the connection operations go to; says so when
    /// nothing is connected.
    pub fn active_id(&self) -> (r: Result<String, EngineError>)
        ensures
            self@.active is None ==> (r matches Err(EngineError::NotConnected)),
            self@.active matches Some(a) ==> (r matches Ok(id) && id@ == a),
    {
        match &self.active {
            None => Err(EngineError::NotConnected),
            Some(a) => Ok(a.clone()),
        }
    }

    /// Whether a connection with this identifier is open.
    pub fn is_open(&self, id: &str) -> (b: bool)
        requires
            self.wf(),
        ensures
            b == holds_id(self@.live, id@),
    {
        let p = self.slot_of(id);
        proof {
            lemma_lower_bound_ordered(self@.live, id@);
        }
        p < self.live.len() && same_text(self.live[p].id.as_str(), id)
    }

    /// Refuses to open a connection that is already open (another one can be).
    pub fn check_connect(&self, id: &str) -> (r: Result<(), EngineError>)
        requires
            self.wf(),
        ensures
            !holds_id(self@.live, id@) ==> r is Ok,
            holds_id(self@.live, id@) ==> (r matches Err(EngineError::AlreadyConnected { id: i, name })
                && i@ == id@ && exists|k: int| 0 <= k < self@.live.len() && self@.live[k].id == id@
                && self@.live[k].name == name@),
    {
        let p = self.slot_of(id);
        proof {
            lemma_lower_bound_ordered(self@.live, id@);
        }
        if p < self.live.len() && same_text(self.live[p].id.as_str(), id) {
            let held = &self.live[p];
            assert(self@.live[p as int].id == id@);
            return Err(EngineError::AlreadyConnected { id: held.id.clone(), name: held.name.clone() });
        }
        Ok(())
    }

    /// Adds a connection that has just been opened, or replaces the one with
    /// its identifier, and points operations at it.
    pub fn insert(&mut self, opened: Opened)
        requires
            old(self).wf(),
        ensures
            final(self).wf(),
            final(self)@.live == with_opened(old(self)@.live, opened@),
            final(self)@.active == Some(opened@.id),
            forall|x: Seq<char>| holds_id(final(self)@.live, x) <==> (holds_id(old(self)@.live, x) || x == opened@.id),
    {
        let ghost before = self@.live;
        let ghost o = opened@;
        let id = opened.id.clone();
        let p = self.slot_of(id.as_str());
        proof {
            lemma_lower_bound(before, o.id);
            lemma_with_opened(before, o);
        }
        if p < self.live.len() && same_text(self.live[p].id.as_str(), id.as_str()) {
            self.live.set(p, opened);
            assert(self@.live =~= before.update(p as int, o));
        } else {
            self.live.insert(p, opened);
            assert(self@.live =~= before.insert(p as int, o));
        }
        self.active = Some(id);
        proof {
            let w = with_opened(before, o);
            assert(holds_id(w, o.id));
        }
    }

    /// Points operations at another open connection; refuses one that is
    /// not open, naming it, and writes the refusal down: the screen's list
    /// disagreeing with what is open is itself worth reporting.
    pub fn focus(&mut self, diag: &mut Diagnostics, id: &str) -> (r: Result<Opened, EngineError>)
        requires
            old(self).wf(),
            old(diag).wf(),
        ensures
            final(self).wf(),
            final(self)@.live == old(self)@.live,
            !holds_id(old(self)@.live, id@) ==> {
                &&& r matches Err(EngineError::NotOpen { id: named }) && named@ == id@
                &&& final(self)@.active == old(self)@.active
                &&& recorded_once(*old(diag), *final(diag), Level::Warn, Stage::Registry, Some(id@),
                    focus_refused_message(), None)
            },
            holds_id(old(self)@.live, id@) ==> {
                &&& r matches Ok(o) && o@.id == id@ && exists|k: int|
                    0 <= k < old(self)@.live.len() && old(self)@.live[k] == o@
                &&& final(self)@.active == Some(id@)
                &&& *final(diag) == *old(diag)
            },
    {
        let p = self.slot_of(id);
        proof {
            lemma_lower_bound_ordered(self@.live, id@);
        }
        if p < self.live.len() && same_text(self.live[p].id.as_str(), id) {
            let o = self.live[p].duplicate();
            assert(self@.live[p as int] == o@);
            self.active = Some(owned(id));
            Ok(o)
        } else {
            diag.warn(
                Stage::Registry,
                Some(id),
                "開いていない接続を宛先にしようとしました（画面の一覧が実態とずれています）",
            );
            Err(EngineError::NotOpen { id: owned(id) })
        }
    }

    /// Closes a connection: the one named, or the one operations go to when
    /// none is named. Never fails; closing what is not open changes nothing.
    /// When the closed one was where operations went, they move to the first
    /// connection still open.
    pub fn disconnect(&mut self, id: Option<&str>) -> (r: Option<Opened>)
        requires
            old(self).wf(),
        ensures
            final(self).wf(),
            (id is None && old(self)@.active is None) ==> {
                &&& r is None
                &&& final(self)@ == old(self)@
            },
            ({
                let target = match id {
                    Some(t) => Some(t@),
                    None => old(self)@.active,
                };
                target matches Some(t) ==> {
                    &&& final(self)@.live == without_id(old(self)@.live, t)
                    &&& forall|x: Seq<char>| holds_id(final(self)@.live, x) <==> (holds_id(old(self)@.live, x) && x != t)
                    &&& final(self)@.active == next_active(old(self)@.active, t, final(self)@.live)
                    &&& holds_id(old(self)@.live, t) ==> (r matches Some(o) && o@.id == t && exists|k: int|
                        0 <= k < old(self)@.live.len() && old(self)@.live[k] == o@)
                    &&& !holds_id(old(self)@.live, t) ==> r is None
                }
            }),
    {
        let target: String = match id {
            Some(t) => owned(t),
            None => match &self.active {
                Some(a) => a.clone(),
                None => {
                    return None;
                },
            },
        };
        let ghost before = self@;
        let p = self.slot_of(target.as_str());
        proof {
            lemma_lower_bound(before.live, target@);
            lemma_lower_bound_ordered(before.live, target@);
            lemma_without_id(before.live, target@);
        }
        let closed = if p < self.live.len() && same_text(self.live[p].id.as_str(), target.as_str()) {
            let o = self.live.remove(p);
            assert(self@.live =~= before.live.remove(p as int));
            assert(before.live[p as int] == o@);
            Some(o)
        } else {
            None
        };
        let was_active = match &self.active {
            Some(a) => same_text(a.as_str(), target.as_str()),
            None => false,
        };
        if was_active {
            if self.live.len() > 0 {
                self.active = Some(self.live[0].id.clone());
            } else {
                self.active = None;
            }
        }
        proof {
            let after = self@.live;
            if self@.active is Some {
                if was_active {
                    assert(after[0].id == self@.active->0);
                } else {
                    assert(holds_id(before.live, self@.active->0));
                    assert(self@.active->0 != target@);
                }
            }
            if after.len() > 0 {
                if !was_active {
                    if before.active is None {
                        assert(before.live.len() > 0 ==> before.active is Some);
                        assert(holds_id(after, after[0].id));
                        assert(holds_id(before.live, after[0].id));
                    }
                }
            }
        }
        closed
    }
}

// --- How a connection authenticates -------------------------------------

/// What the key file of a connection turned out to be. Read by the caller
/// from the file's contents (never from its name).
pub struct KeyFacts {
    /// The name of the format found, for a person to read.
    pub format: String,
    /// Whether it can authenticate: a private key, not a public one.
    pub usable: bool,
    /// Whether it is encrypted and needs its passphrase.
    pub needs_passphrase: bool,
    /// A key, but encrypted in a way that cannot be read here.
    pub unsupported_encryption: bool,
}

/// How a connection authenticates.
pub enum Auth {
    /// Through the running ssh-agent.
    Agent,
    /// With the login password.
    Password { password: String },
    /// With the key file, and its passphrase when there is one.
    Key { path: String, passphrase: Option<String> },
}

/// The login password typed there and then, when something was typed.
pub open spec fn typed_password(typed: Option<Seq<char>>) -> Option<Seq<char>> {
    match typed {
        Some(t) => if t.len() > 0 {
            Some(t)
        } else {
            None
        },
        None => None,
    }
}

/// Whether `r` is how `e` authenticates, given what was typed, what the
/// credential store gave back for the passphrase (`stored_passphrase`) and
/// the password (`stored_password`), and the facts about the key file.
///
/// Without a key file: the typed password, else the stored one, else the
/// agent. With one: a file that cannot authenticate is refused naming only
/// its format; the typed passphrase comes first, then the stored one; an
/// encrypted key with neither is sent back to a person.
pub open spec fn auth_chosen(
    r: Result<Auth, EngineError>,
    e: EntryView,
    typed: Option<Seq<char>>,
    stored_passphrase: Option<Seq<char>>,
    stored_password: Option<Seq<char>>,
    format: Seq<char>,
    usable: bool,
    needs_passphrase: bool,
) -> bool {
    match e.key_path {
        None => {
            let password = if typed_password(typed) is Some {
                typed_password(typed)
            } else {
                stored_password
            };
            match password {
                Some(p) => r matches Ok(Auth::Password { password: q }) && q@ == p,
                None => r matches Ok(Auth::Agent),
            }
        },
        Some(path) => if !usable {
            r matches Err(EngineError::UnusableKey { id, format: f }) && id@ == e.id && f@ == format
        } else {
            let secret = if typed is Some {
                typed
            } else {
                stored_passphrase
            };
            if secret is None && needs_passphrase {
                r matches Err(EngineError::PassphraseNeeded { id }) && id@ == e.id
            } else {
                r matches Ok(Auth::Key { path: p, passphrase }) && p@ == path && opt_view(passphrase)
                    == secret
            }
        },
    }
}

/// Decides how `entry` authenticates from what was typed, what the store
/// gave back, and the facts about its key file.
pub fn choose_auth(
    entry: &ConnectionEntry,
    typed: Option<String>,
    stored_passphrase: Option<String>,
    stored_password: Option<String>,
    facts: &KeyFacts,
) -> (r: Result<Auth, EngineError>)
    ensures
        auth_chosen(
            r,
            entry@,
            opt_view(typed),
            opt_view(stored_passphrase),
            opt_view(stored_password),
            facts.format@,
            facts.usable,
            facts.needs_passphrase,
        ),
{
    match &entry.key_path {
        None => {
            let typed_some = match &typed {
                Some(t) => chars_len(t.as_str()) > 0,
                None => false,
            };
            let password = if typed_some {
                typed
            } else {
                stored_password
            };
            match password {
                Some(p) => Ok(Auth::Password { password: p }),
                None => Ok(Auth::Agent),
            }
        },
        Some(path) => {
            if !facts.usable {
                return Err(EngineError::UnusableKey { id: entry.id.clone(), format: facts.format.clone() });
            }
            let secret = match typed {
                Some(t) => Some(t),
                None => stored_passphrase,
            };
            if secret.is_none() && facts.needs_passphrase {
                return Err(EngineError::PassphraseNeeded { id: entry.id.clone() });
            }
            Ok(Auth::Key { path: path.clone(), passphrase: secret })
        },
    }
}

/// The credential-store name `e`'s secret is looked up under, given what was
/// typed: none when something typed stands in for it. Without a key file
/// that is the password's name, with one the passphrase's.
pub open spec fn store_lookup(e: EntryView, typed: Option<Seq<char>>) -> Option<Seq<char>> {
    match e.key_path {
        None => if typed_password(typed) is None { e.keyring_password_ref } else { None },
        Some(_) => if typed is None { e.keyring_passphrase_ref } else { None },
    }
}

/// What the store gave back counts as the key's passphrase when there is a key file.
pub open spec fn passphrase_answer(e: EntryView, answer: Option<Seq<char>>) -> Option<Seq<char>> {
    if e.key_path is Some { answer } else { None }
}

/// What the store gave back counts as the login password when there is no key file.
pub open spec fn password_answer(e: EntryView, answer: Option<Seq<char>>) -> Option<Seq<char>> {
    if e.key_path is None { answer } else { None }
}

/// Decides how `entry` authenticates. What was typed there and then comes
/// first; otherwise the secret is asked of the credential store under the
/// name the connection refers to, and only then, and only that once. The
/// facts about the key file come from the caller when the connection names
/// one. A connection stopped for want of a passphrase is written down, at
/// the authentication stage, with what to do next.
pub fn auth_for(
    store: &mut SecretStore,
    diag: &mut Diagnostics,
    entry: &ConnectionEntry,
    typed: Option<String>,
    facts: &KeyFacts,
) -> (r: Result<Auth, EngineError>)
    requires
        old(diag).wf(),
    ensures
        final(store).service_name() == old(store).service_name(),
        match store_lookup(entry@, opt_view(typed)) {
            None => {
                &&& final(store).calls() == old(store).calls()
                &&& auth_chosen(r, entry@, opt_view(typed), None, None, facts.format@, facts.usable,
                    facts.needs_passphrase)
            },
            Some(reference) => exists|answer: Option<Seq<char>>| {
                &&& final(store).calls() == old(store).calls().push(StoreCall::Get { reference, answer })
                &&& #[trigger] auth_chosen(
                    r,
                    entry@,
                    opt_view(typed),
                    passphrase_answer(entry@, answer),
                    password_answer(entry@, answer),
                    facts.format@,
                    facts.usable,
                    facts.needs_passphrase,
                )
            },
        },
        r matches Err(EngineError::PassphraseNeeded { .. }) ==> recorded_once(*old(diag), *final(diag),
            Level::Error, Stage::Auth, Some(entry@.id), passphrase_stop_message(), Some(passphrase_stop_hint())),
        r matches Err(EngineError::UnusableKey { .. }) ==> recorded_once(*old(diag), *final(diag),
            Level::Error, Stage::Auth, Some(entry@.id), unusable_key_message(facts.format@), Some(unusable_key_hint())),
        r is Ok ==> *final(diag) == *old(diag),
{
    let mut stored_passphrase: Option<String> = None;
    let mut stored_password: Option<String> = None;
    let ghost mut ans: Option<Seq<char>> = None;
    match &entry.key_path {
        None => {
            let typed_some = match &typed {
                Some(t) => chars_len(t.as_str()) > 0,
                None => false,
            };
            if !typed_some {
                if let Some(reference) = &entry.keyring_password_ref {
                    let got = store.get(reference.as_str());
                    proof {
                        ans = crate::secrets::answer_of(got);
                    }
                    stored_password = got.ok();
                }
            }
        },
        Some(_) => {
            if typed.is_none() {
                if let Some(reference) = &entry.keyring_passphrase_ref {
                    let got = store.get(reference.as_str());
                    proof {
                        ans = crate::secrets::answer_of(got);
                    }
                    stored_passphrase = got.ok();
                }
            }
        },
    }
    let ghost sp = opt_view(stored_passphrase);
    let ghost sw = opt_view(stored_password);
    let ghost typed_view = opt_view(typed);
    let r = choose_auth(entry, typed, stored_passphrase, stored_password, facts);
    assert(auth_chosen(r, entry@, typed_view, sp, sw, facts.format@, facts.usable, facts.needs_passphrase));
    proof {
        if store_lookup(entry@, typed_view) is Some {
            assert(sp == passphrase_answer(entry@, ans) && sw == password_answer(entry@, ans));
        }
    }
    match &r {
        Err(EngineError::PassphraseNeeded { .. }) => {
            diag.error(
                Stage::Auth,
                Some(entry.id.as_str()),
                "鍵のパスフレーズを待って止まりました（鍵は読めています）",
                "sshboard の画面で人がパスフレーズを入れてください",
            );
        },
        Err(EngineError::UnusableKey { .. }) => {
            let mut m = owned("鍵のファイルを認証に使えません（");
            push_str(&mut m, facts.format.as_str());
            push_str(&mut m, " と読めました）");
            diag.error(
                Stage::Auth,
                Some(entry.id.as_str()),
                m.as_str(),
                "秘密鍵のファイルを指してください（`.pub` は公開鍵です）",
            );
        },
        _ => {},
    }
    r
}

/// The record of a key file that cannot authenticate: only its format, never its path.
pub open spec fn unusable_key_message(format: Seq<char>) -> Seq<char> {
    "鍵のファイルを認証に使えません（"@ + format + " と読めました）"@
}

pub open spec fn unusable_key_hint() -> Seq<char> {
    "秘密鍵のファイルを指してください（`.pub` は公開鍵です）"@
}

/// The record of a connection stopped for want of its key's passphrase.
pub open spec fn passphrase_stop_message() -> Seq<char> {
    "鍵のパスフレーズを待って止まりました（鍵は読めています）"@
}

pub open spec fn passphrase_stop_hint() -> Seq<char> {
    "sshboard の画面で人がパスフレーズを入れてください"@
}

/// The registered connection with this identifier; says so when there is none.
pub fn entry_for(connections: &Connections, id: &str) -> (r: Result<ConnectionEntry, EngineError>)
    ensures
        match position_of(entries_view(connections.connections@), id@) {
            Some(k) => r matches Ok(e) && e@ == connections.connections@[k]@,
            None => r matches Err(EngineError::UnknownConnection(i)) && i@ == id@,
        },
{
    match connections.get(id) {
        Some(e) => Ok(e.duplicate()),
        None => Err(EngineError::UnknownConnection(owned(id))),
    }
}

} // verus!
