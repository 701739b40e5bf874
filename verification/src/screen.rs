//! The plain values the desktop screen receives and sends: a band line,
//! the open connections, why a connection failed, a directory listing in
//! the order it is shown, a file read for display, the MCP endpoint, and
//! whether a captured picture came back blank.

use vstd::prelude::*;
use vstd::utf8::{valid_utf8, decode_utf8};
use crate::agent::base64_text;
use crate::band::{BandLine, rendered_line, tag_text};
use crate::connections::opt_view;
use crate::engine::{EngineError, Held, KeyFacts, Opened, engine_error_text, opened_views};
use crate::text::{less_text, owned, push_str, text_less};

verus! {

#[verifier::external_type_specification]
#[verifier::external_body]
pub struct ExPathBuf(std::path::PathBuf);

/// One band line as the screen gets it. No destination is in it.
#[derive(Clone)]
pub struct BandLinePayload {
    pub seq: u64,
    /// `[AI]` or `[Human]`.
    pub tag: &'static str,
    pub text: String,
    /// The line with its head aligned, for display.
    pub rendered: String,
}

impl BandLinePayload {
    /// What the screen is sent for a line.
    pub fn for_line(line: &BandLine) -> (p: Self)
        ensures
            p.seq == line@.0,
            p.tag@ == tag_text(line@.1),
            p.text@ == line@.2,
            p.rendered@ == rendered_line(line@.1, line@.2),
    {
        BandLinePayload {
            seq: line.seq(),
            tag: line.actor().tag(),
            text: owned(line.text()),
            rendered: line.render(),
        }
    }
}

/// Where the connection list lives, decided at start-up.
pub struct ConnectionsPath(pub std::path::PathBuf);

/// What the screen is told about a key file: never its contents or path,
/// only whether it was read, whether it can be used, whether it needs a
/// passphrase, and the name of its format.
pub struct KeyReport {
    /// Whether the file could be read; tells a missing file from a wrong one.
    pub readable: bool,
    /// Whether it can authenticate.
    pub usable: bool,
    /// Whether it needs a passphrase.
    pub needs_passphrase: bool,
    /// A key, but encrypted in a way that cannot be read here.
    pub unsupported_encryption: bool,
    /// The name of the format.
    pub format: String,
}

impl KeyReport {
    /// The report for a file that could not be read.
    pub fn unreadable() -> (k: Self)
        ensures
            !k.readable && !k.usable && !k.needs_passphrase && !k.unsupported_encryption,
            k.format@.len() == 0,
    {
        KeyReport {
            readable: false,
            usable: false,
            needs_passphrase: false,
            unsupported_encryption: false,
            format: String::new(),
        }
    }

    /// The report for a file that was read and judged by its contents.
    pub fn read(facts: &KeyFacts) -> (k: Self)
        ensures
            k.readable,
            k.usable == facts.usable,
            k.needs_passphrase == facts.needs_passphrase,
            k.unsupported_encryption == facts.unsupported_encryption,
            k.format@ == facts.format@,
    {
        KeyReport {
            readable: true,
            usable: facts.usable,
            needs_passphrase: facts.needs_passphrase,
            unsupported_encryption: facts.unsupported_encryption,
            format: facts.format.clone(),
        }
    }
}

/// The MCP endpoint could not start: the port, which is loopback and not a
/// destination, and why.
#[derive(Clone)]
pub struct McpFailure {
    pub port: u16,
    pub detail: String,
}

/// What an MCP client needs: the address and the token, valid only while
/// this run lasts.
#[derive(Clone)]
pub struct McpAccess {
    pub url: String,
    pub token: String,
}

/// The MCP endpoint, once it is up.
#[derive(Default)]
pub struct McpUrl {
    access: Option<McpAccess>,
}

impl McpUrl {
    pub closed spec fn held(&self) -> Option<(Seq<char>, Seq<char>)> {
        match self.access {
            Some(a) => Some((a.url@, a.token@)),
            None => None,
        }
    }

    /// Not up yet.
    pub fn new() -> (u: Self)
        ensures
            u.held() is None,
    {
        McpUrl { access: None }
    }

    /// Records the endpoint once it is up.
    pub fn set(&mut self, url: String, token: String)
        ensures
            final(self).held() == Some((url@, token@)),
    {
        self.access = Some(McpAccess { url, token });
    }

    /// The endpoint, when it is up.
    pub fn get(&self) -> (r: Option<McpAccess>)
        ensures
            match (r, self.held()) {
                (Some(a), Some((url, token))) => a.url@ == url && a.token@ == token,
                (None, None) => true,
                _ => false,
            },
    {
        match &self.access {
            Some(a) => Some(McpAccess { url: a.url.clone(), token: a.token.clone() }),
            None => None,
        }
    }
}

/// The menu wording the screen sends, in the language chosen.
#[derive(Debug)]
pub struct MenuLabels {
    pub about: String,
    pub quit: String,
    /// The "View" menu, where text size is first looked for.
    pub view: String,
    pub text_larger: String,
    pub text_smaller: String,
    pub text_reset: String,
    pub edit: String,
    pub undo: String,
    pub redo: String,
    pub cut: String,
    pub copy: String,
    pub paste: String,
    pub select_all: String,
    pub window: String,
    pub minimize: String,
    pub zoom: String,
    pub close: String,
}

/// Why a connection could not be opened, kept as a structure so the screen
/// can offer the next step.
pub enum ConnectFailure {
    /// A host seen for the first time, or not the registered one; a person
    /// can check it and register it.
    Untrusted { algorithm: String, fingerprint: String, expected: Option<String> },
    /// The key needs a passphrase.
    PassphraseNeeded,
    /// Anything else, shown as it is.
    Other { message: String },
}

impl ConnectFailure {
    /// What the screen is told for an engine error.
    pub fn from_error(error: EngineError) -> (f: Self)
        ensures
            match error {
                EngineError::UntrustedHost { algorithm, fingerprint, expected, .. } => f matches ConnectFailure::Untrusted {
                    algorithm: a,
                    fingerprint: p,
                    expected: x,
                } && a@ == algorithm@ && p@ == fingerprint@ && opt_view(x) == opt_view(expected),
                EngineError::PassphraseNeeded { .. } => f is PassphraseNeeded,
                _ => f matches ConnectFailure::Other { message } && message@ == engine_error_text(error),
            },
    {
        match error {
            EngineError::UntrustedHost { algorithm, fingerprint, expected, .. } => ConnectFailure::Untrusted {
                algorithm,
                fingerprint,
                expected,
            },
            EngineError::PassphraseNeeded { .. } => ConnectFailure::PassphraseNeeded,
            other => ConnectFailure::Other { message: other.message() },
        }
    }
}

/// Every open connection and the one operations go to.
pub struct SessionStatus {
    /// All of them; the tabs show these.
    pub open: Vec<Opened>,
    /// Where operations go.
    pub active: Option<String>,
}

impl SessionStatus {
    /// The status of what is held.
    pub fn of(held: &Held) -> (s: Self)
        requires
            held.wf(),
        ensures
            opened_views(s.open@) == held@.live,
            opt_view(s.active) == held@.active,
    {
        let active = match held.active() {
            Some(o) => Some(o.id),
            None => None,
        };
        SessionStatus { open: held.open_connections(), active }
    }
}

/// A file read for display.
pub struct ReadResult {
    pub bytes: u64,
    /// Whether some bytes were not UTF-8 and were replaced; shown to the person.
    pub was_lossy: bool,
    pub text: String,
}

/// `String::from_utf8_lossy`: valid UTF-8 comes back decoded as it is
/// (borrowed, nothing replaced); anything else comes back as an owned copy
/// with each invalid sequence replaced by U+FFFD REPLACEMENT CHARACTER, as
/// its documentation says. How the bytes are cut into sequences (the
/// standard library's `Utf8Chunks`) is not stated here.
#[verifier::external_body]
fn lossy_text(bytes: &[u8]) -> (r: (String, bool))
    ensures
        valid_utf8(bytes@) ==> !r.1 && r.0@ == decode_utf8(bytes@),
        !valid_utf8(bytes@) ==> r.1 && r.0@.contains('\u{FFFD}'),
{
    let text = String::from_utf8_lossy(bytes);
    let lossy = matches!(text, std::borrow::Cow::Owned(_));
    (text.into_owned(), lossy)
}

impl ReadResult {
    /// The text of a file for the screen, saying so when it was not UTF-8
    /// (logs in other encodings exist) rather than hiding it.
    pub fn of(bytes: &[u8]) -> (r: Self)
        ensures
            r.bytes == bytes@.len(),
            r.was_lossy == !valid_utf8(bytes@),
            valid_utf8(bytes@) ==> r.text@ == decode_utf8(bytes@),
            !valid_utf8(bytes@) ==> r.text@.contains('\u{FFFD}'),
    {
        let (text, lossy) = lossy_text(bytes);
        ReadResult { bytes: bytes.len() as u64, was_lossy: lossy, text }
    }
}

/// A file put on the server.
pub struct Uploaded {
    pub name: String,
    pub remote: String,
    pub bytes: u64,
}

/// A file brought down to this machine.
pub struct Downloaded {
    pub name: String,
    pub local: String,
    pub bytes: u64,
}

/// One entry of a directory listing.
pub struct Listed {
    pub name: String,
    pub is_dir: bool,
    pub size: u64,
}

/// One entry as plain values.
pub struct ListedView {
    pub name: Seq<char>,
    pub is_dir: bool,
    pub size: u64,
}

impl View for Listed {
    type V = ListedView;

    open spec fn view(&self) -> ListedView {
        ListedView { name: self.name@, is_dir: self.is_dir, size: self.size }
    }
}

impl Listed {
    /// A copy of this entry.
    pub fn duplicate(&self) -> (r: Listed)
        ensures
            r@ == self@,
    {
        Listed { name: self.name.clone(), is_dir: self.is_dir, size: self.size }
    }
}

/// The views of a listing.
pub open spec fn listed_views(v: Seq<Listed>) -> Seq<ListedView> {
    v.map_values(|l: Listed| l@)
}

/// A local directory as the screen shows it; the same shape as a remote one.
pub struct LocalListing {
    pub path: String,
    /// One level up; none at the root.
    pub parent: Option<String>,
    pub entries: Vec<Listed>,
}

/// What `str::to_lowercase` gives for a text. Fixed by the Unicode tables of
/// the standard library.
pub uninterp spec fn lowercase(s: Seq<char>) -> Seq<char>;

/// `str::to_lowercase`.
#[verifier::external_body]
fn lowercased(s: &str) -> (r: String)
    ensures
        r@ == lowercase(s@),
{
    s.to_lowercase()
}

/// Whether `a` is shown before `b`: directories first, then by name
/// without regard to case.
pub open spec fn shown_before(a: ListedView, b: ListedView) -> bool {
    ||| (a.is_dir && !b.is_dir)
    ||| (a.is_dir == b.is_dir && text_less(lowercase(a.name), lowercase(b.name)))
}

/// No entry is shown after one that should come after it.
pub open spec fn in_shown_order(s: Seq<ListedView>) -> bool {
    forall|i: int, j: int| 0 <= i < j < s.len() ==> !shown_before(#[trigger] s[j], #[trigger] s[i])
}

/// The showing order is transitive.
pub proof fn lemma_shown_before_transitive(a: ListedView, b: ListedView, c: ListedView)
    ensures
        shown_before(a, b) && shown_before(b, c) ==> shown_before(a, c),
{
    crate::text::lemma_text_less_transitive(lowercase(a.name), lowercase(b.name), lowercase(c.name));
}

/// Two entries that go in the same place: neither is shown before the other.
pub open spec fn same_place(a: ListedView, b: ListedView) -> bool {
    !shown_before(a, b) && !shown_before(b, a)
}

/// Each entry of `r` is the entry of `src` at `pos`, taken from the first
/// `n`, and entries that go in the same place keep the order they had in `src`.
pub open spec fn kept_in_order(r: Seq<ListedView>, src: Seq<ListedView>, pos: Seq<int>, n: int) -> bool {
    &&& pos.len() == r.len()
    &&& forall|k: int| 0 <= k < r.len() ==> 0 <= #[trigger] pos[k] < n && n <= src.len() && r[k] == src[pos[k]]
    &&& forall|a: int, b: int|
        0 <= a < b < r.len() && same_place(#[trigger] r[a], #[trigger] r[b]) ==> pos[a] < pos[b]
}

/// Entries that go in the same place can stand in for each other.
pub proof fn lemma_same_place_substitutes(x: ListedView, y: ListedView, z: ListedView)
    ensures
        same_place(x, y) && shown_before(x, z) ==> shown_before(y, z),
{
    crate::text::lemma_text_less_total(lowercase(x.name), lowercase(y.name));
}

/// Puts a listing in the order the screen shows it: directories first,
/// then by name without regard to case, so the order does not change from
/// one look to the next. Nothing is added or lost, and entries that go in
/// the same place keep the order they came in.
pub fn order_listing(entries: &Vec<Listed>) -> (r: Vec<Listed>)
    ensures
        listed_views(r@).to_multiset() == listed_views(entries@).to_multiset(),
        in_shown_order(listed_views(r@)),
        exists|pos: Seq<int>| kept_in_order(listed_views(r@), listed_views(entries@), pos, entries@.len() as int),
{
    broadcast use vstd::seq_lib::group_to_multiset_ensures;
    let ghost src = listed_views(entries@);
    let ghost mut pos: Seq<int> = Seq::empty();
    let mut keys: Vec<String> = Vec::new();
    let mut out: Vec<Listed> = Vec::new();
    for i in 0..entries.len()
        invariant
            src == listed_views(entries@),
            kept_in_order(listed_views(out@), src, pos, i as int),
            keys@.len() == out@.len(),
            forall|k: int| 0 <= k < keys@.len() ==> #[trigger] keys@[k]@ == lowercase(out@[k]@.name),
            in_shown_order(listed_views(out@)),
            listed_views(out@).to_multiset() == listed_views(entries@.take(i as int)).to_multiset(),
    {
        let item = entries[i].duplicate();
        let key = lowercased(item.name.as_str());
        let ghost x = item@;
        assert(x == entries@[i as int]@);
        let ghost before = listed_views(out@);
        let ghost taken = listed_views(entries@.take(i as int));
        assert(before.to_multiset() == taken.to_multiset());
        let mut p: usize = 0;
        while p < out.len()
            invariant
                keys@.len() == out@.len(),
                forall|k: int| 0 <= k < keys@.len() ==> #[trigger] keys@[k]@ == lowercase(out@[k]@.name),
                before == listed_views(out@),
                kept_in_order(before, src, pos, i as int),
                in_shown_order(before),
                i < entries@.len(),
                src == listed_views(entries@),
                item@ == x,
                key@ == lowercase(x.name),
                p <= out@.len(),
                forall|k: int| 0 <= k < p ==> !shown_before(x, #[trigger] before[k]),
            ensures
                p <= out@.len(),
                forall|k: int| 0 <= k < p ==> !shown_before(x, #[trigger] before[k]),
                p < out@.len() ==> shown_before(x, before[p as int]),
            decreases out@.len() - p,
        {
            let other = &out[p];
            assert(before[p as int] == other@);
            let first = (item.is_dir && !other.is_dir) || (item.is_dir == other.is_dir && less_text(
                key.as_str(),
                keys[p].as_str(),
            ));
            if first {
                assert(shown_before(x, before[p as int]));
                break;
            }
            p += 1;
        }
        proof {
            assert forall|k: int| p <= k < before.len() implies !shown_before(#[trigger] before[k], x) by {
                if k > p {
                    assert(!shown_before(before[k], before[p as int]));
                    lemma_shown_before_transitive(before[k], x, before[p as int]);
                }
                if k == p {
                    lemma_shown_before_asymmetric(x, before[p as int]);
                }
            }
        }
        proof {
            assert(kept_in_order(before, src, pos, i as int));
        }
        keys.insert(p, key);
        out.insert(p, item);
        proof {
            let after = listed_views(out@);
            assert(after =~= before.insert(p as int, x));
            let old_pos = pos;
            pos = pos.insert(p as int, i as int);
            assert(src[i as int] == x);
            assert forall|k: int| 0 <= k < after.len() implies 0 <= #[trigger] pos[k] < i + 1 && i + 1 <= src.len()
                && after[k] == src[pos[k]] by {
                if k < p {
                    assert(pos[k] == old_pos[k] && after[k] == before[k]);
                } else if k > p {
                    assert(pos[k] == old_pos[k - 1] && after[k] == before[k - 1]);
                }
            }
            assert forall|a: int, b: int|
                0 <= a < b < after.len() && same_place(#[trigger] after[a], #[trigger] after[b]) implies pos[a] < pos[b] by {
                if b < p {
                    assert(after[a] == before[a] && after[b] == before[b]);
                } else if b == p {
                    assert(pos[a] == old_pos[a] && pos[b] == i);
                } else if a < p {
                    assert(after[a] == before[a] && after[b] == before[b - 1]);
                    assert(pos[a] == old_pos[a] && pos[b] == old_pos[b - 1]);
                } else if a == p {
                    let q = b - 1;
                    assert(after[b] == before[q]);
                    assert(shown_before(x, before[p as int]));
                    if q > p {
                        assert(!shown_before(before[q], before[p as int]));
                    }
                    lemma_same_place_substitutes(x, before[q], before[p as int]);
                    lemma_shown_before_asymmetric(x, before[p as int]);
                    assert(false);
                } else {
                    assert(after[a] == before[a - 1] && after[b] == before[b - 1]);
                    assert(pos[a] == old_pos[a - 1] && pos[b] == old_pos[b - 1]);
                }
            }
            assert(kept_in_order(after, src, pos, i + 1));
            assert forall|a: int, b: int| 0 <= a < b < after.len() implies !shown_before(#[trigger] after[b], #[trigger] after[a]) by {
                if b < p {
                    assert(after[a] == before[a] && after[b] == before[b]);
                } else if b == p {
                    assert(after[a] == before[a] && after[b] == x);
                } else if a < p {
                    assert(after[a] == before[a] && after[b] == before[b - 1]);
                } else if a == p {
                    assert(after[a] == x && after[b] == before[b - 1]);
                } else {
                    assert(after[a] == before[a - 1] && after[b] == before[b - 1]);
                }
            }
            assert(entries@.take(i + 1) =~= entries@.take(i as int).push(entries@[i as int]));
            assert(listed_views(entries@.take(i + 1)) =~= listed_views(entries@.take(i as int)).push(x));
            vstd::seq_lib::to_multiset_insert(before, p as int, x);
            vstd::seq_lib::to_multiset_build(taken, x);
            assert(after.to_multiset() == before.to_multiset().insert(x));
            assert(listed_views(entries@.take(i + 1)).to_multiset() == taken.to_multiset().insert(x));
        }
    }
    assert(entries@.take(entries@.len() as int) =~= entries@);
    assert(kept_in_order(listed_views(out@), listed_views(entries@), pos, entries@.len() as int));
    out
}

/// At most one of two entries is shown before the other.
pub proof fn lemma_shown_before_asymmetric(a: ListedView, b: ListedView)
    ensures
        shown_before(a, b) ==> !shown_before(b, a),
{
    crate::text::lemma_text_less_asymmetric(lowercase(a.name), lowercase(b.name));
}

// --- The menu --------------------------------------------------------------

/// Key bindings for the text size (named by key code: `Plus` and `0` are
/// not key codes, and a binding that does not parse drops the whole menu).
pub const TEXT_LARGER_KEY: &'static str = "CmdOrCtrl+Equal";

pub const TEXT_SMALLER_KEY: &'static str = "CmdOrCtrl+Minus";

pub const TEXT_RESET_KEY: &'static str = "CmdOrCtrl+Digit0";

/// The event the screen listens on for text-size changes.
pub const TEXT_SIZE_EVENT: &'static str = "menu://text-size";

/// Which way a text-size menu item moves the text, as the screen is told;
/// other items are not the screen's concern.
pub open spec fn text_size_step(id: Seq<char>) -> Option<Seq<char>> {
    if id == "text-larger"@ {
        Some("larger"@)
    } else if id == "text-smaller"@ {
        Some("smaller"@)
    } else if id == "text-reset"@ {
        Some("reset"@)
    } else {
        None
    }
}

/// Which way a menu item moves the text size.
pub fn text_size_direction(id: &str) -> (r: Option<&'static str>)
    ensures
        match text_size_step(id@) {
            Some(d) => r matches Some(t) && t@ == d,
            None => r is None,
        },
{
    if crate::text::same_text(id, "text-larger") {
        Some("larger")
    } else if crate::text::same_text(id, "text-smaller") {
        Some("smaller")
    } else if crate::text::same_text(id, "text-reset") {
        Some("reset")
    } else {
        None
    }
}


/// Whether a captured picture is one colour only: what an unpermitted
/// screen capture hands back, caught so that a blank picture is never
/// passed off as a taken one. A picture with no pixels counts as blank.
/// Each pixel is its four RGBA bytes.
pub fn is_blank(pixels: &[[u8; 4]]) -> (b: bool)
    ensures
        b <==> forall|i: int| 0 <= i < pixels@.len() ==> #[trigger] pixels@[i] == pixels@[0],
{
    if pixels.len() == 0 {
        return true;
    }
    let first: [u8; 4] = pixels[0];
    let mut i: usize = 1;
    while i < pixels.len()
        invariant
            1 <= i <= pixels@.len(),
            first == pixels@[0],
            forall|j: int| 0 <= j < i ==> #[trigger] pixels@[j] == pixels@[0],
        decreases pixels@.len() - i,
    {
        let p: [u8; 4] = pixels[i];
        if !(p[0] == first[0] && p[1] == first[1] && p[2] == first[2] && p[3] == first[3]) {
            proof {
                assert(p@[0] != first@[0] || p@[1] != first@[1] || p@[2] != first@[2] || p@[3] != first@[3]);
                assert(pixels@[i as int] != pixels@[0]);
            }
            return false;
        }
        proof {
            assert(p@ =~= first@);
        }
        i = i + 1;
    }
    true
}

/// The standard base64 text of some bytes, padded with `=` to a multiple
/// of four characters.
pub open spec fn base64_padded(b: Seq<u8>) -> Seq<char> {
    if b.len() % 3 == 1 {
        base64_text(b) + seq!['=', '=']
    } else if b.len() % 3 == 2 {
        base64_text(b) + seq!['=']
    } else {
        base64_text(b)
    }
}

/// `base64::engine::general_purpose::STANDARD.decode`, its error written
/// with `Display`. That engine accepts only canonical padded text, so it
/// gives back the bytes whose padded encoding the text is, and fails
/// exactly when no bytes encode to it. What the error text says is not
/// stated here.
#[verifier::external_body]
fn base64_decode(text: &str) -> (r: Result<Vec<u8>, String>)
    ensures
        r matches Ok(b) ==> text@ == base64_padded(b@),
        r is Err ==> forall|b: Seq<u8>| text@ != #[trigger] base64_padded(b),
{
    base64::Engine::decode(&base64::engine::general_purpose::STANDARD, text).map_err(|error| error.to_string())
}

/// The start of the refusal when the page's picture cannot be read.
pub open spec fn unreadable_picture_prefix() -> Seq<char> {
    "画面が返した画像を読めません: "@
}

/// What the page's answer to "draw yourself" comes to: its own refusal when
/// it could not draw, otherwise the PNG it sent as standard base64, decoded.
/// Text that no bytes encode to is refused, saying the picture cannot be read.
pub fn page_shot_png(ok: bool, png_base64: &str, error: String) -> (r: Result<Vec<u8>, String>)
    ensures
        !ok ==> (r matches Err(e) && e@ == error@),
        ok ==> match r {
            Ok(b) => png_base64@ == base64_padded(b@),
            Err(m) => (forall|b: Seq<u8>| png_base64@ != #[trigger] base64_padded(b)) && exists|d: Seq<char>|
                m@ == unreadable_picture_prefix() + d,
        },
{
    if !ok {
        return Err(error);
    }
    match base64_decode(png_base64) {
        Ok(bytes) => Ok(bytes),
        Err(detail) => {
            let mut m = owned("画面が返した画像を読めません: ");
            push_str(&mut m, detail.as_str());
            assert(m@ == unreadable_picture_prefix() + detail@);
            Err(m)
        },
    }
}

} // verus!
