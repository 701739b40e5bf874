//! Asking a running ssh-agent which keys it holds: only the part of the
//! protocol that lists identities.
//!
//! No private key passes here; the agent answers with public keys and
//! comments, and even the public key bytes are kept only as a fingerprint.

use vstd::prelude::*;
use vstd::utf8::{valid_utf8, decode_utf8};
use crate::text::{owned, push_str, push_decimal, decimal};

verus! {

/// "Give me the list of keys" (draft-miller-ssh-agent).
pub const SSH_AGENTC_REQUEST_IDENTITIES: u8 = 11;
/// Its answer.
pub const SSH_AGENT_IDENTITIES_ANSWER: u8 = 12;
/// The largest reply accepted from the agent.
pub const MAX_REPLY: usize = 262144;

/// One key the agent holds, identified only: no key material.
#[derive(Debug, Clone, PartialEq, Eq)]
pub struct AgentIdentity {
    /// `SHA256:...`, as `ssh-add -l` prints it.
    pub fingerprint: String,
    /// The comment on the key, as the user wrote it.
    pub comment: String,
}

/// Why a reply could not be read. Never swallowed.
#[derive(Debug, Clone, Copy, PartialEq, Eq, Structural)]
pub enum AgentError {
    /// Not the kind of reply that was asked for.
    UnexpectedMessage { kind: u8 },
    /// The reply ended too early.
    Truncated { at: usize },
    /// A key's comment is not UTF-8.
    CommentNotUtf8 { index: usize },
}

/// Why the agent could not be asked.
#[derive(Debug)]
pub enum AgentConnectError {
    /// No agent is running; not a failure.
    NotRunning { detail: String },
    Io(String),
    Protocol(AgentError),
}

/// The message a person reads for a protocol error.
pub open spec fn agent_error_text(e: AgentError) -> Seq<char> {
    match e {
        AgentError::UnexpectedMessage { kind } => "想定外の返事です（種類 "@ + decimal(kind as nat) + "）"@,
        AgentError::Truncated { at } => decimal(at as nat) + " バイト目で尽きました"@,
        AgentError::CommentNotUtf8 { index } => decimal(index as nat)
            + " 番目の鍵のコメントが UTF-8 ではありません"@,
    }
}

impl AgentError {
    /// What went wrong, for a person.
    pub fn message(&self) -> (m: String)
        ensures
            m@ == agent_error_text(*self),
    {
        match *self {
            AgentError::UnexpectedMessage { kind } => {
                let mut m = owned("想定外の返事です（種類 ");
                push_decimal(&mut m, kind as u64);
                push_str(&mut m, "）");
                m
            },
            AgentError::Truncated { at } => {
                let mut m = String::new();
                push_decimal(&mut m, at as u64);
                push_str(&mut m, " バイト目で尽きました");
                assert(Seq::<char>::empty() + decimal(at as nat) == decimal(at as nat));
                m
            },
            AgentError::CommentNotUtf8 { index } => {
                let mut m = String::new();
                push_decimal(&mut m, index as u64);
                push_str(&mut m, " 番目の鍵のコメントが UTF-8 ではありません");
                assert(Seq::<char>::empty() + decimal(index as nat) == decimal(index as nat));
                m
            },
        }
    }
}

/// The request frame: length 1 (four bytes, big-endian), then the request kind.
pub fn request_identities() -> (out: Vec<u8>)
    ensures
        out@ == seq![0u8, 0u8, 0u8, 1u8, SSH_AGENTC_REQUEST_IDENTITIES],
{
    let mut out: Vec<u8> = Vec::new();
    out.push(0);
    out.push(0);
    out.push(0);
    out.push(1);
    out.push(SSH_AGENTC_REQUEST_IDENTITIES);
    out
}

/// A big-endian `uint32` at `at`.
pub open spec fn be_u32(b: Seq<u8>, at: int) -> nat {
    (b[at] as nat) * 16777216 + (b[at + 1] as nat) * 65536 + (b[at + 2] as nat) * 256 + (b[
        at + 3
    ] as nat)
}

fn read_be_u32(b: &[u8], at: usize) -> (n: u32)
    requires
        at + 4 <= b@.len(),
    ensures
        n as nat == be_u32(b@, at as int),
{
    (b[at] as u32) * 16777216 + (b[at + 1] as u32) * 65536 + (b[at + 2] as u32) * 256 + (b[at
        + 3] as u32)
}

/// An SSH `string` at `at`: where its body starts and ends, or where the
/// reply ran out.
pub open spec fn ssh_string(b: Seq<u8>, at: int) -> Result<(int, int), AgentError> {
    if at + 4 > b.len() {
        Err(AgentError::Truncated { at: at as usize })
    } else {
        let end = at + 4 + be_u32(b, at);
        if end > usize::MAX || end > b.len() {
            Err(AgentError::Truncated { at: (at + 4) as usize })
        } else {
            Ok((at + 4, end))
        }
    }
}

/// Reads an SSH `string` (length, then body) at `at`.
pub fn read_string(bytes: &[u8], at: usize) -> (r: Result<(&[u8], usize), AgentError>)
    ensures
        match ssh_string(bytes@, at as int) {
            Ok((s, e)) => r matches Ok((body, next)) && body@ == bytes@.subrange(s, e) && next == e,
            Err(err) => r == Err::<(&[u8], usize), AgentError>(err),
        },
{
    if at > bytes.len() || bytes.len() - at < 4 {
        return Err(AgentError::Truncated { at });
    }
    let after_len = at + 4;
    let len = read_be_u32(bytes, at) as usize;
    if len > usize::MAX - after_len {
        return Err(AgentError::Truncated { at: after_len });
    }
    let end = after_len + len;
    if end > bytes.len() {
        return Err(AgentError::Truncated { at: after_len });
    }
    Ok((&bytes[after_len..end], end))
}

/// A key as plain values: its fingerprint and its comment.
pub open spec fn identity_view(i: AgentIdentity) -> (Seq<char>, Seq<char>) {
    (i.fingerprint@, i.comment@)
}

/// The keys from position `at` on, the `index`-th of `count` next.
pub open spec fn identities_from(b: Seq<u8>, at: int, index: int, count: int) -> Result<
    Seq<(Seq<char>, Seq<char>)>,
    AgentError,
>
    decreases count - index,
{
    if index >= count {
        Ok(seq![])
    } else {
        match ssh_string(b, at) {
            Err(e) => Err(e),
            Ok((bs, be)) => match ssh_string(b, be) {
                Err(e) => Err(e),
                Ok((cs, ce)) => {
                    let raw = b.subrange(cs, ce);
                    if !valid_utf8(raw) {
                        Err(AgentError::CommentNotUtf8 { index: index as usize })
                    } else {
                        match identities_from(b, ce, index + 1, count) {
                            Err(e) => Err(e),
                            Ok(rest) => Ok(seq![(fingerprint_text(b.subrange(bs, be)), decode_utf8(raw))] + rest),
                        }
                    }
                },
            },
        }
    }
}

/// What a reply payload (without its length prefix) lists.
pub open spec fn identities_of(p: Seq<u8>) -> Result<Seq<(Seq<char>, Seq<char>)>, AgentError> {
    if p.len() == 0 {
        Err(AgentError::Truncated { at: 0 })
    } else if p[0] != SSH_AGENT_IDENTITIES_ANSWER {
        Err(AgentError::UnexpectedMessage { kind: p[0] })
    } else if p.len() < 5 {
        Err(AgentError::Truncated { at: 1 })
    } else {
        identities_from(p, 5, 0, be_u32(p, 1) as int)
    }
}

/// Every key read takes at least eight bytes (two lengths), and reading
/// succeeds only with all the keys still to come.
proof fn lemma_identities_from_count(b: Seq<u8>, at: int, index: int, count: int)
    requires
        0 <= at,
    ensures
        identities_from(b, at, index, count) matches Ok(list) ==> {
            &&& index < count ==> list.len() == count - index && at + 8 * (count - index) <= b.len()
            &&& index >= count ==> list.len() == 0
        },
    decreases count - index,
{
    if index < count {
        if let Ok((bs, be)) = ssh_string(b, at) {
            if let Ok((cs, ce)) = ssh_string(b, be) {
                lemma_identities_from_count(b, ce, index + 1, count);
            }
        }
    }
}

/// A reply is read only when it holds every key it claims: the keys read
/// are exactly as many as it says, and they fit in its bytes. A reply that
/// claims more keys than it carries is refused, never read short.
pub proof fn lemma_reply_holds_what_it_claims(p: Seq<u8>)
    ensures
        identities_of(p) matches Ok(list) ==> list.len() == be_u32(p, 1) && 5 + 8 * be_u32(p, 1) <= p.len(),
        p.len() >= 5 && p[0] == SSH_AGENT_IDENTITIES_ANSWER && 5 + 8 * be_u32(p, 1) > p.len() ==> identities_of(p) is Err,
{
    if p.len() >= 5 && p[0] == SSH_AGENT_IDENTITIES_ANSWER {
        lemma_identities_from_count(p, 5, 0, be_u32(p, 1) as int);
    }
}

/// `acc` placed before what `r` holds, if it holds anything.
pub open spec fn prepend(
    acc: Seq<(Seq<char>, Seq<char>)>,
    r: Result<Seq<(Seq<char>, Seq<char>)>, AgentError>,
) -> Result<Seq<(Seq<char>, Seq<char>)>, AgentError> {
    match r {
        Ok(rest) => Ok(acc + rest),
        Err(e) => Err(e),
    }
}

/// Reads the reply payload (without its four length bytes).
///
/// Identities are gathered as they are read, never allocated up front from
/// the count the reply claims.
pub fn parse_identities(payload: &[u8]) -> (r: Result<Vec<AgentIdentity>, AgentError>)
    ensures
        match identities_of(payload@) {
            Ok(list) => r matches Ok(v) && v@.map_values(|i: AgentIdentity| identity_view(i)) == list,
            Err(e) => r == Err::<Vec<AgentIdentity>, AgentError>(e),
        },
{
    if payload.len() == 0 {
        return Err(AgentError::Truncated { at: 0 });
    }
    let kind = payload[0];
    if kind != SSH_AGENT_IDENTITIES_ANSWER {
        return Err(AgentError::UnexpectedMessage { kind });
    }
    if payload.len() < 5 {
        return Err(AgentError::Truncated { at: 1 });
    }
    let count = read_be_u32(payload, 1);
    let mut identities: Vec<AgentIdentity> = Vec::new();
    let mut at: usize = 5;
    let mut index: u32 = 0;
    while index < count
        invariant
            index <= count,
            at <= payload@.len(),
            count as nat == be_u32(payload@, 1),
            payload@.len() >= 5,
            payload@[0] == SSH_AGENT_IDENTITIES_ANSWER,
            identities_of(payload@) == prepend(
                identities@.map_values(|i: AgentIdentity| identity_view(i)),
                identities_from(payload@, at as int, index as int, count as int),
            ),
        decreases count - index,
    {
        let ghost acc = identities@.map_values(|i: AgentIdentity| identity_view(i));
        let (blob, after_blob) = match read_string(payload, at) {
            Ok(found) => found,
            Err(e) => return Err(e),
        };
        let (raw, after_comment) = match read_string(payload, after_blob) {
            Ok(found) => found,
            Err(e) => return Err(e),
        };
        let comment = match utf8_text(raw) {
            Some(text) => text,
            None => return Err(AgentError::CommentNotUtf8 { index: index as usize }),
        };
        let one = AgentIdentity { fingerprint: fingerprint(blob), comment: owned(comment) };
        identities.push(one);
        proof {
            let v = identities@.map_values(|i: AgentIdentity| identity_view(i));
            assert(v =~= acc.push(identity_view(one)));
            let next = identities_from(payload@, after_comment as int, index + 1, count as int);
            assert(identities_from(payload@, at as int, index as int, count as int) == match next {
                Err(e) => Err(e),
                Ok(rest) => Ok(seq![identity_view(one)] + rest),
            });
            match next {
                Ok(rest) => {
                    assert(acc + (seq![identity_view(one)] + rest) =~= v + rest);
                },
                Err(e) => {},
            }
        }
        at = after_comment;
        index = index + 1;
    }
    let ghost acc = identities@.map_values(|i: AgentIdentity| identity_view(i));
    assert(acc + Seq::<(Seq<char>, Seq<char>)>::empty() == acc);
    Ok(identities)
}

/// The characters of valid UTF-8 bytes (`std::str::from_utf8`): `None`
/// exactly when the bytes are not valid UTF-8.
#[verifier::external_body]
fn utf8_text(bytes: &[u8]) -> (r: Option<&str>)
    ensures
        r is Some <==> valid_utf8(bytes@),
        r matches Some(s) ==> s@ == decode_utf8(bytes@),
{
    std::str::from_utf8(bytes).ok()
}

/// The SHA-256 digest of the bytes (a name for what `sha2::Sha256::digest`
/// computes).
pub uninterp spec fn sha256_digest(data: Seq<u8>) -> Seq<u8>;

/// `sha2::Sha256::digest`: the 32-byte SHA-256 digest of `data`.
#[verifier::external_body]
fn sha256(data: &[u8]) -> (d: Vec<u8>)
    ensures
        d@ == sha256_digest(data@),
        d@.len() == 32,
{
    <sha2::Sha256 as sha2::Digest>::digest(data).to_vec()
}

/// The character of the standard base64 alphabet for a six-bit value.
pub open spec fn base64_char(v: int) -> char {
    if v < 26 {
        (('A' as int) + v) as char
    } else if v < 52 {
        (('a' as int) + (v - 26)) as char
    } else if v < 62 {
        (('0' as int) + (v - 52)) as char
    } else if v == 62 {
        '+'
    } else {
        '/'
    }
}

/// Standard base64 without padding, three bytes to four characters, a
/// trailing one or two bytes to two or three characters.
pub open spec fn base64_text(b: Seq<u8>) -> Seq<char>
    decreases b.len(),
{
    if b.len() == 0 {
        seq![]
    } else if b.len() == 1 {
        let x = b[0] as int;
        seq![base64_char(x / 4), base64_char((x % 4) * 16)]
    } else if b.len() == 2 {
        let x = b[0] as int;
        let y = b[1] as int;
        seq![base64_char(x / 4), base64_char((x % 4) * 16 + y / 16), base64_char((y % 16) * 4)]
    } else {
        let x = b[0] as int;
        let y = b[1] as int;
        let z = b[2] as int;
        seq![
            base64_char(x / 4),
            base64_char((x % 4) * 16 + y / 16),
            base64_char((y % 16) * 4 + z / 64),
            base64_char(z % 64),
        ] + base64_text(b.skip(3))
    }
}

/// `base64::engine::general_purpose::STANDARD_NO_PAD.encode`.
#[verifier::external_body]
fn base64_no_pad(bytes: &[u8]) -> (s: String)
    ensures
        s@ == base64_text(bytes@),
{
    base64::Engine::encode(&base64::engine::general_purpose::STANDARD_NO_PAD, bytes)
}

/// The fingerprint of a public key blob, as `ssh-add -l` prints it.
pub open spec fn fingerprint_text(blob: Seq<u8>) -> Seq<char> {
    "SHA256:"@ + base64_text(sha256_digest(blob))
}

/// The fingerprint of a public key blob, in the form `ssh-add -l` prints.
pub fn fingerprint(key_blob: &[u8]) -> (f: String)
    ensures
        f@ == fingerprint_text(key_blob@),
{
    let digest = sha256(key_blob);
    let mut f = owned("SHA256:");
    let encoded = base64_no_pad(digest.as_slice());
    push_str(&mut f, encoded.as_str());
    f
}

/// Checks the length the agent announced for its reply.
pub fn reply_length(len: u32) -> (r: Result<usize, AgentConnectError>)
    ensures
        (len == 0 || len > MAX_REPLY) ==> (r matches Err(AgentConnectError::Io(m)) && m@
            == "返事の長さが異常です: "@ + decimal(len as nat)),
        !(len == 0 || len > MAX_REPLY) ==> (r matches Ok(n) && n == len),
{
    if len == 0 || len as usize > MAX_REPLY {
        let mut m = owned("返事の長さが異常です: ");
        push_decimal(&mut m, len as u64);
        return Err(AgentConnectError::Io(m));
    }
    Ok(len as usize)
}

/// What a person reads when the agent could not be asked.
pub open spec fn agent_connect_error_text(e: AgentConnectError) -> Seq<char> {
    match e {
        AgentConnectError::NotRunning { detail } => "ssh-agent が見つかりません: "@ + detail@,
        AgentConnectError::Io(detail) => "ssh-agent と話せません: "@ + detail@,
        AgentConnectError::Protocol(error) => "ssh-agent の返事を読めません: "@ + agent_error_text(error),
    }
}

impl AgentConnectError {
    /// What went wrong, for a person; never key material.
    pub fn message(&self) -> (m: String)
        ensures
            m@ == agent_connect_error_text(*self),
    {
        match self {
            AgentConnectError::NotRunning { detail } => {
                let mut m = owned("ssh-agent が見つかりません: ");
                push_str(&mut m, detail.as_str());
                m
            },
            AgentConnectError::Io(detail) => {
                let mut m = owned("ssh-agent と話せません: ");
                push_str(&mut m, detail.as_str());
                m
            },
            AgentConnectError::Protocol(error) => {
                let mut m = owned("ssh-agent の返事を読めません: ");
                let text = error.message();
                push_str(&mut m, text.as_str());
                m
            },
        }
    }
}

/// The keys listed in the agent's reply; a reply that cannot be read is a
/// protocol error.
pub fn identities_in(payload: &[u8]) -> (r: Result<Vec<AgentIdentity>, AgentConnectError>)
    ensures
        match identities_of(payload@) {
            Ok(ids) => r matches Ok(v) && v@.map_values(|i: AgentIdentity| identity_view(i)) == ids,
            Err(e) => r matches Err(AgentConnectError::Protocol(f)) && f == e,
        },
{
    match parse_identities(payload) {
        Ok(ids) => Ok(ids),
        Err(e) => Err(AgentConnectError::Protocol(e)),
    }
}

} // verus!
