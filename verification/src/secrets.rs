//! The OS credential store (Windows Credential Manager, macOS Keychain,
//! the kernel keyring on Linux). The product keeps no secret itself: it
//! only refers to entries the OS holds.

use vstd::prelude::*;
use crate::text::{owned, push_str};

verus! {

#[verifier::external_type_specification]
#[verifier::external_body]
pub struct ExKeyringEntry(keyring::Entry);

/// Why the store could not be used. The secret itself never goes in here.
#[derive(Debug)]
pub enum SecretError {
    /// The OS store did not answer.
    Store(String),
    /// Nothing is stored under that name.
    NotFound { reference: String },
}

/// What a person reads for a store error.
pub open spec fn secret_error_text(e: SecretError) -> Seq<char> {
    match e {
        SecretError::Store(detail) => "OS の資格情報ストアが使えません: "@ + detail@,
        SecretError::NotFound { reference } => "`"@ + reference@ + "` に対応する保存がありません"@,
    }
}

impl SecretError {
    /// What went wrong, naming the entry but never a secret.
    pub fn message(&self) -> (m: String)
        ensures
            m@ == secret_error_text(*self),
    {
        match self {
            SecretError::Store(detail) => {
                let mut m = owned("OS の資格情報ストアが使えません: ");
                push_str(&mut m, detail.as_str());
                m
            },
            SecretError::NotFound { reference } => {
                let mut m = owned("`");
                push_str(&mut m, reference.as_str());
                push_str(&mut m, "` に対応する保存がありません");
                m
            },
        }
    }
}

/// One answer of the OS store, as plain values.
pub enum StoreReply<T> {
    /// The call went through.
    Done(T),
    /// The store has no entry under that name.
    Missing,
    /// The store failed, with its description.
    Failed(String),
}

/// Whether an error says what the store's answer says.
pub open spec fn matches_reply<T>(r: Result<T, SecretError>, reference: Seq<char>, reply: StoreReply<T>) -> bool {
    match (r, reply) {
        (Ok(a), StoreReply::Done(b)) => a == b,
        (Err(SecretError::NotFound { reference: n }), StoreReply::Missing) => n@ == reference,
        (Err(SecretError::Store(d)), StoreReply::Failed(e)) => d@ == e@,
        _ => false,
    }
}

/// Turns an answer of the store into the library's result: a missing entry
/// names the reference, a failure keeps the store's description.
pub fn from_reply<T>(reference: &str, reply: StoreReply<T>) -> (r: Result<T, SecretError>)
    ensures
        matches_reply(r, reference@, reply),
{
    match reply {
        StoreReply::Done(v) => Ok(v),
        StoreReply::Missing => Err(SecretError::NotFound { reference: owned(reference) }),
        StoreReply::Failed(d) => Err(SecretError::Store(d)),
    }
}

/// `keyring::Entry::new`: the handle for `user` under `service`.
#[verifier::external_body]
fn keyring_entry(service: &str, user: &str) -> (r: Result<keyring::Entry, String>)
{
    keyring::Entry::new(service, user).map_err(|error| error.to_string())
}

/// `keyring::Entry::get_password`, its `NoEntry` error told apart.
#[verifier::external_body]
fn keyring_get(entry: &keyring::Entry) -> (r: StoreReply<String>)
{
    match entry.get_password() {
        Ok(secret) => StoreReply::Done(secret),
        Err(keyring::Error::NoEntry) => StoreReply::Missing,
        Err(error) => StoreReply::Failed(error.to_string()),
    }
}

/// `keyring::Entry::set_password`.
#[verifier::external_body]
fn keyring_set(entry: &keyring::Entry, secret: &str) -> (r: Result<(), String>)
{
    entry.set_password(secret).map_err(|error| error.to_string())
}

/// `keyring::Entry::delete_credential`, its `NoEntry` error told apart.
#[verifier::external_body]
fn keyring_delete(entry: &keyring::Entry) -> (r: StoreReply<()>)
{
    match entry.delete_credential() {
        Ok(()) => StoreReply::Done(()),
        Err(keyring::Error::NoEntry) => StoreReply::Missing,
        Err(error) => StoreReply::Failed(error.to_string()),
    }
}

/// One request made of the store: what was handed to it and what came back.
pub enum StoreCall {
    /// A secret asked for under `reference`; what came back, if anything.
    Get { reference: Seq<char>, answer: Option<Seq<char>> },
    /// `secret` put under `reference`; whether the store took it.
    Put { reference: Seq<char>, secret: Seq<char>, done: bool },
    /// The secret under `reference` removed; whether the store did so.
    Delete { reference: Seq<char>, done: bool },
}

/// The answer kept in the record of a request for a secret.
pub open spec fn answer_of(r: Result<String, SecretError>) -> Option<Seq<char>> {
    match r {
        Ok(s) => Some(s@),
        Err(_) => None,
    }
}

/// The OS credential store, under one service name per product. It keeps a
/// record of the requests made through it, so what each step hands to the
/// store can be stated.
pub struct SecretStore {
    service: String,
    calls: Ghost<Seq<StoreCall>>,
}

impl SecretStore {
    pub closed spec fn service_name(&self) -> Seq<char> {
        self.service@
    }

    /// The requests made through this handle, oldest first.
    pub closed spec fn calls(&self) -> Seq<StoreCall> {
        self.calls@
    }

    pub fn new(service: &str) -> (s: Self)
        ensures
            s.service_name() == service@,
            s.calls().len() == 0,
    {
        SecretStore { service: owned(service), calls: Ghost(Seq::empty()) }
    }

    pub fn service(&self) -> (s: &str)
        ensures
            s@ == self.service_name(),
    {
        self.service.as_str()
    }

    fn entry(&self, reference: &str) -> (r: Result<keyring::Entry, SecretError>)
        ensures
            r matches Err(e) ==> e is Store,
    {
        match keyring_entry(self.service.as_str(), reference) {
            Ok(entry) => Ok(entry),
            Err(detail) => Err(SecretError::Store(detail)),
        }
    }

    /// Takes a secret out. A missing entry is told apart from a broken store;
    /// what the store answers is the OS's to decide.
    pub fn get(&mut self, reference: &str) -> (r: Result<String, SecretError>)
        ensures
            final(self).service_name() == old(self).service_name(),
            final(self).calls() == old(self).calls().push(
                StoreCall::Get { reference: reference@, answer: answer_of(r) },
            ),
            r matches Err(SecretError::NotFound { reference: n }) ==> n@ == reference@,
    {
        let r = match self.entry(reference) {
            Ok(entry) => from_reply(reference, keyring_get(&entry)),
            Err(e) => Err(e),
        };
        self.calls = Ghost(self.calls@.push(StoreCall::Get { reference: reference@, answer: answer_of(r) }));
        r
    }

    /// Puts a secret in. Only a person supplies one; the agent has no way here.
    pub fn put(&mut self, reference: &str, secret: &str) -> (r: Result<(), SecretError>)
        ensures
            final(self).service_name() == old(self).service_name(),
            final(self).calls() == old(self).calls().push(
                StoreCall::Put { reference: reference@, secret: secret@, done: r is Ok },
            ),
            r matches Err(e) ==> e is Store,
    {
        let r = match self.entry(reference) {
            Ok(entry) => match keyring_set(&entry, secret) {
                Ok(()) => Ok(()),
                Err(detail) => Err(SecretError::Store(detail)),
            },
            Err(e) => Err(e),
        };
        self.calls = Ghost(self.calls@.push(StoreCall::Put { reference: reference@, secret: secret@, done: r is Ok }));
        r
    }

    /// Removes a secret; says so when there was none.
    pub fn delete(&mut self, reference: &str) -> (r: Result<(), SecretError>)
        ensures
            final(self).service_name() == old(self).service_name(),
            final(self).calls() == old(self).calls().push(
                StoreCall::Delete { reference: reference@, done: r is Ok },
            ),
            r matches Err(SecretError::NotFound { reference: n }) ==> n@ == reference@,
    {
        let r = match self.entry(reference) {
            Ok(entry) => from_reply(reference, keyring_delete(&entry)),
            Err(e) => Err(e),
        };
        self.calls = Ghost(self.calls@.push(StoreCall::Delete { reference: reference@, done: r is Ok }));
        r
    }
}

} // verus!
