//! How a connection gains privilege for a `sudo` command.
//!
//! Only a command that starts with `sudo ` is touched. The secret for `ask`
//! never passes through here: the command line cannot carry it.

use vstd::prelude::*;
use crate::text::{chars_of, chars_from, has_prefix, owned, push_chars, starts_with_chars};

verus! {

/// How this connection raises privilege; a person writes it per connection.
#[derive(Debug, Clone, Copy, PartialEq, Eq, Structural)]
pub enum Elevation {
    /// Do not raise. The default: nothing changes until someone writes it.
    Plain,
    /// `sudoers.d` holds the scope; `-n` so it never waits for input.
    Sudoers,
    /// A person types the password on screen, read by sudo from stdin.
    Ask,
}

impl Default for Elevation {
    fn default() -> (e: Self)
        ensures
            e == Elevation::Plain,
    {
        Elevation::Plain
    }
}

/// The command as it will be typed, and whether a person must supply a secret.
#[derive(Debug, Clone, PartialEq, Eq)]
pub struct Elevated {
    /// Exactly what runs; shown on screen and in the record as it is.
    pub command: String,
    pub needs_secret: bool,
}

/// What `run` becomes under `how`: a leading `sudo ` gains `-n` (sudoers) or
/// `-S -p ''` (ask); anything else is left byte for byte.
pub open spec fn elevated_command(run: Seq<char>, how: Elevation) -> (Seq<char>, bool) {
    if has_prefix(run, "sudo "@) {
        let rest = run.skip(5);
        match how {
            Elevation::Plain => (run, false),
            Elevation::Sudoers => ("sudo -n "@ + rest, false),
            Elevation::Ask => ("sudo -S -p '' "@ + rest, true),
        }
    } else {
        (run, false)
    }
}

/// Rewrites `sudo …` for the way this connection raises privilege.
pub fn elevated(run: &str, how: Elevation) -> (e: Elevated)
    ensures
        (e.command@, e.needs_secret) == elevated_command(run@, how),
{
    let chars = chars_of(run);
    let sudo = ['s', 'u', 'd', 'o', ' '];
    proof {
        reveal_strlit("sudo ");
        assert(sudo@ =~= "sudo "@);
    }
    if !starts_with_chars(chars.as_slice(), &sudo) {
        return Elevated { command: owned(run), needs_secret: false };
    }
    let rest = chars_from(chars.as_slice(), 5);
    match how {
        Elevation::Plain => Elevated { command: owned(run), needs_secret: false },
        Elevation::Sudoers => {
            let mut command = owned("sudo -n ");
            push_chars(&mut command, rest.as_slice());
            Elevated { command, needs_secret: false }
        },
        Elevation::Ask => {
            let mut command = owned("sudo -S -p '' ");
            push_chars(&mut command, rest.as_slice());
            Elevated { command, needs_secret: true }
        },
    }
}

/// A command that does not start with `sudo ` comes back unchanged and never
/// asks for a secret, whichever way was chosen.
pub proof fn lemma_only_a_leading_sudo_is_touched(run: Seq<char>, how: Elevation)
    requires
        !has_prefix(run, "sudo "@),
    ensures
        elevated_command(run, how) == (run, false),
{
}

/// Only `ask` ever needs a secret, and the rewritten command always ends with
/// what the person wrote after `sudo `.
pub proof fn lemma_secret_only_for_ask(run: Seq<char>, how: Elevation)
    ensures
        elevated_command(run, how).1 ==> how == Elevation::Ask,
        has_prefix(run, "sudo "@) ==> {
            let c = elevated_command(run, how).0;
            c.len() >= run.len() - 5 && c.skip(c.len() - (run.len() - 5)) == run.skip(5)
        },
{
    if has_prefix(run, "sudo "@) {
        let rest = run.skip(5);
        let c = elevated_command(run, how).0;
        reveal_strlit("sudo ");
        reveal_strlit("sudo -n ");
        reveal_strlit("sudo -S -p '' ");
        match how {
            Elevation::Plain => {
                assert(run.len() >= 5);
                assert(run.skip(run.len() - (run.len() - 5)) == rest);
            },
            Elevation::Sudoers => {
                assert(c.skip(c.len() - rest.len()) =~= rest);
            },
            Elevation::Ask => {
                assert(c.skip(c.len() - rest.len()) =~= rest);
            },
        }
    }
}

} // verus!
