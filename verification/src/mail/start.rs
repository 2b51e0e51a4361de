//! Whether mail is listened to at all, and by whom.
use vstd::prelude::*;

use crate::mail::config::{AccountView, MailConfig};
use crate::mail::listener::shown_label;
use crate::number::{decimal, push_decimal};
use crate::text::{chars_of, push_text, string_of};

verus! {

/// What is done with a configuration.
pub enum StartPlan {
    /// Nothing: nobody has asked for mail.
    Silent,
    /// Nothing, but this is logged.
    Skip(String),
    /// This is logged, and one listener is started for each account, in a thread of that name.
    Listen { note: String, threads: Vec<String> },
}

/// The name of the thread that listens to an account.
pub open spec fn thread_name(a: AccountView) -> Seq<char> {
    "mail-"@ + shown_label(a)
}

/// What is logged where listeners are started.
pub open spec fn start_note(accounts: nat, keywords: nat) -> Seq<char> {
    "Loaded "@ + decimal(accounts) + " mail account(s) with "@ + decimal(keywords)
        + " keyword(s); starting listeners…"@
}

/// What is done with a configuration. Without accounts nothing is; that is not even logged
/// where no path was given (`explicit`) and no file stands at the default one.
pub fn start(cfg: &MailConfig, explicit: bool, default_exists: bool) -> (r: StartPlan)
    ensures
        match r {
            StartPlan::Silent => cfg.accounts@.len() == 0 && !explicit && !default_exists,
            StartPlan::Skip(note) => {
                &&& cfg.accounts@.len() == 0
                &&& explicit || default_exists
                &&& note@ == "No valid mail accounts configured; skipping mail listener."@
            },
            StartPlan::Listen { note, threads } => {
                &&& cfg.accounts@.len() > 0
                &&& note@ == start_note(cfg.accounts@.len(), cfg.match_keywords@.len())
                &&& threads@.len() == cfg.accounts@.len()
                &&& forall|i: int|
                    0 <= i < threads@.len() ==> (#[trigger] threads@[i])@ == thread_name(
                        cfg.accounts@[i]@,
                    )
            },
        },
{
    if cfg.accounts.len() == 0 {
        if !explicit && !default_exists {
            return StartPlan::Silent;
        }
        return StartPlan::Skip(
            string_of(
                chars_of("No valid mail accounts configured; skipping mail listener.").as_slice(),
            ),
        );
    }
    let mut note: Vec<char> = chars_of("Loaded ");
    push_decimal(&mut note, cfg.accounts.len() as u64);
    push_text(&mut note, " mail account(s) with ");
    push_decimal(&mut note, cfg.match_keywords.len() as u64);
    push_text(&mut note, " keyword(s); starting listeners…");
    let mut threads: Vec<String> = Vec::new();
    let mut i: usize = 0;
    while i < cfg.accounts.len()
        invariant
            i <= cfg.accounts@.len(),
            threads@.len() == i,
            forall|j: int|
                0 <= j < i ==> (#[trigger] threads@[j])@ == thread_name(cfg.accounts@[j]@),
        decreases cfg.accounts.len() - i,
    {
        let mut name: Vec<char> = chars_of("mail-");
        push_text(&mut name, cfg.accounts[i].label_or_email());
        threads.push(string_of(name.as_slice()));
        i += 1;
    }
    StartPlan::Listen { note: string_of(note.as_slice()), threads }
}

// ───────────────────────── laws ─────────────────────────

/// A thread is named after the label of its account, or after its address where it has none.
pub proof fn threads_are_named_after_their_accounts(a: AccountView)
    ensures
        a.label matches Some(l) ==> thread_name(a) == "mail-"@ + l,
        a.label is None ==> thread_name(a) == "mail-"@ + a.email,
{
}

} // verus!
