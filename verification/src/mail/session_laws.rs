//! How a session goes, from the greeting to the messages.
use vstd::prelude::*;

use crate::mail::dialogue_laws::{
    ascii_word, listed_capabilities_are_noted, listed_messages_are_found_anywhere, other_line,
    spaced,
};
use crate::mail::imap_client::{in_order, no_later, ErrorView};
use crate::mail::imap_laws::listed;
use crate::mail::imap_lines::line_text;
use crate::mail::listener::{code_in, Watch};
use crate::mail::message::mail_of;
use crate::mail::session::{after_event, EventView, PhaseView, SessionView, SetupView, Task};
use crate::sms::SmsView;
use crate::text::{ascii_lower, ascii_upper, prefixed};

verus! {

/// A reply of the server.
pub open spec fn replied(ok: bool, data: Seq<Seq<char>>) -> EventView {
    EventView::Reply { ok, data }
}

/// A session that is greeted logs in, asks what the server can do, says who it is, opens the
/// mailbox and lists it, in that order. What the server makes of the second and the third does not
/// matter.
pub proof fn a_session_opens_the_mailbox(
    s: SessionView,
    setup: SetupView,
    greeting: Seq<u8>,
    data: Seq<Seq<char>>,
    asked: bool,
    named: EventView,
    now: int,
)
    requires
        s.phase is Greeting,
        prefixed(line_text(greeting), "* OK"@),
    ensures
        ({
            let a = after_event(s, setup, EventView::Greeting(greeting), now);
            let b = after_event(a.0, setup, replied(true, data), now);
            let c = after_event(b.0, setup, replied(asked, data), now);
            let d = after_event(c.0, setup, named, now);
            let e = after_event(d.0, setup, replied(true, data), now);
            &&& a.1.next == Ok::<Task, ErrorView>(Task::Login)
            &&& b.1.next == Ok::<Task, ErrorView>(Task::Capability)
            &&& c.1.next == Ok::<Task, ErrorView>(Task::SendId)
            &&& d.1.next == Ok::<Task, ErrorView>(Task::Select)
            &&& e.1.next == Ok::<Task, ErrorView>(Task::Search)
            &&& e.0.phase is Listing
            &&& !asked ==> e.0.capabilities == s.capabilities
        }),
{
}

/// A session ends where the server refuses the login, the mailbox or the list, and only the first of
/// these is an error of the login.
pub proof fn a_refusal_ends_the_session(
    s: SessionView,
    setup: SetupView,
    data: Seq<Seq<char>>,
    now: int,
)
    requires
        s.phase is LoggingIn || s.phase is Opening || s.phase is Listing || s.phase is ListingAgain,
    ensures
        ({
            let (t, step) = after_event(s, setup, replied(false, data), now);
            &&& step.next matches Err(e)
            &&& e is Auth <==> s.phase is LoggingIn
            &&& t == s
            &&& step.save is None && step.notice is None
        }),
{
}

/// The last of numbers in order is the greatest of them, and one of them.
pub proof fn the_last_is_the_greatest(s: Seq<u32>)
    requires
        s.len() > 0,
    ensures
        in_order(s).len() == s.len(),
        s.contains(in_order(s).last()),
        forall|i: int| 0 <= i < s.len() ==> #[trigger] s[i] <= in_order(s).last(),
{
    let leq = no_later();
    assert(vstd::relations::total_ordering(leq));
    s.lemma_sort_by_ensures(leq);
    let r = in_order(s);
    broadcast use vstd::seq_lib::group_to_multiset_ensures;

    s.to_multiset_ensures();
    r.to_multiset_ensures();
    assert(r.len() == s.len());
    assert(r.to_multiset().count(r.last()) > 0) by {
        assert(r.contains(r.last()));
    }
    assert(s.contains(r.last()));
    assert forall|i: int| 0 <= i < s.len() implies #[trigger] s[i] <= r.last() by {
        assert(s.contains(s[i]));
        assert(s.to_multiset().count(s[i]) > 0);
        assert(r.contains(s[i]));
        let k = choose|k: int| 0 <= k < r.len() && r[k] == s[i];
        if k < r.len() - 1 {
            assert(leq(r[k], r[r.len() - 1]));
        }
    }
}

/// Of the messages that are listed first, the one with the greatest number is asked for its date.
/// All of them count as seen. Where there are none, the session waits.
pub proof fn the_last_message_is_asked_for_its_date(
    s: SessionView,
    setup: SetupView,
    before: Seq<Seq<char>>,
    key: Seq<char>,
    uids: Seq<u32>,
    after: Seq<Seq<char>>,
    now: int,
)
    requires
        s.phase is Listing,
        ascii_upper(key) == "* SEARCH"@,
        forall|j: int| 0 <= j < before.len() ==> other_line(#[trigger] before[j], "* SEARCH"@),
    ensures
        ({
            let data = before.push(key + listed(uids)) + after;
            let (t, step) = after_event(s, setup, replied(true, data), now);
            &&& uids.len() == 0 ==> (step.next matches Ok(Task::Wait(_)))
            &&& uids.len() > 0 ==> {
                &&& step.next matches Ok(Task::FetchDate(u))
                &&& uids.contains(u)
                &&& forall|i: int| 0 <= i < uids.len() ==> #[trigger] uids[i] <= u
                &&& t.phase == PhaseView::Dating(u)
            }
            &&& forall|u: u32| t.seen.contains(u) <==> #[trigger] uids.contains(u)
            &&& step.notice is None
        }),
{
    listed_messages_are_found_anywhere(before, key, uids, after);
    lemma_same_members(uids);
    if uids.len() > 0 {
        the_last_is_the_greatest(uids);
    }
}

/// Numbers in order are the same numbers.
pub proof fn lemma_same_members(s: Seq<u32>)
    ensures
        in_order(s).len() == s.len(),
        forall|u: u32| in_order(s).to_set().contains(u) <==> #[trigger] s.contains(u),
{
    let leq = no_later();
    assert(vstd::relations::total_ordering(leq));
    s.lemma_sort_by_ensures(leq);
    let r = in_order(s);
    broadcast use vstd::seq_lib::group_to_multiset_ensures;

    s.to_multiset_ensures();
    r.to_multiset_ensures();
    assert(r.len() == s.len());
    assert forall|u: u32| r.to_set().contains(u) <==> #[trigger] s.contains(u) by {
        assert(r.contains(u) <==> r.to_multiset().count(u) > 0);
        assert(s.contains(u) <==> s.to_multiset().count(u) > 0);
    }
}

/// Whether the server pushes is known once the messages are listed, from what it said that it can
/// do; from then on the session waits for a push, or sleeps, for its interval.
pub proof fn a_session_waits_as_the_server_can(
    s: SessionView,
    setup: SetupView,
    caps: Seq<Seq<char>>,
    words: Seq<Seq<char>>,
    data: Seq<Seq<char>>,
    named: EventView,
    now: int,
)
    requires
        s.phase is Asking,
        forall|i: int| 0 <= i < words.len() ==> ascii_word(#[trigger] words[i]),
    ensures
        ({
            let a = after_event(
                s,
                setup,
                replied(true, caps.push("* CAPABILITY"@ + spaced(words))),
                now,
            );
            let b = after_event(a.0, setup, named, now);
            let c = after_event(b.0, setup, replied(true, data), now);
            let (t, step) = after_event(
                c.0,
                setup,
                replied(true, seq!["* SEARCH"@ + listed(seq![])]),
                now,
            );
            step.next == Ok::<Task, ErrorView>(
                Task::Wait(
                    if exists|i: int|
                        0 <= i < words.len() && ascii_lower(#[trigger] words[i]) == "idle"@ {
                        Watch::Push(s.reconnect.base)
                    } else {
                        Watch::Poll(s.reconnect.base)
                    },
                ),
            )
        }),
{
    listed_capabilities_are_noted(caps, words, seq![], s.capabilities);
    let line = "* CAPABILITY"@ + spaced(words);
    assert(caps.push(line) + Seq::<Seq<char>>::empty() =~= caps.push(line));
    reveal_strlit("* SEARCH");
    assert(ascii_upper("* SEARCH"@) =~= "* SEARCH"@);
    let hits = seq!["* SEARCH"@ + listed(seq![])];
    listed_messages_are_found_anywhere(seq![], "* SEARCH"@, seq![], seq![]);
    assert(Seq::<Seq<char>>::empty().push("* SEARCH"@ + listed(seq![])) + Seq::<Seq<char>>::empty()
        =~= hits);
    lemma_same_members(seq![]);
}

/// The last message is fetched, where its date could not be had or is recent, and passed over where
/// it is known to be old.
pub proof fn an_old_message_is_passed_over(
    s: SessionView,
    setup: SetupView,
    u: u32,
    line: Seq<char>,
    date: Seq<char>,
    t: int,
    e: ErrorView,
    now: int,
)
    requires
        s.phase == PhaseView::Dating(u),
        crate::mail::imap_lines::date_in(line) == Some(date),
        crate::mail::dates::received_at(date) == Some(t),
    ensures
        ({
            let (a, step) = after_event(s, setup, replied(true, seq![line]), now);
            &&& now - t > 300 ==> a.phase is Watching && step.next == Ok::<Task, ErrorView>(
                Task::Wait(s.reconnect.watching()),
            )
            &&& now - t <= 300 ==> a.phase is FetchingLatest && step.next == Ok::<Task, ErrorView>(
                Task::Fetch(u),
            )
        }),
        after_event(s, setup, replied(true, seq![]), now).1.next == Ok::<Task, ErrorView>(
            Task::Fetch(u),
        ),
        after_event(s, setup, replied(false, seq![line]), now).1.next == Ok::<Task, ErrorView>(
            Task::Fetch(u),
        ),
        after_event(s, setup, EventView::Failed(e), now).1.next == Ok::<Task, ErrorView>(
            Task::Fetch(u),
        ),
{
    assert(seq![line][0] == line);
    assert(crate::mail::imap_client::date_from(seq![line], 0) == Some(date));
    assert(crate::mail::imap_client::date_from(Seq::<Seq<char>>::empty(), 0) is None);
}

/// What is notified of a message that was fetched: its code, where it has one. Of a new message
/// without a code its sender, where the configuration wants that; of the message that was there
/// before the session, nothing.
pub proof fn messages_are_notified_as_wanted(
    s: SessionView,
    setup: SetupView,
    raw: Seq<u8>,
    now: int,
)
    requires
        s.phase is FetchingLatest || s.phase is FetchingNew,
    ensures
        ({
            let step = after_event(s, setup, EventView::Message(Some(raw)), now).1;
            let m = mail_of(raw);
            let code = code_in(m, setup.keywords);
            &&& step.notice matches Some((log, said))
            &&& code matches Some(c) ==> (said matches Some(
                SmsView::Notify { title, body, auto_paste, submit },
            ) && body == c && auto_paste && !submit)
            &&& code is None && s.phase is FetchingLatest ==> said is None
            &&& code is None && s.phase is FetchingNew ==> if setup.notify_unmatched {
                said matches Some(SmsView::Notify { title, body, auto_paste, submit }) && body
                    == m.from && !auto_paste && !submit
            } else {
                said is None
            }
        }),
        after_event(s, setup, EventView::Message(None), now).1.notice is None,
{
}

/// A session that has waited lists the mailbox again, keeping what it has seen.
pub proof fn a_wait_is_followed_by_a_look(s: SessionView, setup: SetupView, now: int)
    requires
        s.phase is Watching,
    ensures
        ({
            let (t, step) = after_event(s, setup, EventView::Waited, now);
            &&& step.next == Ok::<Task, ErrorView>(Task::Search)
            &&& t.phase is ListingAgain
            &&& t.seen == s.seen
            &&& t.reconnect == s.reconnect
        }),
{
}

/// Exactly the messages that have not been seen are fetched: the one with the smallest number
/// first, and none where all have been seen.
pub proof fn new_messages_are_fetched(
    s: SessionView,
    setup: SetupView,
    before: Seq<Seq<char>>,
    key: Seq<char>,
    uids: Seq<u32>,
    after: Seq<Seq<char>>,
    now: int,
)
    requires
        s.phase is ListingAgain,
        ascii_upper(key) == "* SEARCH"@,
        forall|j: int| 0 <= j < before.len() ==> other_line(#[trigger] before[j], "* SEARCH"@),
    ensures
        ({
            let data = before.push(key + listed(uids)) + after;
            let (t, step) = after_event(s, setup, replied(true, data), now);
            match step.next {
                Ok(Task::Fetch(u)) => {
                    &&& uids.contains(u)
                    &&& !s.seen.contains(u)
                    &&& forall|v: u32| #[trigger]
                        uids.contains(v) && !s.seen.contains(v) ==> u <= v
                    &&& t.phase matches PhaseView::FetchingNew { current, new, next }
                    &&& forall|v: u32| #[trigger]
                        new.contains(v) <==> uids.contains(v) && !s.seen.contains(v)
                },
                Ok(Task::Wait(_)) => {
                    &&& forall|v: u32| #[trigger] uids.contains(v) ==> s.seen.contains(v)
                    &&& forall|v: u32| t.seen.contains(v) <==> #[trigger] uids.contains(v)
                },
                _ => false,
            }
        }),
{
    listed_messages_are_found_anywhere(before, key, uids, after);
    lemma_same_members(uids);
    let current = in_order(uids);
    let fresh = crate::mail::listener::unseen(current, s.seen);
    crate::mail::listener::lemma_unseen(current, s.seen);
    lemma_same_members(fresh);
    let new = in_order(fresh);
    assert forall|v: u32| #[trigger] uids.contains(v) implies current.contains(v) by {
        assert(current.to_set().contains(v));
    }
    assert forall|v: u32| #[trigger] current.contains(v) implies uids.contains(v) by {
        assert(current.to_set().contains(v));
    }
    assert forall|v: u32| #[trigger] new.contains(v) <==> uids.contains(v) && !s.seen.contains(
        v,
    ) by {
        assert(new.to_set().contains(v) <==> fresh.contains(v));
        assert(current.contains(v) <==> uids.contains(v));
    }
    if new.len() > 0 {
        let u = new[0];
        assert(new.contains(u));
        let leq = no_later();
        assert(vstd::relations::total_ordering(leq));
        fresh.lemma_sort_by_ensures(leq);
        assert forall|v: u32| #[trigger] uids.contains(v) && !s.seen.contains(v) implies u
            <= v by {
            assert(new.contains(v));
            let k = choose|k: int| 0 <= k < new.len() && new[k] == v;
            if k > 0 {
                assert(leq(new[0], new[k]));
            }
        }
    } else {
        assert forall|v: u32| #[trigger] uids.contains(v) implies s.seen.contains(v) by {
            if !s.seen.contains(v) {
                assert(new.contains(v));
            }
        }
    }
}

} // verus!
