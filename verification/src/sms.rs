//! Messages that reach the notifier, and what is done about them.
use vstd::prelude::*;
use vstd::slice::slice_subrange;

use crate::code::{best_run, code_is_found, find_code, longest_code};
use crate::text::{
    blank, chars_of, copy_string, find_class, is_space, lemma_blank, lemma_next, lemma_next_is,
    next, push_text, string_of, trim, trimmed, Class,
};

verus! {

/// A message for the notifier.
pub enum SmsMessage {
    /// A bare code.
    Code(String),
    /// A short message as it was sent.
    Sms(String),
    /// Something to notify: `body` is shown, and copied where the notification is clicked.
    /// With `auto_paste` it is pasted into the focused window too, and `submit` says whether
    /// Enter is pressed after that.
    Notify { title: String, body: String, auto_paste: bool, submit: bool },
}

/// What a message holds.
#[verifier::ext_equal]
pub enum SmsView {
    Code(Seq<char>),
    Sms(Seq<char>),
    Notify { title: Seq<char>, body: Seq<char>, auto_paste: bool, submit: bool },
}

impl View for SmsMessage {
    type V = SmsView;

    open spec fn view(&self) -> SmsView {
        match self {
            SmsMessage::Code(s) => SmsView::Code(s@),
            SmsMessage::Sms(s) => SmsView::Sms(s@),
            SmsMessage::Notify { title, body, auto_paste, submit } => SmsView::Notify {
                title: title@,
                body: body@,
                auto_paste: *auto_paste,
                submit: *submit,
            },
        }
    }
}

/// What an optional message holds.
pub open spec fn opt_sms(m: Option<SmsMessage>) -> Option<SmsView> {
    match m {
        Some(m) => Some(m@),
        None => None,
    }
}

// ───────────────────────── codes in short messages ─────────────────────────

/// The first of the longest runs of four to eight digits.
pub fn extract_digits(s: &[char]) -> (r: Option<String>)
    ensures
        match r {
            Some(c) => longest_code(s@, 4, 8) == Some(c@),
            None => longest_code(s@, 4, 8) is None,
        },
{
    match find_code(s, 4, 8) {
        Some(c) => Some(string_of(c)),
        None => None,
    }
}

/// The company and the code of a short message: what stands in the first brackets `【` and
/// `】`, and the code behind them.
pub open spec fn company_and_code(raw: Seq<char>) -> Option<(Seq<char>, Seq<char>)> {
    let a = next(raw, Class::Is('【'), 0);
    let b = next(raw, Class::Is('】'), a + 1);
    if a < raw.len() && b < raw.len() {
        match longest_code(raw.subrange(b + 1, raw.len() as int), 4, 8) {
            Some(code) => Some((trimmed(raw.subrange(a + 1, b)), code)),
            None => None,
        }
    } else {
        None
    }
}

impl SmsMessage {
    /// The company and the code of a short message. `None` where it has no brackets, or no
    /// code behind them.
    pub fn extract_code(raw: &str) -> (r: Option<(String, String)>)
        ensures
            match r {
                Some((company, code)) => company_and_code(raw@) == Some((company@, code@)),
                None => company_and_code(raw@) is None,
            },
    {
        let s: Vec<char> = chars_of(raw);
        let s: &[char] = s.as_slice();
        let a: usize = find_class(s, Class::Is('【'), 0);
        if a >= s.len() {
            return None;
        }
        let b: usize = find_class(s, Class::Is('】'), a + 1);
        if b >= s.len() {
            return None;
        }
        match extract_digits(slice_subrange(s, b + 1, s.len())) {
            Some(code) => Some((string_of(trim(slice_subrange(s, a + 1, b))), code)),
            None => None,
        }
    }
}

// ───────────────────────── what is done ─────────────────────────

/// What is done about a message.
pub struct Reaction {
    /// The text to paste into the focused window, and whether Enter is pressed after that.
    pub paste: Option<(String, bool)>,
    /// The title and the body of the notification to show.
    pub show: Option<(String, String)>,
    /// What to write into the log, as a warning.
    pub warning: Option<String>,
}

/// What is done about a message.
#[verifier::ext_equal]
pub struct ReactionView {
    pub paste: Option<(Seq<char>, bool)>,
    pub show: Option<(Seq<char>, Seq<char>)>,
    pub warning: Option<Seq<char>>,
}

impl View for Reaction {
    type V = ReactionView;

    open spec fn view(&self) -> ReactionView {
        ReactionView {
            paste: match self.paste {
                Some((t, b)) => Some((t@, b)),
                None => None,
            },
            show: match self.show {
                Some((t, b)) => Some((t@, b@)),
                None => None,
            },
            warning: match self.warning {
                Some(w) => Some(w@),
                None => None,
            },
        }
    }
}

/// What is done about a message; `None` where there is nothing to do.
///
/// A bare code is pasted, submitted and shown. Of a short message the code is, under the name
/// of the company; one in which no code is found is only logged, and a blank one is not even
/// that. A notification is shown, and pasted where it asks for that.
pub open spec fn reaction_to(m: SmsView) -> Option<ReactionView> {
    match m {
        SmsView::Code(code) => Some(
            ReactionView {
                paste: Some((code, true)),
                show: Some(("收到验证码"@, code)),
                warning: None,
            },
        ),
        SmsView::Sms(raw) => if blank(raw) {
            None
        } else {
            match company_and_code(raw) {
                Some((company, code)) => Some(
                    ReactionView {
                        paste: Some((code, true)),
                        show: Some((company, "【"@ + company + "】: "@ + code)),
                        warning: None,
                    },
                ),
                None => Some(
                    ReactionView {
                        paste: None,
                        show: None,
                        warning: Some("Received via ?sms= (unrecognized format): "@ + raw),
                    },
                ),
            }
        },
        SmsView::Notify { title, body, auto_paste, submit } => Some(
            ReactionView {
                paste: if auto_paste {
                    Some((body, submit))
                } else {
                    None
                },
                show: Some((title, body)),
                warning: None,
            },
        ),
    }
}

/// What is done about a message; `None` where there is nothing to do.
pub fn react(m: SmsMessage) -> (r: Option<Reaction>)
    ensures
        match r {
            Some(x) => reaction_to(m@) == Some(x@),
            None => reaction_to(m@) is None,
        },
{
    match m {
        SmsMessage::Code(code) => {
            let paste: String = copy_string(code.as_str());
            Some(
                Reaction {
                    paste: Some((paste, true)),
                    show: Some((copy_string("收到验证码"), code)),
                    warning: None,
                },
            )
        },
        SmsMessage::Sms(raw) => {
            let chars: Vec<char> = chars_of(raw.as_str());
            proof {
                lemma_blank(raw@);
            }
            if trim(chars.as_slice()).len() == 0 {
                return None;
            }
            match SmsMessage::extract_code(raw.as_str()) {
                Some((company, code)) => {
                    let mut body: Vec<char> = chars_of("【");
                    push_text(&mut body, company.as_str());
                    push_text(&mut body, "】: ");
                    push_text(&mut body, code.as_str());
                    Some(
                        Reaction {
                            paste: Some((code, true)),
                            show: Some((company, string_of(body.as_slice()))),
                            warning: None,
                        },
                    )
                },
                None => {
                    let mut note: Vec<char> = chars_of(
                        "Received via ?sms= (unrecognized format): ",
                    );
                    push_text(&mut note, raw.as_str());
                    Some(
                        Reaction {
                            paste: None,
                            show: None,
                            warning: Some(string_of(note.as_slice())),
                        },
                    )
                },
            }
        },
        SmsMessage::Notify { title, body, auto_paste, submit } => {
            let paste: Option<(String, bool)> = if auto_paste {
                Some((copy_string(body.as_str()), submit))
            } else {
                None
            };
            Some(Reaction { paste, show: Some((title, body)), warning: None })
        },
    }
}

// ───────────────────────── laws ─────────────────────────

/// What is pasted and submitted for a short message is a code of four to eight digits, the one
/// that the notification shows.
pub proof fn sms_pastes_only_codes(raw: Seq<char>)
    ensures
        reaction_to(SmsView::Sms(raw)) matches Some(x) ==> {
            &&& x.paste is Some <==> x.show is Some
            &&& x.paste matches Some((code, submit)) ==> {
                &&& submit
                &&& 4 <= code.len() <= 8
                &&& forall|i: int|
                    0 <= i < code.len() ==> crate::text::is_digit(#[trigger] code[i])
                &&& company_and_code(raw) matches Some((company, c)) && c == code && x.show
                    == Some((company, "【"@ + company + "】: "@ + code))
            }
        },
{
    if let Some((company, code)) = company_and_code(raw) {
        let a = next(raw, Class::Is('【'), 0);
        lemma_next(raw, Class::Is('【'), 0);
        let b = next(raw, Class::Is('】'), a + 1);
        let s = raw.subrange(b + 1, raw.len() as int);
        crate::code::code_is_first_longest_run(s, 4, 8);
        let i = choose|i: int|
            #[trigger] crate::code::best_run(s, i, code.len() as int, 8) && code == s.subrange(
                i,
                i + code.len(),
            );
        assert forall|k: int| 0 <= k < code.len() implies crate::text::is_digit(
            #[trigger] code[k],
        ) by {
            assert(crate::text::is_digit(s[i + k]));
        }
    }
}

/// A short message is taken apart at the first bracket `【` and the first `】` behind it: the
/// company is what stands between them, and the code is looked for in all that follows, however
/// long that is.
pub proof fn the_code_behind_the_brackets_counts(
    before: Seq<char>,
    company: Seq<char>,
    rest: Seq<char>,
)
    requires
        !before.contains('【'),
        !company.contains('】'),
    ensures
        company_and_code(before + seq!['【'] + company + seq!['】'] + rest) == (match longest_code(
            rest,
            4,
            8,
        ) {
            Some(code) => Some((trimmed(company), code)),
            None => None,
        }),
{
    let raw = before + seq!['【'] + company + seq!['】'] + rest;
    let a = before.len() as int;
    let b = a + 1 + company.len();
    assert forall|i: int| 0 <= i < a implies !Class::Is('【').admits(#[trigger] raw[i]) by {
        assert(raw[i] == before[i]);
        assert(before.contains(before[i]));
    }
    assert(raw[a] == '【');
    lemma_next_is(raw, Class::Is('【'), 0, a);
    assert forall|i: int| a + 1 <= i < b implies !Class::Is('】').admits(#[trigger] raw[i]) by {
        assert(raw[i] == company[i - a - 1]);
        assert(company.contains(company[i - a - 1]));
    }
    assert(raw[b] == '】');
    lemma_next_is(raw, Class::Is('】'), a + 1, b);
    assert(raw.subrange(a + 1, b) =~= company);
    assert(raw.subrange(b + 1, raw.len() as int) =~= rest);
}

/// A short message without both brackets, in their order, holds no code.
pub proof fn there_is_no_code_without_brackets(before: Seq<char>, rest: Seq<char>)
    requires
        !before.contains('【'),
        !rest.contains('】'),
    ensures
        company_and_code(before) is None,
        company_and_code(before + seq!['【'] + rest) is None,
{
    assert forall|i: int| 0 <= i < before.len() implies !Class::Is('【').admits(
        #[trigger] before[i],
    ) by {
        assert(before.contains(before[i]));
    }
    lemma_next_is(before, Class::Is('【'), 0, before.len() as int);
    let raw = before + seq!['【'] + rest;
    let a = before.len() as int;
    assert forall|i: int| 0 <= i < a implies !Class::Is('【').admits(#[trigger] raw[i]) by {
        assert(raw[i] == before[i]);
    }
    assert(raw[a] == '【');
    lemma_next_is(raw, Class::Is('【'), 0, a);
    assert forall|i: int| a + 1 <= i < raw.len() implies !Class::Is('】').admits(
        #[trigger] raw[i],
    ) by {
        assert(raw[i] == rest[i - a - 1]);
        assert(rest.contains(rest[i - a - 1]));
    }
    lemma_next_is(raw, Class::Is('】'), a + 1, raw.len() as int);
}

/// The code of a short message is shown under the name of the company, and is pasted and
/// submitted. It is a run of four to eight digits behind the brackets: of the longest ones the
/// first.
pub proof fn the_code_of_a_message_is_used(
    before: Seq<char>,
    company: Seq<char>,
    rest: Seq<char>,
    i: int,
    n: int,
)
    requires
        !before.contains('【'),
        !company.contains('】'),
        4 <= n <= 8,
        best_run(rest, i, n, 8),
    ensures
        ({
            let raw = before + seq!['【'] + company + seq!['】'] + rest;
            let code = rest.subrange(i, i + n);
            reaction_to(SmsView::Sms(raw)) == Some(
                ReactionView {
                    paste: Some((code, true)),
                    show: Some(
                        (
                            trimmed(company),
                            seq!['【'] + trimmed(company) + seq!['】', ':', ' '] + code,
                        ),
                    ),
                    warning: None,
                },
            )
        }),
{
    let raw = before + seq!['【'] + company + seq!['】'] + rest;
    the_code_behind_the_brackets_counts(before, company, rest);
    code_is_found(rest, i, n, 4, 8);
    assert(raw[before.len() as int] == '【');
    assert(!is_space(raw[before.len() as int]));
    reveal_strlit("【");
    reveal_strlit("】: ");
    assert("【"@ =~= seq!['【']);
    assert("】: "@ =~= seq!['】', ':', ' ']);
}

/// A message that is no short message is used as it asks: a bare code is shown, pasted and
/// submitted, and a notification is shown, and pasted where it says so.
pub proof fn messages_are_used_as_they_ask(
    code: Seq<char>,
    title: Seq<char>,
    body: Seq<char>,
    auto_paste: bool,
    submit: bool,
)
    ensures
        reaction_to(SmsView::Code(code)) matches Some(r) && r.paste == Some((code, true))
            && r.warning is None && (r.show matches Some((t, b)) && b == code),
        reaction_to(SmsView::Notify { title, body, auto_paste, submit }) == Some(
            ReactionView {
                paste: if auto_paste {
                    Some((body, submit))
                } else {
                    None
                },
                show: Some((title, body)),
                warning: None,
            },
        ),
{
}

/// A short message without a code is logged as it came, and neither shown nor pasted; a blank one is
/// passed over.
pub proof fn unreadable_messages_are_only_logged(raw: Seq<char>)
    requires
        company_and_code(raw) is None,
    ensures
        blank(raw) ==> reaction_to(SmsView::Sms(raw)) is None,
        !blank(raw) ==> {
            &&& reaction_to(SmsView::Sms(raw)) matches Some(r)
            &&& r.paste is None
            &&& r.show is None
            &&& r.warning matches Some(w)
            &&& w.len() >= raw.len()
            &&& w.subrange(w.len() - raw.len(), w.len() as int) == raw
        },
{
    let w = "Received via ?sms= (unrecognized format): "@ + raw;
    assert(w.subrange(w.len() - raw.len(), w.len() as int) =~= raw);
}

} // verus!
