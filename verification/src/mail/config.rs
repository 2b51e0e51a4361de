//! The configuration file: keywords, accounts, and what is notified.
//!
//! The file is read line by line, as a small part of YAML: top-level keys, lists of `- ` items
//! under them, and `key: value` fields. Comments and blank lines may stand anywhere.
use vstd::prelude::*;
use vstd::slice::slice_subrange;

use crate::lines::{
    countable, cut, indent, indentation, lemma_lines_countable, lines_of, split_lines, split_once,
};
use crate::number::{read_unsigned, unsigned};
use crate::text::{
    ascii_whitespace, blank, chars_of, find_class, is_ascii_space, is_text,
    lemma_blank, next, prefixed, starts_with, string_of, texts, trim, trim_start, trimmed,
    trimmed_start, views, Class,
};
use crate::unicode::{lower_case, to_lowercase};

verus! {

/// The polling interval, in seconds, where the server does not push and nothing else is set.
pub const FALLBACK: u64 = 30;

/// The longest interval, in seconds, between two attempts.
pub const MAX_POLL_INTERVAL: u64 = 300;

/// A mail found at startup is new where it is no older than this, in seconds.
pub const STARTUP_RECENT_SECONDS: i64 = 300;

/// The file that is written where a path was given and nothing stands there.
pub const SAMPLE_YAML: &'static str = "\
# ============================================================
# 邮件监听配置  (config.yaml)
#
# match_keywords: 邮件(标题+发件人+正文)命中任意关键词(忽略大小写)
#                 就会触发验证码自动提取.直接在这里增删即可, 不用改源码
#                 再重新编译.用 `match_keywords: []` 可显式关闭关键词触发.
#
# notify_unmatched: true/false, 未命中关键词的新邮件是否也弹通知.
#                  设为 false 则只有命中关键词(含验证码提取)的邮件才提醒,
#                  可避免 GitHub 这类通知邮件刷屏.默认 true.
#

# accounts: 下每个账号的字段说明
#   password     : 邮箱的 IMAP 授权码, 不是网页登录密码
#   port         : IMAP over SSL 端口, 一般为 993
#   poll_interval: 基础轮询间隔(秒);服务器不支持 IDLE 时使用
#   last_ok_interval: 程序自动维护的上次成功间隔, 重启后保留
# ============================================================

match_keywords:
  - \"验证码\"
  - \"校验码\"
  - \"动态码\"
  - \"一次性代码\"
  - \"verification code\"
  - \"verify code\"
  - \"login code\"
#  - \"OTP\"
#  - \"security code\"

notify_unmatched: true

accounts:
  # ---- QQ 示例(支持 IMAP IDLE, 实时推送)----
  - email: \"your_qq@qq.com\"
    label: \"QQ\"
    server: imap.qq.com
    port: 993
    password: \"YOUR_QQ_IMAP_AUTH_CODE\"

  # ---- 126 示例(无 IDLE, 使用 poll_interval 轮询)----
  - email: \"your_126@126.com\"
    label: \"126\"
    server: imap.126.com
    password: \"YOUR_126_IMAP_AUTH_CODE\"
    poll_interval: 30

  # ---- sina 示例 ----
  - email: \"your_sina@sina.com\"
    label: \"sina\"
    server: imap.sina.com
    password: \"YOUR_SINA_IMAP_AUTH_CODE\"
    poll_interval: 30

  # ---- Gmail 示例(支持 IDLE;需用 16 位应用专用密码)----
  - email: \"your@gmail.com\"
    label: \"Gmail\"
    server: imap.gmail.com
    port: 993
    password: \"YOUR_16CHAR_GOOGLE_APP_PASSWORD\"
";

// ───────────────────────── accounts and configuration ─────────────────────────

/// One mail account.
pub struct Account {
    pub email: String,
    pub label: Option<String>,
    pub server: String,
    pub port: u16,
    pub password: String,
    pub poll_interval: u64,
    pub last_ok_interval: Option<u64>,
}

/// What an account holds.
#[verifier::ext_equal]
pub struct AccountView {
    pub email: Seq<char>,
    pub label: Option<Seq<char>>,
    pub server: Seq<char>,
    pub port: u16,
    pub password: Seq<char>,
    pub poll_interval: u64,
    pub last_ok_interval: Option<u64>,
}

impl View for Account {
    type V = AccountView;

    open spec fn view(&self) -> AccountView {
        AccountView {
            email: self.email@,
            label: match self.label {
                Some(l) => Some(l@),
                None => None,
            },
            server: self.server@,
            port: self.port,
            password: self.password@,
            poll_interval: self.poll_interval,
            last_ok_interval: self.last_ok_interval,
        }
    }
}

impl Account {
    /// The name to show: the label where there is one, or else the address.
    pub fn label_or_email(&self) -> (r: &str)
        ensures
            r@ == (match self@.label {
                Some(l) => l,
                None => self@.email,
            }),
    {
        match &self.label {
            Some(l) => l.as_str(),
            None => self.email.as_str(),
        }
    }
}

/// The whole configuration.
pub struct MailConfig {
    /// A mail that holds one of these, in any case, is searched for a code.
    pub match_keywords: Vec<String>,
    pub accounts: Vec<Account>,
    /// Whether a mail that holds no keyword is notified too.
    pub notify_unmatched: bool,
}

/// What the accounts hold.
pub open spec fn account_views(v: Seq<Account>) -> Seq<AccountView> {
    Seq::new(v.len(), |i: int| v[i]@)
}

/// An account as it is before its first field.
pub open spec fn fresh_account() -> AccountView {
    AccountView {
        email: seq![],
        label: None,
        server: seq![],
        port: 993,
        password: seq![],
        poll_interval: FALLBACK,
        last_ok_interval: None,
    }
}

/// An account as it is before its first field.
pub fn new_account() -> (r: Account)
    ensures
        r@ == fresh_account(),
{
    let r: Account = Account {
        email: String::new(),
        label: None,
        server: String::new(),
        port: 993,
        password: String::new(),
        poll_interval: FALLBACK,
        last_ok_interval: None,
    };
    assert(r@ =~= fresh_account());
    r
}

// ───────────────────────── values ─────────────────────────

/// Where the comment starts in what stands in `s` from `i` on: at a `#` outside quotes, at
/// the start of `s` or after white space. `quote` is the quotation mark that is open.
pub open spec fn comment_from(s: Seq<char>, i: int, quote: Option<char>) -> Option<int>
    decreases s.len() - i,
{
    if i < 0 || i >= s.len() {
        None
    } else {
        match quote {
            Some(q) => comment_from(
                s,
                i + 1,
                if s[i] == q {
                    None
                } else {
                    quote
                },
            ),
            None => if s[i] == '"' || s[i] == '\'' {
                comment_from(s, i + 1, Some(s[i]))
            } else if s[i] == '#' && (i == 0 || is_ascii_space(s[i - 1])) {
                Some(i)
            } else {
                comment_from(s, i + 1, None)
            },
        }
    }
}

/// Where the comment starts in `s`.
pub fn find_inline_comment(s: &[char]) -> (r: Option<usize>)
    ensures
        match r {
            Some(i) => comment_from(s@, 0, None) == Some(i as int) && i < s@.len(),
            None => comment_from(s@, 0, None) is None,
        },
{
    let mut quote: Option<char> = None;
    let mut i: usize = 0;
    while i < s.len()
        invariant
            i <= s@.len(),
            comment_from(s@, 0, None) == comment_from(s@, i as int, quote),
        decreases s.len() - i,
    {
        let c: char = s[i];
        match quote {
            Some(q) => {
                if c == q {
                    quote = None;
                }
            },
            None => {
                if c == '"' || c == '\'' {
                    quote = Some(c);
                } else if c == '#' && (i == 0 || ascii_whitespace(s[i - 1])) {
                    return Some(i);
                }
            },
        }
        i += 1;
    }
    None
}

/// `v` starts with the quotation mark `q`, and there is a second one.
pub open spec fn quoted(v: Seq<char>, q: char) -> bool {
    v.len() > 0 && v[0] == q && next(v, Class::Is(q), 1) < v.len()
}

/// What stands between the first two quotation marks.
pub open spec fn unquoted(v: Seq<char>, q: char) -> Seq<char> {
    v.subrange(1, next(v, Class::Is(q), 1))
}

/// `v` without its comment.
pub open spec fn uncommented(v: Seq<char>) -> Seq<char> {
    match comment_from(v, 0, None) {
        Some(k) => trimmed(v.subrange(0, k)),
        None => trimmed(v),
    }
}

/// The value that is written as `raw`: what stands in quotes, or else what comes before the
/// comment, without the white space around it.
pub open spec fn value_of(raw: Seq<char>) -> Seq<char> {
    let v = trimmed(raw);
    if quoted(v, '"') {
        unquoted(v, '"')
    } else if quoted(v, '\'') {
        unquoted(v, '\'')
    } else {
        uncommented(v)
    }
}

/// The value that is written as `raw`.
pub fn clean_value(raw: &[char]) -> (r: &[char])
    ensures
        r@ == value_of(raw@),
{
    let v: &[char] = trim(raw);
    if v.len() > 0 && v[0] == '"' {
        let k: usize = find_class(v, Class::Is('"'), 1);
        if k < v.len() {
            return slice_subrange(v, 1, k);
        }
    }
    if v.len() > 0 && v[0] == '\'' {
        let k: usize = find_class(v, Class::Is('\''), 1);
        if k < v.len() {
            return slice_subrange(v, 1, k);
        }
    }
    match find_inline_comment(v) {
        Some(k) => trim(slice_subrange(v, 0, k)),
        None => trim(v),
    }
}

/// The words for yes, in small letters.
pub open spec fn true_word(s: Seq<char>) -> bool {
    s == "true"@ || s == "yes"@ || s == "on"@ || s == "1"@
}

/// Whether `s` is one of the words for yes, in small letters.
pub fn is_true_word(s: &[char]) -> (r: bool)
    ensures
        r == true_word(s@),
{
    is_text(s, "true") || is_text(s, "yes") || is_text(s, "on") || is_text(s, "1")
}

/// Reads a switch: yes in any case and with any white space around it, or else no.
pub fn parse_bool(s: &[char]) -> (r: bool)
    ensures
        r == true_word(lower_case(trimmed(s@))),
{
    let low: Vec<char> = chars_of(to_lowercase(string_of(trim(s)).as_str()).as_str());
    is_true_word(low.as_slice())
}

/// The two sides of the first colon, the key without the white space around it.
pub open spec fn key_value(s: Seq<char>) -> Option<(Seq<char>, Seq<char>)> {
    match split_once(s, ':') {
        Some((k, v)) => Some((trimmed(k), v)),
        None => None,
    }
}

/// Splits a field into its key and what is written as its value.
pub fn split_kv<'a>(s: &'a [char]) -> (r: Option<(&'a [char], &'a [char])>)
    ensures
        match r {
            Some((k, v)) => key_value(s@) == Some((k@, v@)),
            None => key_value(s@) is None,
        },
{
    match cut(s, ':') {
        Some((k, v)) => Some((trim(k), v)),
        None => None,
    }
}

/// The number that is written as `s`, or `default` where none is.
pub open spec fn number_or(s: Seq<char>, max: int, default: int) -> int {
    match unsigned(s, 10, max) {
        Some(n) => n,
        None => default,
    }
}

/// The account with the field `key` set to what is written as `raw`. Unknown keys, and
/// numbers that cannot be read, change nothing.
pub open spec fn with_field(acc: AccountView, key: Seq<char>, raw: Seq<char>) -> AccountView {
    let v = value_of(raw);
    if key == "email"@ {
        AccountView { email: v, ..acc }
    } else if key == "label"@ {
        AccountView {
            label: if v.len() == 0 {
                None
            } else {
                Some(v)
            },
            ..acc
        }
    } else if key == "server"@ {
        AccountView { server: v, ..acc }
    } else if key == "port"@ {
        AccountView { port: number_or(v, u16::MAX as int, acc.port as int) as u16, ..acc }
    } else if key == "password"@ {
        AccountView { password: v, ..acc }
    } else if key == "poll_interval"@ {
        match unsigned(v, 10, u64::MAX as int) {
            Some(n) => AccountView {
                poll_interval: if n < 1 {
                    1
                } else {
                    n as u64
                },
                ..acc
            },
            None => acc,
        }
    } else if key == "last_ok_interval"@ {
        match unsigned(v, 10, u64::MAX as int) {
            Some(n) => AccountView { last_ok_interval: Some(n as u64), ..acc },
            None => acc,
        }
    } else {
        acc
    }
}

/// Sets the field `key` to what is written as `raw`.
pub fn apply_field(acc: &mut Account, key: &[char], raw: &[char])
    ensures
        final(acc)@ == with_field(old(acc)@, key@, raw@),
{
    let v: &[char] = clean_value(raw);
    if is_text(key, "email") {
        acc.email = string_of(v);
    } else if is_text(key, "label") {
        acc.label =
        if v.len() == 0 {
            None
        } else {
            Some(string_of(v))
        };
    } else if is_text(key, "server") {
        acc.server = string_of(v);
    } else if is_text(key, "port") {
        if let Some(n) = read_unsigned(v, 10, 65535) {
            acc.port = n as u16;
        }
    } else if is_text(key, "password") {
        acc.password = string_of(v);
    } else if is_text(key, "poll_interval") {
        if let Some(n) = read_unsigned(v, 10, u64::MAX) {
            acc.poll_interval =
            if n < 1 {
                1
            } else {
                n
            };
        }
    } else if is_text(key, "last_ok_interval") {
        if let Some(n) = read_unsigned(v, 10, u64::MAX) {
            acc.last_ok_interval = Some(n);
        }
    }
    assert(acc@ =~= with_field(old(acc)@, key@, raw@));
}

/// The account with the field that the line `s` sets, where it sets one.
pub open spec fn with_line(acc: AccountView, s: Seq<char>) -> AccountView {
    match key_value(s) {
        Some((k, v)) => with_field(acc, k, v),
        None => acc,
    }
}

/// Sets the field that the line `s` sets.
pub fn apply_line(acc: &mut Account, s: &[char])
    ensures
        final(acc)@ == with_line(old(acc)@, s@),
{
    if let Some((k, v)) = split_kv(s) {
        apply_field(acc, k, v);
    }
}

// ───────────────────────── lines ─────────────────────────

/// A line that says nothing: blank, or a comment.
pub open spec fn idle_line(line: Seq<char>) -> bool {
    blank(line) || trimmed_start(line)[0] == '#'
}

/// Whether the line says nothing.
pub fn is_idle_line(line: &[char]) -> (r: bool)
    ensures
        r == idle_line(line@),
{
    proof {
        lemma_blank(line@);
    }
    let t: &[char] = trim_start(line);
    t.len() == 0 || t[0] == '#'
}

/// A line that starts an item of a list.
pub open spec fn item_line(line: Seq<char>) -> bool {
    prefixed(trimmed_start(line), "- "@)
}

/// What follows the dash of an item.
pub open spec fn item_text(line: Seq<char>) -> Seq<char> {
    let t = trimmed_start(line);
    t.subrange(2, t.len() as int)
}

/// What follows the dash of an item.
pub fn text_of_item(line: &[char]) -> (r: &[char])
    requires
        item_line(line@),
    ensures
        r@ == item_text(line@),
{
    proof {
        reveal_strlit("- ");
    }
    let t: &[char] = trim_start(line);
    slice_subrange(t, 2, t.len())
}

/// The first line from `from` on that starts with `key`, at the top level.
pub open spec fn key_line(lines: Seq<Seq<char>>, key: Seq<char>, from: int) -> Option<int>
    decreases lines.len() - from,
{
    if from < 0 || from >= lines.len() {
        None
    } else if prefixed(lines[from], key) {
        Some(from)
    } else {
        key_line(lines, key, from + 1)
    }
}

/// The first line that starts with `key`, at the top level.
pub fn find_key(lines: &[&[char]], key: &str) -> (r: Option<usize>)
    ensures
        match r {
            Some(i) => key_line(views(lines@), key@, 0) == Some(i as int) && i < lines.len()
                && prefixed(lines@[i as int]@, key@),
            None => key_line(views(lines@), key@, 0) is None,
        },
{
    let ghost v = views(lines@);
    let mut i: usize = 0;
    while i < lines.len()
        invariant
            i <= lines@.len(),
            v == views(lines@),
            key_line(v, key@, 0) == key_line(v, key@, i as int),
        decreases lines.len() - i,
    {
        assert(v[i as int] == lines@[i as int]@);
        if starts_with(lines[i], key) {
            return Some(i);
        }
        i += 1;
    }
    None
}

/// What stands behind the key on its line, without the white space around it.
pub open spec fn inline_value(line: Seq<char>, key: Seq<char>) -> Seq<char> {
    trimmed(line.subrange(key.len() as int, line.len() as int))
}

// ───────────────────────── keywords ─────────────────────────

/// The items of a list of words from line `i` on. The first item sets how far the others
/// are indented (`at`); the list ends at a top-level line, at an item that is indented less,
/// and at a line that is no item and not indented further.
pub open spec fn words_listed(lines: Seq<Seq<char>>, i: int, at: Option<nat>) -> Seq<Seq<char>>
    decreases lines.len() - i,
{
    if i < 0 || i >= lines.len() {
        seq![]
    } else {
        let line = lines[i];
        let n = indentation(line);
        if idle_line(line) {
            words_listed(lines, i + 1, at)
        } else if n == 0 {
            seq![]
        } else if item_line(line) {
            if at matches Some(k) && n < k {
                seq![]
            } else if at matches Some(k) && n > k {
                words_listed(lines, i + 1, at)
            } else {
                let w = value_of(item_text(line));
                (if w.len() > 0 {
                    seq![w]
                } else {
                    seq![]
                }) + words_listed(lines, i + 1, Some(n))
            }
        } else if at matches Some(k) && n <= k {
            seq![]
        } else {
            words_listed(lines, i + 1, at)
        }
    }
}

/// The keywords of a configuration: the list under `match_keywords:`, and none where `[]`
/// stands behind the key. `None` where there is no such key.
pub open spec fn keywords_of(text: Seq<char>) -> Option<Seq<Seq<char>>> {
    let lines = lines_of(text);
    match key_line(lines, "match_keywords:"@, 0) {
        Some(k) => if inline_value(lines[k], "match_keywords:"@) == "[]"@ {
            Some(seq![])
        } else {
            Some(words_listed(lines, k + 1, None))
        },
        None => None,
    }
}

/// Reads the keywords of a configuration.
pub fn parse_match_keywords(text: &str) -> (r: Option<Vec<String>>)
    ensures
        match r {
            Some(w) => keywords_of(text@) == Some(texts(w@)),
            None => keywords_of(text@) is None,
        },
{
    let bytes: usize = text.as_bytes().len();
    let chars: Vec<char> = chars_of(text);
    let lines: Vec<&[char]> = split_lines(chars.as_slice());
    let ghost v = views(lines@);
    proof {
        lemma_lines_countable(text@, 0);
        assert forall|j: int| 0 <= j < v.len() implies countable(#[trigger] v[j]) by {}
        reveal_strlit("match_keywords:");
    }
    let key: usize = match find_key(lines.as_slice(), "match_keywords:") {
        Some(i) => i,
        None => {
            return None;
        },
    };
    assert(v[key as int] == lines@[key as int]@);
    let line: &[char] = lines[key];
    let mut out: Vec<String> = Vec::new();
    assert(texts(out@) =~= seq![]);
    if is_text(trim(slice_subrange(line, 15, line.len())), "[]") {
        return Some(out);
    }
    let ghost all = words_listed(v, key + 1, None);
    let mut at: Option<usize> = None;
    let mut i: usize = key + 1;
    while i < lines.len()
        invariant
            key < i <= lines@.len(),
            v == views(lines@),
            forall|j: int| 0 <= j < v.len() ==> countable(#[trigger] v[j]),
            all =~= texts(out@) + words_listed(
                v,
                i as int,
                match at {
                    Some(k) => Some(k as nat),
                    None => None,
                },
            ),
            keywords_of(text@) == Some(all),
        decreases lines.len() - i,
    {
        assert(v[i as int] == lines@[i as int]@);
        let line: &[char] = lines[i];
        if is_idle_line(line) {
            i += 1;
            continue;
        }
        let n: usize = indent(line);
        if n == 0 {
            return Some(out);
        }
        if starts_with(trim_start(line), "- ") {
            if let Some(k) = at {
                if n < k {
                    return Some(out);
                }
                if n > k {
                    i += 1;
                    continue;
                }
            }
            at = Some(n);
            let w: &[char] = clean_value(text_of_item(line));
            if w.len() > 0 {
                let ghost before = out@;
                out.push(string_of(w));
                assert(texts(out@) =~= texts(before).push(w@));
            }
        } else {
            if let Some(k) = at {
                if n <= k {
                    return Some(out);
                }
            }
        }
        i += 1;
    }
    Some(out)
}

// ───────────────────────── accounts ─────────────────────────

/// An account with a server and a password.
pub open spec fn usable(acc: AccountView) -> bool {
    acc.server.len() > 0 && acc.password.len() > 0
}

/// What an account adds to the list: itself where it is usable.
pub open spec fn kept(acc: AccountView) -> Seq<AccountView> {
    if usable(acc) {
        seq![acc]
    } else {
        seq![]
    }
}

/// What the account that is being read adds to the list.
pub open spec fn closed_account(open: Option<(nat, AccountView)>) -> Seq<AccountView> {
    match open {
        Some((at, acc)) => kept(acc),
        None => seq![],
    }
}

/// The accounts listed from line `i` on. `open` is the account that is being read, with the
/// indentation of its item. An item at that indentation starts the next account; a line that
/// is indented further sets a field; the list ends at a top-level line, and at any other
/// line that is not indented further.
pub open spec fn accounts_from(
    lines: Seq<Seq<char>>,
    i: int,
    open: Option<(nat, AccountView)>,
) -> Seq<AccountView>
    decreases lines.len() - i,
{
    if i < 0 || i >= lines.len() {
        closed_account(open)
    } else {
        let line = lines[i];
        let n = indentation(line);
        if idle_line(line) {
            accounts_from(lines, i + 1, open)
        } else if n == 0 {
            closed_account(open)
        } else if item_line(line) {
            match open {
                Some((at, acc)) if n < at => closed_account(open),
                Some((at, acc)) if n > at => accounts_from(lines, i + 1, open),
                _ => closed_account(open) + accounts_from(
                    lines,
                    i + 1,
                    Some((n, with_line(fresh_account(), item_text(line)))),
                ),
            }
        } else {
            match open {
                Some((at, acc)) => if n > at {
                    accounts_from(
                        lines,
                        i + 1,
                        Some((at, with_line(acc, trimmed_start(line)))),
                    )
                } else {
                    closed_account(open)
                },
                None => accounts_from(lines, i + 1, open),
            }
        }
    }
}

/// The accounts of a configuration that is split into lines: the list under `accounts:`.
pub open spec fn accounts_in(lines: Seq<Seq<char>>) -> Seq<AccountView> {
    match key_line(lines, "accounts:"@, 0) {
        Some(k) => accounts_from(lines, k + 1, None),
        None => seq![],
    }
}

/// The accounts of a configuration.
pub open spec fn accounts_of(text: Seq<char>) -> Seq<AccountView> {
    accounts_in(lines_of(text))
}

/// Adds an account to the list where it is usable.
fn keep_account(out: &mut Vec<Account>, acc: Account)
    ensures
        account_views(final(out)@) == account_views(old(out)@) + kept(acc@),
{
    if acc.server.as_str().as_bytes().len() > 0 && acc.password.as_str().as_bytes().len() > 0 {
        out.push(acc);
    }
    assert(account_views(out@) =~= account_views(old(out)@) + kept(acc@));
}

/// Reads the accounts of a configuration.
pub fn parse_accounts(text: &str) -> (r: Vec<Account>)
    ensures
        account_views(r@) == accounts_of(text@),
{
    let bytes: usize = text.as_bytes().len();
    let chars: Vec<char> = chars_of(text);
    let lines: Vec<&[char]> = split_lines(chars.as_slice());
    let ghost v = views(lines@);
    proof {
        lemma_lines_countable(text@, 0);
        assert forall|j: int| 0 <= j < v.len() implies countable(#[trigger] v[j]) by {}
    }
    let mut out: Vec<Account> = Vec::new();
    assert(account_views(out@) =~= seq![]);
    let start: usize = match find_key(lines.as_slice(), "accounts:") {
        Some(i) => i + 1,
        None => {
            return out;
        },
    };
    let ghost all = accounts_of(text@);
    let mut open: Option<(usize, Account)> = None;
    let mut i: usize = start;
    while i < lines.len()
        invariant_except_break
            all =~= account_views(out@) + accounts_from(
                v,
                i as int,
                match open {
                    Some((at, acc)) => Some((at as nat, acc@)),
                    None => None,
                },
            ),
        invariant
            i <= lines@.len(),
            v == views(lines@),
            forall|j: int| 0 <= j < v.len() ==> countable(#[trigger] v[j]),
        ensures
            all =~= account_views(out@) + closed_account(
                match open {
                    Some((at, acc)) => Some((at as nat, acc@)),
                    None => None,
                },
            ),
        decreases lines.len() - i,
    {
        assert(v[i as int] == lines@[i as int]@);
        let line: &[char] = lines[i];
        i += 1;
        if is_idle_line(line) {
            continue;
        }
        let n: usize = indent(line);
        if n == 0 {
            break;
        }
        if starts_with(trim_start(line), "- ") {
            if let Some((at, _)) = &open {
                if n < *at {
                    break;
                }
                if n > *at {
                    continue;
                }
            }
            if let Some((_, acc)) = open {
                keep_account(&mut out, acc);
            }
            let mut acc: Account = new_account();
            apply_line(&mut acc, text_of_item(line));
            open = Some((n, acc));
        } else {
            match open {
                Some((at, acc)) => {
                    let mut acc: Account = acc;
                    if n <= at {
                        open = Some((at, acc));
                        break;
                    }
                    apply_line(&mut acc, trim_start(line));
                    open = Some((at, acc));
                },
                None => {},
            }
        }
    }
    if let Some((_, acc)) = open {
        keep_account(&mut out, acc);
    }
    out
}

// ───────────────────────── the whole file ─────────────────────────

/// The switch under `notify_unmatched:`. `None` where the key is missing, or has no value.
pub open spec fn notify_of(text: Seq<char>) -> Option<bool> {
    let lines = lines_of(text);
    match key_line(lines, "notify_unmatched:"@, 0) {
        Some(k) => {
            let v = inline_value(lines[k], "notify_unmatched:"@);
            if v.len() == 0 {
                None
            } else {
                Some(true_word(lower_case(trimmed(v))))
            }
        },
        None => None,
    }
}

/// Reads the switch under `notify_unmatched:`.
pub fn parse_notify_unmatched(text: &str) -> (r: Option<bool>)
    ensures
        r == notify_of(text@),
{
    let chars: Vec<char> = chars_of(text);
    let lines: Vec<&[char]> = split_lines(chars.as_slice());
    proof {
        reveal_strlit("notify_unmatched:");
    }
    match find_key(lines.as_slice(), "notify_unmatched:") {
        Some(k) => {
            assert(views(lines@)[k as int] == lines@[k as int]@);
            let line: &[char] = lines[k];
            let v: &[char] = trim(slice_subrange(line, 17, line.len()));
            if v.len() == 0 {
                None
            } else {
                Some(parse_bool(v))
            }
        },
        None => None,
    }
}

/// The configuration is that of `text`: no keywords where it names none, and every mail is
/// notified where it does not say otherwise.
pub open spec fn config_is(c: MailConfig, text: Seq<char>) -> bool {
    &&& texts(c.match_keywords@) == (match keywords_of(text) {
        Some(w) => w,
        None => seq![],
    })
    &&& account_views(c.accounts@) == accounts_of(text)
    &&& c.notify_unmatched == (match notify_of(text) {
        Some(b) => b,
        None => true,
    })
}

/// Reads a configuration.
pub fn parse_config(text: &str) -> (r: MailConfig)
    ensures
        config_is(r, text@),
{
    let match_keywords: Vec<String> = match parse_match_keywords(text) {
        Some(w) => w,
        None => {
            let none: Vec<String> = Vec::new();
            assert(texts(none@) =~= seq![]);
            none
        },
    };
    let notify_unmatched: bool = match parse_notify_unmatched(text) {
        Some(b) => b,
        None => true,
    };
    MailConfig { match_keywords, accounts: parse_accounts(text), notify_unmatched }
}

/// What was found at the path of the configuration file.
pub enum ConfigFile {
    Missing,
    Unreadable,
    Text(String),
}

/// The configuration, given what was found at its path, and whether the sample is to be
/// written there. `explicit` says that the path was given by the user.
///
/// A file that is missing at the default path means that no mail is to be read: nothing is
/// written, and there are no keywords and no accounts. At a path that the user gave the
/// sample is written, and its keywords count, without its accounts. A file that cannot be
/// read counts as empty.
pub fn load_config(file: &ConfigFile, explicit: bool) -> (r: (MailConfig, bool))
    ensures
        match *file {
            ConfigFile::Text(text) => config_is(r.0, text@) && !r.1,
            ConfigFile::Unreadable => {
                &&& r.0.match_keywords@.len() == 0
                &&& r.0.accounts@.len() == 0
                &&& r.0.notify_unmatched
                &&& !r.1
            },
            ConfigFile::Missing => {
                &&& texts(r.0.match_keywords@) == (if explicit {
                    match keywords_of(SAMPLE_YAML@) {
                        Some(w) => w,
                        None => seq![],
                    }
                } else {
                    seq![]
                })
                &&& r.0.accounts@.len() == 0
                &&& r.0.notify_unmatched
                &&& r.1 == explicit
            },
        },
{
    match file {
        ConfigFile::Text(text) => (parse_config(text.as_str()), false),
        ConfigFile::Missing if explicit => {
            let match_keywords: Vec<String> = match parse_match_keywords(SAMPLE_YAML) {
                Some(w) => w,
                None => {
                    let none: Vec<String> = Vec::new();
                    assert(texts(none@) =~= seq![]);
                    none
                },
            };
            (
                MailConfig { match_keywords, accounts: Vec::new(), notify_unmatched: true },
                true,
            )
        },
        _ => {
            let match_keywords: Vec<String> = Vec::new();
            assert(texts(match_keywords@) =~= seq![]);
            (
                MailConfig { match_keywords, accounts: Vec::new(), notify_unmatched: true },
                false,
            )
        },
    }
}

// ───────────────────────── laws ─────────────────────────

/// A field never sets the polling interval to 0.
proof fn lemma_polls(acc: AccountView, s: Seq<char>)
    requires
        acc.poll_interval >= 1,
    ensures
        with_line(acc, s).poll_interval >= 1,
{
}

proof fn lemma_accounts_from(lines: Seq<Seq<char>>, i: int, open: Option<(nat, AccountView)>)
    requires
        open matches Some((at, acc)) ==> acc.poll_interval >= 1,
    ensures
        forall|k: int|
            0 <= k < accounts_from(lines, i, open).len() ==> usable(
                #[trigger] accounts_from(lines, i, open)[k],
            ) && accounts_from(lines, i, open)[k].poll_interval >= 1,
    decreases lines.len() - i,
{
    if 0 <= i < lines.len() {
        let line = lines[i];
        let n = indentation(line);
        let begun = with_line(fresh_account(), item_text(line));
        lemma_polls(fresh_account(), item_text(line));
        lemma_accounts_from(lines, i + 1, open);
        lemma_accounts_from(lines, i + 1, Some((n, begun)));
        if let Some((at, acc)) = open {
            lemma_polls(acc, trimmed_start(line));
            lemma_accounts_from(
                lines,
                i + 1,
                Some((at, with_line(acc, trimmed_start(line)))),
            );
        }
        let first = closed_account(open);
        let rest = accounts_from(lines, i + 1, Some((n, begun)));
        let all = accounts_from(lines, i, open);
        assert forall|k: int| 0 <= k < all.len() implies usable(#[trigger] all[k])
            && all[k].poll_interval >= 1 by {
            if all == first + rest && k >= first.len() {
                assert(all[k] == rest[k - first.len()]);
            }
        }
    }
}

/// Every account of a configuration has a server and a password, and polls at intervals of
/// at least one second.
pub proof fn accounts_are_usable(text: Seq<char>)
    ensures
        forall|k: int|
            0 <= k < accounts_of(text).len() ==> usable(#[trigger] accounts_of(text)[k])
                && accounts_of(text)[k].poll_interval >= 1,
{
    let lines = lines_of(text);
    if let Some(k) = key_line(lines, "accounts:"@, 0) {
        lemma_accounts_from(lines, k + 1, None);
    }
}

proof fn lemma_words_listed(lines: Seq<Seq<char>>, i: int, at: Option<nat>)
    ensures
        forall|k: int|
            0 <= k < words_listed(lines, i, at).len() ==> (#[trigger] words_listed(
                lines,
                i,
                at,
            )[k]).len() > 0,
    decreases lines.len() - i,
{
    if 0 <= i < lines.len() {
        let n = indentation(lines[i]);
        lemma_words_listed(lines, i + 1, at);
        lemma_words_listed(lines, i + 1, Some(n));
        let rest = words_listed(lines, i + 1, Some(n));
        let all = words_listed(lines, i, at);
        assert forall|k: int| 0 <= k < all.len() implies (#[trigger] all[k]).len() > 0 by {
            if all.len() == rest.len() + 1 && k > 0 && !idle_line(lines[i]) && item_line(
                lines[i],
            ) {
                assert(all[k] == rest[k - 1] || words_listed(lines, i + 1, at) == all);
            }
        }
    }
}

/// No keyword is empty. (An empty one would stand in every mail.)
pub proof fn keywords_are_not_empty(text: Seq<char>)
    ensures
        keywords_of(text) matches Some(w) ==> forall|k: int|
            0 <= k < w.len() ==> (#[trigger] w[k]).len() > 0,
{
    let lines = lines_of(text);
    if let Some(k) = key_line(lines, "match_keywords:"@, 0) {
        lemma_words_listed(lines, k + 1, None);
    }
}

} // verus!
