//! What a restart finds: the interval that was saved is the interval that is read.
use vstd::prelude::*;

use crate::lines::{
    byte_len, indentation, lemma_byte_len_push, lemma_pieces, lines_from, lines_of, margin, pieces,
    pieces_from, split_after_join, without_cr,
};
use crate::mail::config::{
    accounts_from, accounts_in, accounts_of, closed_account, comment_from, fresh_account,
    idle_line, item_line, item_text, kept, key_line, key_value, value_of, with_field, with_line,
    AccountView,
};
use crate::mail::interval::{
    account_end, block_end, block_start, interval_line, lemma_account_end, lemma_block_end,
    names_account, new_interval_line, saved, spaces, with_interval_line,
};
use crate::number::{decimal, decimal_round_trip, digit_value, lemma_decimal};
use crate::text::{
    blank, is_ascii_space, is_space, lemma_blank, lemma_next, lemma_next_is, lemma_trimmed_is,
    lemma_trimmed_push, next, prefixed, trimmed_start, Class,
};

verus! {

// ───────────────────────── carriage returns ─────────────────────────

/// A line as it is read, and the same line with a carriage return before its end.
pub open spec fn alike(l: Seq<char>, p: Seq<char>) -> bool {
    l == p || (p.len() > 0 && p == l.push('\r'))
}

/// The lines of a text are its pieces between newlines, without carriage returns, and without
/// an empty last one.
proof fn lemma_lines_pieces(s: Seq<char>, from: int)
    requires
        0 <= from <= s.len(),
    ensures
        ({
            let l = lines_from(s, from);
            let p = pieces_from(s, '\n', from);
            &&& l.len() == p.len() || (p.len() == l.len() + 1 && p.last() == Seq::<char>::empty())
            &&& forall|i: int| #![auto] 0 <= i < l.len() ==> alike(l[i], p[i])
        }),
    decreases s.len() - from,
{
    let k = next(s, Class::Is('\n'), from);
    lemma_next(s, Class::Is('\n'), from);
    let l = lines_from(s, from);
    let p = pieces_from(s, '\n', from);
    if from < s.len() && k < s.len() {
        lemma_lines_pieces(s, k + 1);
        let line = s.subrange(from, k);
        if line.len() > 0 && line.last() == '\r' {
            assert(line =~= line.drop_last().push('\r'));
        }
        let l2 = lines_from(s, k + 1);
        let p2 = pieces_from(s, '\n', k + 1);
        assert(l =~= seq![without_cr(line)] + l2);
        assert(p =~= seq![line] + p2);
        assert forall|i: int| #![auto] 0 <= i < l.len() implies alike(l[i], p[i]) by {
            if i > 0 {
                assert(l[i] == l2[i - 1]);
                assert(p[i] == p2[i - 1]);
            }
        }
        if p2.len() == l2.len() + 1 {
            assert(p.last() == p2.last());
        }
    } else if from == s.len() {
        assert(s.subrange(from, s.len() as int) =~= Seq::<char>::empty());
        assert(p.last() =~= Seq::<char>::empty());
    }
}

/// What a field says does not depend on white space at its end.
proof fn lemma_line_push(acc: AccountView, s: Seq<char>)
    ensures
        with_line(acc, s.push('\r')) == with_line(acc, s),
{
    let u = s.push('\r');
    let k = next(s, Class::Is(':'), 0);
    lemma_next(s, Class::Is(':'), 0);
    if k < s.len() {
        assert forall|i: int| 0 <= i < k implies !Class::Is(':').admits(#[trigger] u[i]) by {
            assert(u[i] == s[i]);
        }
        lemma_next_is(u, Class::Is(':'), 0, k);
        assert(u.subrange(0, k) =~= s.subrange(0, k));
        let v = s.subrange(k + 1, s.len() as int);
        assert(u.subrange(k + 1, u.len() as int) =~= v.push('\r'));
        lemma_trimmed_push(v, '\r');
    } else {
        assert forall|i: int| 0 <= i < u.len() implies !Class::Is(':').admits(#[trigger] u[i]) by {
            if i < s.len() {
                assert(u[i] == s[i]);
            }
        }
        lemma_next_is(u, Class::Is(':'), 0, u.len() as int);
    }
}

/// What a line says does not depend on a carriage return at its end.
proof fn lemma_alike(l: Seq<char>, p: Seq<char>, acc: AccountView)
    requires
        alike(l, p),
    ensures
        idle_line(l) == idle_line(p),
        !idle_line(l) ==> indentation(l) == indentation(p),
        !idle_line(l) ==> item_line(l) == item_line(p),
        item_line(l) ==> with_line(acc, item_text(l)) == with_line(acc, item_text(p)),
        !idle_line(l) ==> with_line(acc, trimmed_start(l)) == with_line(acc, trimmed_start(p)),
        prefixed(l, "accounts:"@) == prefixed(p, "accounts:"@),
{
    reveal_strlit("- ");
    reveal_strlit("accounts:");
    if l != p {
        lemma_trimmed_push(l, '\r');
        lemma_blank(l);
        let t = trimmed_start(l);
        if !blank(l) {
            let n = next(l, Class::Ink, 0);
            lemma_next(l, Class::Ink, 0);
            assert(margin(l) =~= margin(p));
            assert(t.push('\r')[0] == t[0]);
            lemma_line_push(acc, t);
            if t.len() >= 2 {
                assert(t.push('\r').subrange(0, 2) =~= t.subrange(0, 2));
                let i = t.subrange(2, t.len() as int);
                assert(t.push('\r').subrange(2, t.len() as int + 1) =~= i.push('\r'));
                lemma_line_push(acc, i);
            } else {
                assert(t.len() == 1);
                assert(t.push('\r').subrange(0, 2)[1] == '\r');
                assert("- "@[1] == ' ');
            }
        } else {
            assert(t.len() == 0);
        }
        let key = "accounts:"@;
        if l.len() >= key.len() {
            assert(l.subrange(0, key.len() as int) =~= p.subrange(0, key.len() as int));
        } else if p.len() >= key.len() {
            assert(p.subrange(0, key.len() as int)[8] == '\r');
            assert(key[8] == ':');
        }
    }
}

/// The accounts are the same whether a file is split into lines or at newlines.
proof fn lemma_accounts_alike(
    l: Seq<Seq<char>>,
    p: Seq<Seq<char>>,
    i: int,
    open: Option<(nat, AccountView)>,
)
    requires
        0 <= i <= l.len(),
        l.len() == p.len() || (p.len() == l.len() + 1 && p.last() == Seq::<char>::empty()),
        forall|j: int| #![auto] 0 <= j < l.len() ==> alike(l[j], p[j]),
    ensures
        accounts_from(l, i, open) == accounts_from(p, i, open),
    decreases l.len() - i,
{
    if i == l.len() {
        if p.len() > i {
            assert(idle_line(p[i]));
            assert(accounts_from(p, i + 1, open) == closed_account(open));
        }
    } else {
        let line = l[i];
        let n = indentation(line);
        assert(alike(l[i], p[i]));
        let acc = match open {
            Some((_, a)) => a,
            None => fresh_account(),
        };
        lemma_alike(l[i], p[i], acc);
        lemma_alike(l[i], p[i], fresh_account());
        lemma_accounts_alike(l, p, i + 1, open);
        lemma_accounts_alike(
            l,
            p,
            i + 1,
            Some((n, with_line(fresh_account(), item_text(line)))),
        );
        if let Some((at, a)) = open {
            lemma_accounts_alike(l, p, i + 1, Some((at, with_line(a, trimmed_start(line)))));
        }
    }
}

/// The key is on the same line whether a file is split into lines or at newlines.
proof fn lemma_key_alike(l: Seq<Seq<char>>, p: Seq<Seq<char>>, i: int)
    requires
        0 <= i <= l.len(),
        l.len() == p.len() || (p.len() == l.len() + 1 && p.last() == Seq::<char>::empty()),
        forall|j: int| #![auto] 0 <= j < l.len() ==> alike(l[j], p[j]),
    ensures
        key_line(l, "accounts:"@, i) == key_line(p, "accounts:"@, i),
        key_line(l, "accounts:"@, i) matches Some(k) ==> i <= k < l.len(),
    decreases l.len() - i,
{
    reveal_strlit("accounts:");
    if i < l.len() {
        assert(alike(l[i], p[i]));
        lemma_alike(l[i], p[i], fresh_account());
        lemma_key_alike(l, p, i + 1);
    } else if p.len() > i {
        assert(key_line(p, "accounts:"@, i + 1) is None);
    }
}

/// The accounts of a file can be read from its pieces between newlines.
pub proof fn lemma_accounts_in_pieces(text: Seq<char>)
    ensures
        accounts_of(text) == accounts_in(pieces(text, '\n')),
{
    lemma_lines_pieces(text, 0);
    let l = lines_of(text);
    let p = pieces(text, '\n');
    lemma_key_alike(l, p, 0);
    if let Some(k) = key_line(l, "accounts:"@, 0) {
        lemma_accounts_alike(l, p, k + 1, None);
    }
}

// ───────────────────────── one account among the others ─────────────────────────

/// The account that the item on `line` starts.
pub open spec fn begun(line: Seq<char>) -> AccountView {
    with_line(fresh_account(), item_text(line))
}

/// The account `acc`, whose item is indented by `at`, once the lines from `i` on have been
/// read up to the one that ends it.
pub open spec fn finished(lines: Seq<Seq<char>>, i: int, at: nat, acc: AccountView) -> AccountView
    decreases lines.len() - i,
{
    if i < 0 || i >= lines.len() {
        acc
    } else if idle_line(lines[i]) {
        finished(lines, i + 1, at, acc)
    } else if indentation(lines[i]) <= at {
        acc
    } else if item_line(lines[i]) {
        finished(lines, i + 1, at, acc)
    } else {
        finished(lines, i + 1, at, with_line(acc, trimmed_start(lines[i])))
    }
}

/// The accounts after one whose item is indented by `at`, where its lines go on at `i`.
pub open spec fn following(lines: Seq<Seq<char>>, i: int, at: nat) -> Seq<AccountView>
    decreases lines.len() - i,
{
    if i < 0 || i >= lines.len() {
        seq![]
    } else if idle_line(lines[i]) || indentation(lines[i]) > at {
        following(lines, i + 1, at)
    } else if indentation(lines[i]) == at && at > 0 && item_line(lines[i]) {
        accounts_from(lines, i + 1, Some((at, begun(lines[i]))))
    } else {
        seq![]
    }
}

/// The accounts before line `start`, and the one that is being read there, where reading gets
/// that far.
pub open spec fn reached(
    lines: Seq<Seq<char>>,
    i: int,
    open: Option<(nat, AccountView)>,
    start: int,
) -> Option<(Seq<AccountView>, Option<(nat, AccountView)>)>
    decreases start - i,
{
    if i >= start {
        if i == start {
            Some((seq![], open))
        } else {
            None
        }
    } else {
        let line = lines[i];
        let n = indentation(line);
        if idle_line(line) {
            reached(lines, i + 1, open, start)
        } else if n == 0 {
            None
        } else if item_line(line) {
            match open {
                Some((at, acc)) if n < at => None,
                Some((at, acc)) if n > at => reached(lines, i + 1, open, start),
                _ => match reached(lines, i + 1, Some((n, begun(line))), start) {
                    Some((done, then)) => Some((closed_account(open) + done, then)),
                    None => None,
                },
            }
        } else {
            match open {
                Some((at, acc)) => if n > at {
                    reached(
                        lines,
                        i + 1,
                        Some((at, with_line(acc, trimmed_start(line)))),
                        start,
                    )
                } else {
                    None
                },
                None => reached(lines, i + 1, open, start),
            }
        }
    }
}

/// Line `start` is the item that starts an account in the list under `accounts:`.
pub open spec fn begins_account(lines: Seq<Seq<char>>, start: int) -> bool {
    &&& 0 <= start < lines.len()
    &&& item_line(lines[start])
    &&& indentation(lines[start]) > 0
    &&& key_line(lines, "accounts:"@, 0) matches Some(a) && a < start && (match reached(
        lines,
        a + 1,
        None,
        start,
    ) {
        Some((done, Some((at, acc)))) => at == indentation(lines[start]),
        Some((done, None)) => true,
        None => false,
    })
}

/// The account that line `start` starts.
pub open spec fn account_at(lines: Seq<Seq<char>>, start: int) -> AccountView {
    finished(lines, start + 1, indentation(lines[start]), begun(lines[start]))
}

/// The account with that interval.
pub open spec fn with_interval(acc: AccountView, interval: Option<u64>) -> AccountView {
    AccountView { last_ok_interval: interval, ..acc }
}

/// The interval `interval` once the lines from `i` on have been read up to the one that ends
/// the account.
pub open spec fn carried(
    lines: Seq<Seq<char>>,
    i: int,
    at: nat,
    interval: Option<u64>,
) -> Option<u64> {
    finished(lines, i, at, with_interval(fresh_account(), interval)).last_ok_interval
}

/// Reading an account is reading the rest of its lines, and the accounts that follow.
proof fn lemma_finished(lines: Seq<Seq<char>>, i: int, at: nat, acc: AccountView)
    requires
        0 <= i,
    ensures
        accounts_from(lines, i, Some((at, acc))) == kept(finished(lines, i, at, acc)) + following(
            lines,
            i,
            at,
        ),
    decreases lines.len() - i,
{
    if i >= lines.len() {
        assert(kept(acc) + Seq::<AccountView>::empty() =~= kept(acc));
    } else {
        let n = indentation(lines[i]);
        assert(kept(acc) + Seq::<AccountView>::empty() =~= kept(acc));
        lemma_finished(lines, i + 1, at, acc);
        lemma_finished(lines, i + 1, at, with_line(acc, trimmed_start(lines[i])));
    }
}

/// Reading goes on where it has got to.
proof fn lemma_reached(
    lines: Seq<Seq<char>>,
    i: int,
    open: Option<(nat, AccountView)>,
    start: int,
)
    requires
        0 <= i <= start <= lines.len(),
    ensures
        reached(lines, i, open, start) matches Some((done, then)) ==> accounts_from(lines, i, open)
            == done + accounts_from(lines, start, then),
    decreases start - i,
{
    if i == start {
        assert(seq![] + accounts_from(lines, start, open) =~= accounts_from(lines, start, open));
    } else {
        let line = lines[i];
        let n = indentation(line);
        lemma_reached(lines, i + 1, open, start);
        lemma_reached(lines, i + 1, Some((n, begun(line))), start);
        if let Some((at, acc)) = open {
            lemma_reached(
                lines,
                i + 1,
                Some((at, with_line(acc, trimmed_start(line)))),
                start,
            );
        }
        if let Some((done, then)) = reached(lines, i, open, start) {
            assert(accounts_from(lines, i, open) =~= done + accounts_from(lines, start, then));
        }
    }
}

/// How far reading gets depends on the lines before.
proof fn lemma_reached_same(
    lines: Seq<Seq<char>>,
    other: Seq<Seq<char>>,
    i: int,
    open: Option<(nat, AccountView)>,
    start: int,
)
    requires
        0 <= i <= start <= lines.len(),
        start <= other.len(),
        forall|j: int| 0 <= j < start ==> #[trigger] lines[j] == other[j],
    ensures
        reached(lines, i, open, start) == reached(other, i, open, start),
    decreases start - i,
{
    if i < start {
        let line = lines[i];
        let n = indentation(line);
        assert(line == other[i]);
        lemma_reached_same(lines, other, i + 1, open, start);
        lemma_reached_same(lines, other, i + 1, Some((n, begun(line))), start);
        if let Some((at, acc)) = open {
            lemma_reached_same(
                lines,
                other,
                i + 1,
                Some((at, with_line(acc, trimmed_start(line)))),
                start,
            );
        }
    }
}

/// A key that stands before `start` is found where the lines up to there are the same.
proof fn lemma_key_same(lines: Seq<Seq<char>>, other: Seq<Seq<char>>, i: int, start: int)
    requires
        0 <= i <= start <= lines.len(),
        start <= other.len(),
        forall|j: int| 0 <= j < start ==> #[trigger] lines[j] == other[j],
        key_line(lines, "accounts:"@, i) matches Some(a) && a < start,
    ensures
        key_line(lines, "accounts:"@, i) == key_line(other, "accounts:"@, i),
        key_line(lines, "accounts:"@, i) matches Some(a) && i <= a,
    decreases start - i,
{
    assert(i < start) by {
        lemma_key_bound(lines, i);
    }
    assert(lines[i] == other[i]);
    if !prefixed(lines[i], "accounts:"@) {
        lemma_key_same(lines, other, i + 1, start);
    }
}

/// The key is found no earlier than the search starts.
proof fn lemma_key_bound(lines: Seq<Seq<char>>, i: int)
    ensures
        key_line(lines, "accounts:"@, i) matches Some(a) ==> i <= a < lines.len(),
    decreases lines.len() - i,
{
    if 0 <= i < lines.len() && !prefixed(lines[i], "accounts:"@) {
        lemma_key_bound(lines, i + 1);
    }
}

/// A field sets the interval, or leaves it as it is; the rest of the account does not depend
/// on the interval.
proof fn lemma_with_line_interval(a: AccountView, b: AccountView, s: Seq<char>)
    ensures
        with_interval(with_line(a, s), None) == with_interval(
            with_line(with_interval(a, b.last_ok_interval), s),
            None,
        ),
        with_line(with_interval(a, b.last_ok_interval), s).last_ok_interval == with_line(
            b,
            s,
        ).last_ok_interval,
{
    if let Some((k, v)) = key_value(s) {
        reveal_strlit("email");
        reveal_strlit("label");
        reveal_strlit("server");
        reveal_strlit("port");
        reveal_strlit("password");
        reveal_strlit("poll_interval");
        reveal_strlit("last_ok_interval");
        let x = with_interval(with_line(a, s), None);
        let y = with_interval(with_line(with_interval(a, b.last_ok_interval), s), None);
        assert(x =~= y);
    }
}

/// The same for all the lines of an account.
proof fn lemma_finished_interval(
    lines: Seq<Seq<char>>,
    i: int,
    at: nat,
    a: AccountView,
    b: AccountView,
)
    requires
        with_interval(a, None) == with_interval(b, None),
    ensures
        with_interval(finished(lines, i, at, a), None) == with_interval(
            finished(lines, i, at, b),
            None,
        ),
        finished(lines, i, at, b).last_ok_interval == carried(lines, i, at, b.last_ok_interval),
    decreases lines.len() - i,
{
    lemma_finished_interval_only(
        lines,
        i,
        at,
        b,
        with_interval(fresh_account(), b.last_ok_interval),
    );
    if 0 <= i < lines.len() {
        let s = trimmed_start(lines[i]);
        assert(with_interval(a, b.last_ok_interval) =~= b) by {
            assert(with_interval(a, None).email == with_interval(b, None).email);
            assert(with_interval(a, None).label == with_interval(b, None).label);
            assert(with_interval(a, None).server == with_interval(b, None).server);
            assert(with_interval(a, None).port == with_interval(b, None).port);
            assert(with_interval(a, None).password == with_interval(b, None).password);
            assert(with_interval(a, None).poll_interval == with_interval(b, None).poll_interval);
        }
        lemma_with_line_interval(a, b, s);
        lemma_finished_interval(lines, i + 1, at, with_line(a, s), with_line(b, s));
        lemma_finished_interval(lines, i + 1, at, a, b);
    }
}

/// What interval an account ends with depends on no other field.
proof fn lemma_finished_interval_only(
    lines: Seq<Seq<char>>,
    i: int,
    at: nat,
    a: AccountView,
    b: AccountView,
)
    requires
        a.last_ok_interval == b.last_ok_interval,
    ensures
        finished(lines, i, at, a).last_ok_interval == finished(lines, i, at, b).last_ok_interval,
    decreases lines.len() - i,
{
    if 0 <= i < lines.len() {
        let s = trimmed_start(lines[i]);
        assert(with_interval(a, b.last_ok_interval) =~= a);
        lemma_with_line_interval(a, b, s);
        lemma_finished_interval_only(lines, i + 1, at, with_line(a, s), with_line(b, s));
        lemma_finished_interval_only(lines, i + 1, at, a, b);
    }
}

// ───────────────────────── the line that is written ─────────────────────────

/// A stretch of spaces takes one byte for each.
pub proof fn lemma_spaces(n: nat)
    ensures
        byte_len(spaces(n)) == n,
    decreases n,
{
    if n > 0 {
        let m = (n - 1) as nat;
        lemma_spaces(m);
        assert(spaces(n) =~= spaces(m).push(' '));
        lemma_byte_len_push(spaces(m), ' ');
    } else {
        assert(spaces(n) =~= seq![]);
    }
}

/// A comment starts at the first `#` that has white space before it, where no quotation mark
/// and no other `#` comes before.
proof fn lemma_comment_at(v: Seq<char>, i: int, p: int)
    requires
        0 <= i <= p < v.len(),
        0 < p,
        v[p] == '#',
        is_ascii_space(v[p - 1]),
        forall|j: int|
            i <= j < p ==> (#[trigger] v[j]) != '#' && v[j] != '"' && v[j] != '\'',
    ensures
        comment_from(v, i, None) == Some(p),
    decreases p - i,
{
    if i < p {
        lemma_comment_at(v, i + 1, p);
    }
}

/// An interval is saved for the account with that address, and for no other whose address is
/// longer or shorter: the item that is looked for starts an account with exactly that address.
pub proof fn the_account_has_the_address(line: Seq<char>, key: Seq<char>)
    requires
        names_account(line, key),
    ensures
        with_line(fresh_account(), item_text(line)).email == key,
{
}

/// The line that is written sets the interval, in any account whose item is indented by `at`.
pub proof fn new_line_sets_interval(at: nat, interval: u64, acc: AccountView)
    ensures
        ({
            let line = new_interval_line(at, interval);
            &&& !idle_line(line)
            &&& indentation(line) == at + 2
            &&& !item_line(line)
            &&& !prefixed(line, "accounts:"@)
            &&& !line.contains('\n')
            &&& with_line(acc, trimmed_start(line)) == with_interval(acc, Some(interval))
        }),
{
    let line = new_interval_line(at, interval);
    let key = "last_ok_interval: "@;
    let d = decimal(interval as nat);
    let note = "   # 由程序维护：上次正常运行的间隔"@;
    reveal_strlit("last_ok_interval: ");
    reveal_strlit("   # 由程序维护：上次正常运行的间隔");
    reveal_strlit("- ");
    reveal_strlit("accounts:");
    reveal_strlit("last_ok_interval");
    lemma_decimal(interval as nat);
    lemma_spaces(at + 2);
    let body = key + d + note;
    assert(line =~= spaces(at + 2) + body);
    assert(line[at as int + 2] == 'l');
    assert(line.subrange(at as int + 2, line.len() as int) =~= body);
    lemma_next_is(line, Class::Ink, 0, at as int + 2);
    assert(margin(line) =~= spaces(at + 2));
    assert(trimmed_start(line) == body);
    assert(!is_space(line[at as int + 2]));
    assert(!blank(line));
    assert(body[0] == 'l');
    assert(body.subrange(0, 2)[0] == 'l');
    assert("- "@[0] == '-');
    assert(line.subrange(0, 9)[0] == ' ');
    assert("accounts:"@[0] == 'a');
    assert forall|j: int| 0 <= j < d.len() implies '0' <= #[trigger] d[j] <= '9' by {
        assert(digit_value(d[j], 10) is Some);
    }
    assert(!line.contains('\n')) by {
        assert forall|j: int| 0 <= j < note.len() implies note[j] != '\n' by {}
        assert forall|j: int| 0 <= j < key.len() implies key[j] != '\n' by {}
        assert forall|j: int| 0 <= j < line.len() implies line[j] != '\n' by {
            let k = j - at - 2;
            if k < 0 {
                assert(line[j] == ' ');
            } else if k < key.len() {
                assert(line[j] == key[k]);
            } else if k < key.len() + d.len() {
                assert(line[j] == d[k - key.len()]);
            } else {
                assert(line[j] == note[k - key.len() - d.len()]);
            }
        }
    }
    // The field: its key, and what is written as its value.
    assert forall|j: int| 0 <= j < 16 implies !Class::Is(':').admits(#[trigger] body[j]) by {
        assert(body[j] == key[j]);
    }
    assert(body[16] == ':');
    lemma_next_is(body, Class::Is(':'), 0, 16);
    assert(body.subrange(0, 16) =~= "last_ok_interval"@);
    let name = "last_ok_interval"@;
    lemma_trimmed_is(name, 0, 16);
    assert(name.subrange(0, 16) =~= name);
    let raw = body.subrange(17, body.len() as int);
    assert(raw =~= seq![' '] + d + note);
    let v = d + note;
    assert(raw[1] == d[0]);
    assert(raw[raw.len() - 1] == note[note.len() - 1]);
    assert(!is_space(raw[raw.len() - 1]));
    lemma_trimmed_is(raw, 1, raw.len() as int);
    assert(raw.subrange(1, raw.len() as int) =~= v);
    // The value: the digits before the comment.
    assert(v[0] == d[0]);
    let n = d.len() as int;
    assert forall|j: int| 0 <= j < n + 3 implies (#[trigger] v[j]) != '#' && v[j] != '"' && v[j]
        != '\'' by {
        if j < n {
            assert(v[j] == d[j]);
        } else {
            assert(v[j] == note[j - n]);
        }
    }
    assert(v[n + 3] == note[3]);
    assert(v[n + 2] == note[2]);
    lemma_comment_at(v, 0, n + 3);
    let w = v.subrange(0, n + 3);
    assert forall|j: int| n <= j < w.len() implies is_space(#[trigger] w[j]) by {
        assert(w[j] == note[j - n]);
    }
    assert(w[0] == d[0]);
    assert(w[n - 1] == d[n - 1]);
    lemma_trimmed_is(w, 0, n);
    assert(w.subrange(0, n) =~= d);
    assert(value_of(raw) == d);
    decimal_round_trip(interval as nat, u64::MAX as int);
    reveal_strlit("email");
    reveal_strlit("label");
    reveal_strlit("server");
    reveal_strlit("port");
    reveal_strlit("password");
    reveal_strlit("poll_interval");
    assert("last_ok_interval"@.len() == 16);
    assert(key_value(body) == Some((name, raw)));
    assert(with_field(acc, name, raw) == with_interval(acc, Some(interval)));
}

/// A line that is replaced sets the interval, or nothing.
proof fn lemma_old_line(line: Seq<char>, acc: AccountView)
    requires
        prefixed(trimmed_start(line), "last_ok_interval:"@),
    ensures
        !idle_line(line),
        !blank(line),
        !item_line(line),
        with_interval(with_line(acc, trimmed_start(line)), None) == with_interval(acc, None),
{
    reveal_strlit("last_ok_interval:");
    reveal_strlit("last_ok_interval");
    reveal_strlit("- ");
    let t = trimmed_start(line);
    let key = "last_ok_interval:"@;
    lemma_blank(line);
    assert forall|j: int| 0 <= j < 17 implies #[trigger] t[j] == key[j] by {
        assert(t.subrange(0, 17)[j] == t[j]);
    }
    assert(t[0] == 'l');
    if item_line(line) {
        assert(t.subrange(0, 2)[0] == 'l');
        assert("- "@[0] == '-');
    }
    assert forall|j: int| 0 <= j < 16 implies !Class::Is(':').admits(#[trigger] t[j]) by {
        assert(t[j] == key[j]);
    }
    assert(t[16] == key[16]);
    lemma_next_is(t, Class::Is(':'), 0, 16);
    let name = "last_ok_interval"@;
    assert(t.subrange(0, 16) =~= name);
    lemma_trimmed_is(name, 0, 16);
    assert(name.subrange(0, 16) =~= name);
    reveal_strlit("email");
    reveal_strlit("label");
    reveal_strlit("server");
    reveal_strlit("port");
    reveal_strlit("password");
    reveal_strlit("poll_interval");
    assert(name.len() == 16);
    assert(with_interval(with_line(acc, t), None) =~= with_interval(acc, None));
}

// ───────────────────────── the file that is written ─────────────────────────

/// Lines that have moved are read as they were.
proof fn lemma_moved(
    lines: Seq<Seq<char>>,
    other: Seq<Seq<char>>,
    i: int,
    by: int,
    open: Option<(nat, AccountView)>,
)
    requires
        0 <= i <= lines.len(),
        0 <= by,
        other.len() == lines.len() + by,
        forall|j: int| i <= j < lines.len() ==> #[trigger] lines[j] == other[j + by],
    ensures
        accounts_from(other, i + by, open) == accounts_from(lines, i, open),
        open matches Some((at, acc)) ==> finished(other, i + by, at, acc) == finished(
            lines,
            i,
            at,
            acc,
        ) && following(other, i + by, at) == following(lines, i, at),
    decreases lines.len() - i,
{
    if i < lines.len() {
        let line = lines[i];
        let n = indentation(line);
        assert(line == other[i + by]);
        lemma_moved(lines, other, i + 1, by, open);
        lemma_moved(lines, other, i + 1, by, Some((n, begun(line))));
        if let Some((at, acc)) = open {
            lemma_moved(
                lines,
                other,
                i + 1,
                by,
                Some((at, with_line(acc, trimmed_start(line)))),
            );
        }
    }
}

/// The account whose interval was set on line `k` of its block has that interval, and the
/// accounts after it are as they were. The lines from `k + replaced` on follow the new line.
proof fn lemma_set_on_line(
    lines: Seq<Seq<char>>,
    other: Seq<Seq<char>>,
    i: int,
    k: int,
    replaced: bool,
    at: nat,
    acc: AccountView,
    interval: u64,
)
    requires
        0 <= i <= k <= lines.len(),
        replaced ==> k < lines.len() && prefixed(
            trimmed_start(lines[k]),
            "last_ok_interval:"@,
        ) && indentation(lines[k]) > at,
        other == (if replaced {
            lines.update(k, new_interval_line(at, interval))
        } else {
            lines.insert(k, new_interval_line(at, interval))
        }),
        forall|j: int|
            i <= j < k ==> idle_line(#[trigger] lines[j]) || indentation(lines[j]) > at,
        carried(
            lines,
            if replaced {
                k + 1
            } else {
                k
            },
            at,
            Some(interval),
        ) == Some(interval),
    ensures
        finished(other, i, at, acc) == with_interval(
            finished(lines, i, at, acc),
            Some(interval),
        ),
        following(other, i, at) == following(lines, i, at),
    decreases k - i,
{
    if i < k {
        assert(other[i] == lines[i]);
        assert(idle_line(lines[i]) || indentation(lines[i]) > at);
        lemma_set_on_line(lines, other, i + 1, k, replaced, at, acc, interval);
        lemma_set_on_line(
            lines,
            other,
            i + 1,
            k,
            replaced,
            at,
            with_line(acc, trimmed_start(lines[i])),
            interval,
        );
    } else {
        let new = with_interval(acc, Some(interval));
        new_line_sets_interval(at, interval, acc);
        assert(other[k] == new_interval_line(at, interval));
        assert(finished(other, k, at, acc) == finished(other, k + 1, at, new));
        assert(following(other, k, at) == following(other, k + 1, at));
        if replaced {
            let before = with_line(acc, trimmed_start(lines[k]));
            lemma_old_line(lines[k], acc);
            assert forall|j: int| k + 1 <= j < lines.len() implies #[trigger] lines[j] == other[j
                + 0] by {}
            lemma_moved(lines, other, k + 1, 0, Some((at, new)));
            assert(with_interval(new, None) =~= with_interval(acc, None));
            lemma_finished_interval(lines, k + 1, at, before, new);
            lemma_rejoin(
                finished(lines, k + 1, at, before),
                finished(lines, k + 1, at, new),
                interval,
            );
        } else {
            assert forall|j: int| k <= j < lines.len() implies #[trigger] lines[j] == other[j
                + 1] by {}
            lemma_moved(lines, other, k, 1, Some((at, new)));
            assert(with_interval(new, None) =~= with_interval(acc, None));
            lemma_finished_interval(lines, k, at, acc, new);
            lemma_rejoin(
                finished(lines, k, at, acc),
                finished(lines, k, at, new),
                interval,
            );
        }
    }
}

/// An account is its interval and the rest.
proof fn lemma_rejoin(a: AccountView, b: AccountView, interval: u64)
    requires
        with_interval(a, None) == with_interval(b, None),
        b.last_ok_interval == Some(interval),
    ensures
        b == with_interval(a, Some(interval)),
{
    let x = with_interval(a, None);
    let y = with_interval(b, None);
    assert(x.email == y.email && x.label == y.label && x.server == y.server && x.port == y.port
        && x.password == y.password && x.poll_interval == y.poll_interval);
    assert(b =~= with_interval(a, Some(interval)));
}

/// The line that sets the interval is in the block.
proof fn lemma_interval_line(lines: Seq<Seq<char>>, from: int, to: int)
    ensures
        interval_line(lines, from, to) matches Some(k) ==> from <= k < to && prefixed(
            trimmed_start(lines[k]),
            "last_ok_interval:"@,
        ),
    decreases to - from,
{
    if from < to && !prefixed(trimmed_start(lines[from]), "last_ok_interval:"@) {
        lemma_interval_line(lines, from + 1, to);
    }
}

/// Where the lines that follow the interval's line go on, in the file before it is written.
pub open spec fn after_interval(lines: Seq<Seq<char>>, start: int) -> int {
    let at = indentation(lines[start]);
    match interval_line(lines, start + 1, account_end(lines, at, start + 1)) {
        Some(k) => k + 1,
        None => block_end(lines, at, start + 1),
    }
}

/// Saving an interval keeps every line of the file but one: the first line of the account that set
/// the interval is replaced, or else one line is added at the end of its block.
pub proof fn save_keeps_other_lines(text: Seq<char>, key: Seq<char>, interval: u64)
    requires
        saved(text, key, interval) is Some,
    ensures
        ({
            let lines = pieces(text, '\n');
            let start = block_start(lines, key, 0)->0;
            let at = indentation(lines[start]);
            let end = block_end(lines, at, start + 1);
            let last = account_end(lines, at, start + 1);
            let line = new_interval_line(at, interval);
            &&& 0 <= start < end <= lines.len()
            &&& last <= lines.len()
            &&& names_account(lines[start], key)
            &&& pieces(saved(text, key, interval)->0, '\n') == with_interval_line(
                lines,
                start,
                interval,
            )
            &&& match interval_line(lines, start + 1, last) {
                Some(k) => start < k < last && pieces(saved(text, key, interval)->0, '\n')
                    == lines.update(k, line),
                None => pieces(saved(text, key, interval)->0, '\n') == lines.insert(end, line),
            }
        }),
{
    let lines = pieces(text, '\n');
    let start = block_start(lines, key, 0)->0;
    lemma_block_start(lines, key, 0);
    let at = indentation(lines[start]);
    let end = block_end(lines, at, start + 1);
    let last = account_end(lines, at, start + 1);
    let line = new_interval_line(at, interval);
    lemma_block_end(lines, at, start + 1);
    lemma_account_end(lines, at, start + 1);
    lemma_interval_line(lines, start + 1, last);
    lemma_pieces(text, '\n', 0);
    new_line_sets_interval(at, interval, fresh_account());
    let other = with_interval_line(lines, start, interval);
    assert forall|i: int| 0 <= i < other.len() implies !(#[trigger] other[i]).contains('\n') by {
        match interval_line(lines, start + 1, last) {
            Some(k) => {
                if i != k {
                    assert(other[i] == lines[i]);
                }
            },
            None => {
                if i < end {
                    assert(other[i] == lines[i]);
                } else if i > end {
                    assert(other[i] == lines[i - 1]);
                }
            },
        }
    }
    split_after_join(other, '\n');
}

/// The item that is found names the account.
proof fn lemma_block_start(lines: Seq<Seq<char>>, key: Seq<char>, from: int)
    requires
        0 <= from,
    ensures
        block_start(lines, key, from) matches Some(i) ==> from <= i < lines.len() && names_account(
            lines[i],
            key,
        ),
    decreases lines.len() - from,
{
    if from < lines.len() && !names_account(lines[from], key) {
        lemma_block_start(lines, key, from + 1);
    }
}

/// Two lists of accounts that differ in the interval of `acc`, which comes after `before`
/// and before `after`. An account that is not usable is in neither.
pub open spec fn only_interval_set(
    was: Seq<AccountView>,
    then: Seq<AccountView>,
    before: Seq<AccountView>,
    acc: AccountView,
    after: Seq<AccountView>,
    interval: u64,
) -> bool {
    &&& was == before + kept(acc) + after
    &&& then == before + kept(with_interval(acc, Some(interval))) + after
}

/// The interval that was saved is the interval that is read after a restart: the account has
/// it, and all else that it had, and the other accounts are as they were. The line that names
/// the account has to start an account of the list, and no later line of the account may set
/// another interval.
pub proof fn saved_interval_is_read_back(text: Seq<char>, key: Seq<char>, interval: u64)
    requires
        saved(text, key, interval) is Some,
        begins_account(pieces(text, '\n'), block_start(pieces(text, '\n'), key, 0)->0),
        ({
            let lines = pieces(text, '\n');
            let start = block_start(lines, key, 0)->0;
            carried(
                lines,
                after_interval(lines, start),
                indentation(lines[start]),
                Some(interval),
            ) == Some(interval)
        }),
    ensures
        exists|before: Seq<AccountView>, after: Seq<AccountView>|
            only_interval_set(
                accounts_of(text),
                accounts_of(saved(text, key, interval)->0),
                before,
                account_at(pieces(text, '\n'), block_start(pieces(text, '\n'), key, 0)->0),
                after,
                interval,
            ),
{
    let lines = pieces(text, '\n');
    let start = block_start(lines, key, 0)->0;
    let at = indentation(lines[start]);
    let end = block_end(lines, at, start + 1);
    let new = saved(text, key, interval)->0;
    let other = with_interval_line(lines, start, interval);
    save_keeps_other_lines(text, key, interval);
    lemma_accounts_in_pieces(text);
    lemma_accounts_in_pieces(new);
    lemma_block_end(lines, at, start + 1);
    let last = account_end(lines, at, start + 1);
    lemma_account_end(lines, at, start + 1);
    lemma_interval_line(lines, start + 1, last);
    let (k, replaced) = match interval_line(lines, start + 1, last) {
        Some(k) => (k, true),
        None => (end, false),
    };
    if replaced {
        lemma_old_line(lines[k], fresh_account());
    }
    assert forall|j: int| 0 <= j <= start implies #[trigger] lines[j] == other[j] by {}
    // Up to the item of the account nothing has changed.
    let a = key_line(lines, "accounts:"@, 0)->0;
    lemma_key_bound(lines, 0);
    lemma_key_same(lines, other, 0, start);
    lemma_reached_same(lines, other, a + 1, None, start);
    lemma_reached(lines, a + 1, None, start);
    lemma_reached(other, a + 1, None, start);
    let (done, open) = reached(lines, a + 1, None, start)->0;
    // The account itself.
    let b = begun(lines[start]);
    lemma_finished(lines, start + 1, at, b);
    lemma_finished(other, start + 1, at, b);
    lemma_set_on_line(lines, other, start + 1, k, replaced, at, b, interval);
    lemma_item_not_idle(lines[start]);
    let before = done + closed_account(open);
    let after = following(lines, start + 1, at);
    let acc = account_at(lines, start);
    assert(accounts_from(lines, start, open) == closed_account(open) + (kept(acc) + after));
    assert(accounts_from(other, start, open) == closed_account(open) + (kept(
        with_interval(acc, Some(interval)),
    ) + after));
    assert(accounts_of(text) =~= before + kept(acc) + after);
    assert(accounts_of(new) =~= before + kept(with_interval(acc, Some(interval))) + after);
    assert(only_interval_set(accounts_of(text), accounts_of(new), before, acc, after, interval));
}

/// An item is no comment.
proof fn lemma_item_not_idle(line: Seq<char>)
    requires
        item_line(line),
    ensures
        !idle_line(line),
{
    reveal_strlit("- ");
    let t = trimmed_start(line);
    lemma_blank(line);
    assert(t.subrange(0, 2)[0] == t[0]);
}

} // verus!
