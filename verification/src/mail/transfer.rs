//! Transfer encodings: base64 and quoted-printable.
use base64::engine::general_purpose::STANDARD;
use base64::Engine;
use vstd::prelude::*;

use crate::number::{hex_digit, hex_pair, hex_value, lemma_hex_digit, read_hex_pair};

verus! {

// ───────────────────────── base64 ─────────────────────────

/// The letter of the standard alphabet for a number below 64.
pub open spec fn base64_letter(n: int) -> u8 {
    if n < 26 {
        (65 + n) as u8
    } else if n < 52 {
        (97 + n - 26) as u8
    } else if n < 62 {
        (48 + n - 52) as u8
    } else if n == 62 {
        43
    } else {
        47
    }
}

/// The first three bytes, or as many as there are, as standard base64 writes them: four letters,
/// with `=` for those that nothing is left for.
pub open spec fn base64_group(b: Seq<u8>) -> Seq<u8> {
    let x = b[0] as int;
    let y = if b.len() > 1 {
        b[1] as int
    } else {
        0
    };
    let z = if b.len() > 2 {
        b[2] as int
    } else {
        0
    };
    seq![
        base64_letter(x / 4),
        base64_letter(x % 4 * 16 + y / 16),
        if b.len() > 1 {
            base64_letter(y % 16 * 4 + z / 64)
        } else {
            0x3d
        },
        if b.len() > 2 {
            base64_letter(z % 64)
        } else {
            0x3d
        },
    ]
}

/// Bytes as standard base64 writes them.
pub open spec fn base64_written(b: Seq<u8>) -> Seq<u8>
    decreases b.len(),
{
    if b.len() == 0 {
        seq![]
    } else if b.len() <= 3 {
        base64_group(b)
    } else {
        base64_group(b) + base64_written(b.subrange(3, b.len() as int))
    }
}

/// `base64::Engine::decode` of the engine `base64::engine::general_purpose::STANDARD`. It reads
/// back what the standard encoding, with padding, writes, and fails on anything else: it wants
/// the padding that belongs there, and no bits set that stand for nothing.
#[verifier::external_body]
pub(crate) fn base64_decode(data: &[u8]) -> (r: Option<Vec<u8>>)
    ensures
        match r {
            Some(v) => data@ == base64_written(v@),
            None => forall|b: Seq<u8>| data@ != #[trigger] base64_written(b),
        },
{
    STANDARD.decode(data).ok()
}

/// The bytes that base64 reads from `s`: those that it was written for; `None` where it is the
/// standard encoding of none.
pub open spec fn base64_read(s: Seq<u8>) -> Option<Seq<u8>> {
    if exists|b: Seq<u8>| s == #[trigger] base64_written(b) {
        Some(choose|b: Seq<u8>| s == #[trigger] base64_written(b))
    } else {
        None
    }
}

/// The white space of the ASCII range.
pub open spec fn is_space_byte(b: u8) -> bool {
    b == 32 || b == 9 || b == 10 || b == 12 || b == 13
}

/// `b` without white space.
pub open spec fn dense(b: Seq<u8>) -> Seq<u8>
    decreases b.len(),
{
    if b.len() == 0 {
        seq![]
    } else if is_space_byte(b.last()) {
        dense(b.drop_last())
    } else {
        dense(b.drop_last()).push(b.last())
    }
}

/// What base64 reads from `b`, white space aside; where it reads nothing, `b` itself without
/// its white space.
pub open spec fn base64_bytes(b: Seq<u8>) -> Seq<u8> {
    match base64_read(dense(b)) {
        Some(d) => d,
        None => dense(b),
    }
}

/// `body` without white space.
pub fn drop_space(body: &[u8]) -> (r: Vec<u8>)
    ensures
        r@ == dense(body@),
{
    let mut out: Vec<u8> = Vec::new();
    let mut i: usize = 0;
    while i < body.len()
        invariant
            i <= body@.len(),
            out@ == dense(body@.take(i as int)),
        decreases body.len() - i,
    {
        assert(body@.take(i + 1).drop_last() =~= body@.take(i as int));
        let b: u8 = body[i];
        if !(b == 32 || b == 9 || b == 10 || b == 12 || b == 13) {
            out.push(b);
        }
        i += 1;
    }
    assert(body@.take(i as int) =~= body@);
    out
}

/// Decodes base64. What cannot be decoded is given back without its white space.
pub fn decode_base64_bytes(body: &[u8]) -> (r: Vec<u8>)
    ensures
        r@ == base64_bytes(body@),
{
    let filtered: Vec<u8> = drop_space(body);
    match base64_decode(filtered.as_slice()) {
        Some(v) => {
            proof {
                let c = choose|c: Seq<u8>| filtered@ == #[trigger] base64_written(c);
                lemma_base64_written(v@, c);
            }
            v
        },
        None => filtered,
    }
}

// ───────────────────────── quoted-printable ─────────────────────────

/// The bytes that quoted-printable reads from `b`: `=` and a line end are nothing, `=` and
/// two hexadecimal digits are one byte, everything else is itself.
pub open spec fn quoted_printable(b: Seq<u8>) -> Seq<u8> {
    quoted_printable_from(b, 0)
}

pub open spec fn quoted_printable_from(b: Seq<u8>, i: int) -> Seq<u8>
    decreases b.len() - i,
{
    if i < 0 || i >= b.len() {
        seq![]
    } else if b[i] == 0x3d && i + 1 < b.len() && b[i + 1] == 10 {
        quoted_printable_from(b, i + 2)
    } else if b[i] == 0x3d && i + 2 < b.len() && b[i + 1] == 13 && b[i + 2] == 10 {
        quoted_printable_from(b, i + 3)
    } else if b[i] == 0x3d && hex_pair(b, i + 1) is Some {
        seq![hex_pair(b, i + 1)->0] + quoted_printable_from(b, i + 3)
    } else {
        seq![b[i]] + quoted_printable_from(b, i + 1)
    }
}

/// The bytes that the Q encoding of header words reads from `b`: quoted-printable without
/// soft line ends, in which `_` is a space.
pub open spec fn q_word(b: Seq<u8>) -> Seq<u8> {
    q_word_from(b, 0)
}

pub open spec fn q_word_from(b: Seq<u8>, i: int) -> Seq<u8>
    decreases b.len() - i,
{
    if i < 0 || i >= b.len() {
        seq![]
    } else if b[i] == 0x5f {
        seq![0x20u8] + q_word_from(b, i + 1)
    } else if b[i] == 0x3d && hex_pair(b, i + 1) is Some {
        seq![hex_pair(b, i + 1)->0] + q_word_from(b, i + 3)
    } else {
        seq![b[i]] + q_word_from(b, i + 1)
    }
}

/// Decodes quoted-printable.
pub fn decode_qp(body: &[u8]) -> (r: Vec<u8>)
    ensures
        r@ == quoted_printable(body@),
{
    let mut out: Vec<u8> = Vec::new();
    let mut i: usize = 0;
    while i < body.len()
        invariant
            i <= body@.len(),
            quoted_printable(body@) =~= out@ + quoted_printable_from(body@, i as int),
        decreases body.len() - i,
    {
        let b: u8 = body[i];
        let left: usize = body.len() - i;
        if b == 0x3d && left > 1 && body[i + 1] == 10 {
            i += 2;
        } else if b == 0x3d && left > 2 && body[i + 1] == 13 && body[i + 2] == 10 {
            i += 3;
        } else if b == 0x3d && left > 1 {
            match read_hex_pair(body, i + 1) {
                Some(x) => {
                    out.push(x);
                    i += 3;
                },
                None => {
                    out.push(b);
                    i += 1;
                },
            }
        } else {
            out.push(b);
            i += 1;
        }
    }
    out
}

/// Decodes the Q encoding of a header word.
pub fn decode_qp_word(text: &[u8]) -> (r: Vec<u8>)
    ensures
        r@ == q_word(text@),
{
    let mut out: Vec<u8> = Vec::new();
    let mut i: usize = 0;
    while i < text.len()
        invariant
            i <= text@.len(),
            q_word(text@) =~= out@ + q_word_from(text@, i as int),
        decreases text.len() - i,
    {
        let b: u8 = text[i];
        if b == 0x5f {
            out.push(0x20);
            i += 1;
        } else if b == 0x3d && text.len() - i > 1 {
            match read_hex_pair(text, i + 1) {
                Some(x) => {
                    out.push(x);
                    i += 3;
                },
                None => {
                    out.push(b);
                    i += 1;
                },
            }
        } else {
            out.push(b);
            i += 1;
        }
    }
    out
}

// ───────────────────────── laws ─────────────────────────

/// Quoted-printable leaves alone what holds no `=`.
pub proof fn quoted_printable_plain(b: Seq<u8>)
    requires
        forall|i: int| 0 <= i < b.len() ==> #[trigger] b[i] != 0x3d,
    ensures
        quoted_printable(b) == b,
{
    lemma_quoted_printable_plain(b, 0);
    assert(b.subrange(0, b.len() as int) =~= b);
}

proof fn lemma_quoted_printable_plain(b: Seq<u8>, i: int)
    requires
        0 <= i <= b.len(),
        forall|k: int| 0 <= k < b.len() ==> #[trigger] b[k] != 0x3d,
    ensures
        quoted_printable_from(b, i) == b.subrange(i, b.len() as int),
    decreases b.len() - i,
{
    if i < b.len() {
        lemma_quoted_printable_plain(b, i + 1);
        assert(b.subrange(i, b.len() as int) =~= seq![b[i]] + b.subrange(i + 1, b.len() as int));
    } else {
        assert(b.subrange(i, b.len() as int) =~= seq![]);
    }
}

/// Bytes, each written as `=` and two hexadecimal digits.
pub open spec fn quoted(b: Seq<u8>) -> Seq<u8>
    decreases b.len(),
{
    if b.len() == 0 {
        seq![]
    } else {
        seq![0x3du8, hex_digit(b[0] as int / 16), hex_digit(b[0] as int % 16)] + quoted(
            b.drop_first(),
        )
    }
}

proof fn lemma_quoted_behind(a: Seq<u8>, t: Seq<u8>, i: int)
    requires
        0 <= i <= t.len(),
    ensures
        quoted_printable_from(a + t, a.len() + i) == quoted_printable_from(t, i),
        q_word_from(a + t, a.len() + i) == q_word_from(t, i),
    decreases t.len() - i,
{
    if i < t.len() {
        let s = a + t;
        assert(s[a.len() + i] == t[i]);
        if i + 1 < t.len() {
            assert(s[a.len() + i + 1] == t[i + 1]);
            lemma_quoted_behind(a, t, i + 2);
        }
        if i + 2 < t.len() {
            assert(s[a.len() + i + 2] == t[i + 2]);
            lemma_quoted_behind(a, t, i + 3);
        }
        lemma_quoted_behind(a, t, i + 1);
    }
}

/// Any bytes can be sent in quoted-printable, and in the Q encoding of a header word: each
/// written with its hexadecimal digits, they are read back as they were.
pub proof fn quoted_round_trip(b: Seq<u8>)
    ensures
        quoted_printable(quoted(b)) == b,
        q_word(quoted(b)) == b,
    decreases b.len(),
{
    if b.len() > 0 {
        let head = seq![0x3du8, hex_digit(b[0] as int / 16), hex_digit(b[0] as int % 16)];
        let tail = quoted(b.drop_first());
        let s = head + tail;
        quoted_round_trip(b.drop_first());
        lemma_quoted_behind(head, tail, 0);
        lemma_hex_digit(b[0] as int / 16);
        lemma_hex_digit(b[0] as int % 16);
        assert(s[0] == 0x3d);
        assert(s[1] == hex_digit(b[0] as int / 16));
        assert(s[2] == hex_digit(b[0] as int % 16));
        assert(hex_pair(s, 1) == Some(b[0]));
        assert(seq![b[0]] + b.drop_first() =~= b);
        assert(quoted_printable_from(s, 0) =~= seq![b[0]] + quoted_printable_from(s, 3));
        assert(q_word_from(s, 0) =~= seq![b[0]] + q_word_from(s, 3));
    }
}

/// A soft line end, with or without a carriage return, is no part of the text.
pub proof fn soft_line_ends_vanish(b: Seq<u8>)
    ensures
        quoted_printable(seq![0x3du8, 10u8] + b) == quoted_printable(b),
        quoted_printable(seq![0x3du8, 13u8, 10u8] + b) == quoted_printable(b),
{
    lemma_quoted_behind(seq![0x3du8, 10u8], b, 0);
    lemma_quoted_behind(seq![0x3du8, 13u8, 10u8], b, 0);
    let x = seq![0x3du8, 10u8] + b;
    let y = seq![0x3du8, 13u8, 10u8] + b;
    assert(x[0] == 0x3d && x[1] == 10);
    assert(y[0] == 0x3d && y[1] == 13 && y[2] == 10);
}

/// The letters of the alphabet differ, and none of them is white space, `=` or `?`.
proof fn lemma_base64_letter(m: int, n: int)
    requires
        0 <= m < 64,
        0 <= n < 64,
    ensures
        base64_letter(m) == base64_letter(n) ==> m == n,
        word_byte(base64_letter(m)),
        base64_letter(m) != 0x3d,
{
}

/// A byte that can stand in an encoded word: ASCII, neither white space nor `?`.
pub open spec fn word_byte(b: u8) -> bool {
    0x20 < b < 0x80 && b != 0x3f
}

/// A group of letters stands for one group of bytes only.
proof fn lemma_base64_group(a: Seq<u8>, b: Seq<u8>)
    requires
        a.len() > 0,
        b.len() > 0,
        base64_group(a) == base64_group(b),
    ensures
        a.len() <= 2 || b.len() <= 2 ==> a.len() == b.len(),
        forall|i: int| 0 <= i < 3 && i < a.len() && i < b.len() ==> #[trigger] a[i] == b[i],
{
    let y = |s: Seq<u8>| if s.len() > 1 { s[1] as int } else { 0 };
    let z = |s: Seq<u8>| if s.len() > 2 { s[2] as int } else { 0 };
    let g = base64_group(a);
    let h = base64_group(b);
    assert(g[0] == h[0] && g[1] == h[1] && g[2] == h[2] && g[3] == h[3]);
    lemma_base64_letter(a[0] as int / 4, b[0] as int / 4);
    lemma_base64_letter(a[0] as int % 4 * 16 + y(a) / 16, b[0] as int % 4 * 16 + y(b) / 16);
    lemma_base64_letter(y(a) % 16 * 4 + z(a) / 64, y(b) % 16 * 4 + z(b) / 64);
    lemma_base64_letter(y(b) % 16 * 4 + z(b) / 64, y(a) % 16 * 4 + z(a) / 64);
    lemma_base64_letter(z(a) % 64, z(b) % 64);
    lemma_base64_letter(z(b) % 64, z(a) % 64);
}

/// Different bytes are written differently.
proof fn lemma_base64_written(a: Seq<u8>, b: Seq<u8>)
    requires
        base64_written(a) == base64_written(b),
    ensures
        a == b,
    decreases a.len(),
{
    if a.len() > 0 && b.len() > 0 {
        let s = base64_written(a);
        assert(s.subrange(0, 4) =~= base64_group(a));
        assert(s.subrange(0, 4) =~= base64_group(b));
        lemma_base64_group(a, b);
        lemma_base64_len(a);
        lemma_base64_len(b);
        if a.len() > 3 && b.len() > 3 {
            let c = a.subrange(3, a.len() as int);
            let d = b.subrange(3, b.len() as int);
            assert(s.subrange(4, s.len() as int) =~= base64_written(c));
            assert(s.subrange(4, s.len() as int) =~= base64_written(d));
            lemma_base64_written(c, d);
            assert forall|i: int| 0 <= i < a.len() implies a[i] == b[i] by {
                if i >= 3 {
                    assert(a[i] == c[i - 3]);
                    assert(b[i] == d[i - 3]);
                }
            }
        }
        assert(a =~= b);
    } else {
        lemma_base64_len(a);
        lemma_base64_len(b);
        assert(a =~= b);
    }
}

/// Three bytes take four letters.
proof fn lemma_base64_len(b: Seq<u8>)
    ensures
        base64_written(b).len() == (b.len() + 2) / 3 * 4,
    decreases b.len(),
{
    if b.len() > 3 {
        lemma_base64_len(b.subrange(3, b.len() as int));
    }
}

/// Neither white space nor `?` is written.
pub proof fn lemma_base64_bytes(b: Seq<u8>)
    ensures
        forall|i: int|
            0 <= i < base64_written(b).len() ==> word_byte(#[trigger] base64_written(b)[i]),
    decreases b.len(),
{
    if b.len() > 0 {
        let g = base64_group(b);
        let y = if b.len() > 1 {
            b[1] as int
        } else {
            0
        };
        let z = if b.len() > 2 {
            b[2] as int
        } else {
            0
        };
        lemma_base64_letter(b[0] as int / 4, 0);
        lemma_base64_letter(b[0] as int % 4 * 16 + y / 16, 0);
        lemma_base64_letter(y % 16 * 4 + z / 64, 0);
        lemma_base64_letter(z % 64, 0);
        assert forall|i: int| 0 <= i < 4 implies word_byte(#[trigger] g[i]) by {}
        if b.len() > 3 {
            let rest = b.subrange(3, b.len() as int);
            lemma_base64_bytes(rest);
            assert forall|i: int| 0 <= i < base64_written(b).len() implies word_byte(
                #[trigger] base64_written(b)[i],
            ) by {
                if i >= 4 {
                    assert(base64_written(b)[i] == base64_written(rest)[i - 4]);
                } else {
                    assert(base64_written(b)[i] == g[i]);
                }
            }
        }
    }
}

/// Neither white space nor `?` is written.
pub proof fn lemma_quoted_bytes(b: Seq<u8>)
    ensures
        forall|i: int| 0 <= i < quoted(b).len() ==> word_byte(#[trigger] quoted(b)[i]),
    decreases b.len(),
{
    if b.len() > 0 {
        let tail = quoted(b.drop_first());
        lemma_quoted_bytes(b.drop_first());
        lemma_hex_digit(b[0] as int / 16);
        lemma_hex_digit(b[0] as int % 16);
        assert forall|i: int| 0 <= i < quoted(b).len() implies word_byte(#[trigger] quoted(b)[i]) by {
            if i >= 3 {
                assert(quoted(b)[i] == tail[i - 3]);
            }
        }
    }
}

proof fn lemma_dense_is(b: Seq<u8>)
    requires
        forall|i: int| 0 <= i < b.len() ==> #[trigger] b[i] > 0x20,
    ensures
        dense(b) == b,
    decreases b.len(),
{
    if b.len() > 0 {
        assert(b[b.len() - 1] > 0x20);
        lemma_dense_is(b.drop_last());
        assert(b.drop_last().push(b.last()) =~= b);
    }
}

/// Any bytes can be sent in base64: written in the standard way, with whatever white space in
/// it, they are read back as they were.
pub proof fn base64_round_trip(b: Seq<u8>, s: Seq<u8>)
    ensures
        base64_bytes(base64_written(b)) == b,
        dense(s) == base64_written(b) ==> base64_bytes(s) == b,
{
    lemma_base64_bytes(b);
    assert forall|i: int| 0 <= i < base64_written(b).len() implies #[trigger] base64_written(b)[i]
        > 0x20 by {
        assert(word_byte(base64_written(b)[i]));
    }
    lemma_dense_is(base64_written(b));
    let c = choose|c: Seq<u8>| base64_written(b) == #[trigger] base64_written(c);
    lemma_base64_written(b, c);
}

/// Decoding base64 does not depend on the white space in it.
pub proof fn base64_ignores_space(a: Seq<u8>, space: u8, b: Seq<u8>)
    requires
        space == 32 || space == 9 || space == 10 || space == 12 || space == 13,
    ensures
        base64_bytes(a.push(space) + b) == base64_bytes(a + b),
{
    lemma_dense_concat(a.push(space), b);
    lemma_dense_concat(a, b);
    assert(a.push(space).drop_last() =~= a);
}

proof fn lemma_dense_concat(a: Seq<u8>, b: Seq<u8>)
    ensures
        dense(a + b) == dense(a) + dense(b),
    decreases b.len(),
{
    if b.len() == 0 {
        assert(a + b =~= a);
        assert(dense(a) + dense(b) =~= dense(a));
    } else {
        lemma_dense_concat(a, b.drop_last());
        assert((a + b).drop_last() =~= a + b.drop_last());
        assert((a + b).last() == b.last());
        assert(dense(a + b) =~= dense(a) + dense(b));
    }
}

/// What is no base64 stays as it is, without its white space; and nothing but white space is left
/// out.
pub proof fn other_bytes_stay(b: Seq<u8>)
    requires
        forall|i: int| 0 <= i < b.len() ==> #[trigger] b[i] > 0x20,
        forall|t: Seq<u8>| b != #[trigger] base64_written(t),
    ensures
        base64_bytes(b) == b,
{
    lemma_dense_is(b);
}

/// Quoted-printable is read piece by piece: what holds no `=` as it is, an `=` with two hexadecimal
/// digits as the byte that they write, a soft line end as nothing, and any other `=` as itself.
pub proof fn quoted_pieces_are_read(plain: Seq<u8>, hi: u8, lo: u8, rest: Seq<u8>)
    requires
        forall|i: int| 0 <= i < plain.len() ==> #[trigger] plain[i] != 0x3d,
    ensures
        quoted_printable(plain + rest) == plain + quoted_printable(rest),
        hex_value(hi) is Some && hex_value(lo) is Some ==> quoted_printable(
            seq![0x3du8, hi, lo] + rest,
        ) == seq![(hex_value(hi)->0 * 16 + hex_value(lo)->0) as u8] + quoted_printable(rest),
        hi != 10 && hi != 13 && (hex_value(hi) is None || hex_value(lo) is None)
            ==> quoted_printable(seq![0x3du8, hi, lo] + rest) == seq![0x3du8] + quoted_printable(
            seq![hi, lo] + rest,
        ),
        quoted_printable(seq![0x3du8]) == seq![0x3du8],
{
    lemma_plain_run(plain, rest, 0);
    assert(plain.subrange(0, plain.len() as int) =~= plain);
    let s = seq![0x3du8, hi, lo] + rest;
    assert(s[0] == 0x3d && s[1] == hi && s[2] == lo);
    lemma_quoted_behind(seq![0x3du8, hi, lo], rest, 0);
    assert(s =~= seq![0x3du8] + (seq![hi, lo] + rest));
    lemma_quoted_behind(seq![0x3du8], seq![hi, lo] + rest, 0);
    reveal_with_fuel(quoted_printable_from, 2);
    assert(seq![0x3du8] + Seq::<u8>::empty() =~= seq![0x3du8]);
}

proof fn lemma_plain_run(plain: Seq<u8>, rest: Seq<u8>, i: int)
    requires
        0 <= i <= plain.len(),
        forall|k: int| 0 <= k < plain.len() ==> #[trigger] plain[k] != 0x3d,
    ensures
        quoted_printable_from(plain + rest, i) == plain.subrange(i, plain.len() as int)
            + quoted_printable_from(rest, 0),
    decreases plain.len() - i,
{
    let s = plain + rest;
    if i < plain.len() {
        assert(s[i] == plain[i]);
        lemma_plain_run(plain, rest, i + 1);
        assert(quoted_printable_from(s, i) =~= plain.subrange(i, plain.len() as int)
            + quoted_printable_from(rest, 0));
    } else {
        lemma_quoted_behind(plain, rest, 0);
        assert(plain.subrange(i, plain.len() as int) =~= seq![]);
        assert(Seq::<u8>::empty() + quoted_printable_from(rest, 0) =~= quoted_printable_from(
            rest,
            0,
        ));
    }
}

/// The words of a header are read piece by piece too: an underscore is a space, an `=` with two
/// hexadecimal digits the byte that they write, and anything else itself.
pub proof fn word_pieces_are_read(b: u8, hi: u8, lo: u8, rest: Seq<u8>)
    ensures
        q_word(seq![0x5fu8] + rest) == seq![0x20u8] + q_word(rest),
        b != 0x5f && b != 0x3d ==> q_word(seq![b] + rest) == seq![b] + q_word(rest),
        hex_value(hi) is Some && hex_value(lo) is Some ==> q_word(seq![0x3du8, hi, lo] + rest)
            == seq![(hex_value(hi)->0 * 16 + hex_value(lo)->0) as u8] + q_word(rest),
        hex_value(hi) is None || hex_value(lo) is None ==> q_word(seq![0x3du8, hi, lo] + rest)
            == seq![0x3du8] + q_word(seq![hi, lo] + rest),
{
    let u = seq![0x5fu8] + rest;
    assert(u[0] == 0x5f);
    lemma_quoted_behind(seq![0x5fu8], rest, 0);
    let x = seq![b] + rest;
    assert(x[0] == b);
    lemma_quoted_behind(seq![b], rest, 0);
    let s = seq![0x3du8, hi, lo] + rest;
    assert(s[0] == 0x3d && s[1] == hi && s[2] == lo);
    lemma_quoted_behind(seq![0x3du8, hi, lo], rest, 0);
    assert(s =~= seq![0x3du8] + (seq![hi, lo] + rest));
    lemma_quoted_behind(seq![0x3du8], seq![hi, lo] + rest, 0);
}

} // verus!
