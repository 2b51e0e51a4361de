//! Character sets: from the bytes of a mail to text.
use encoding::all::GB18030;
use encoding::{DecoderTrap, Encoding};
use vstd::prelude::*;
use vstd::utf8::{
    decode_utf8, decode_utf8_encode_utf8, encode_utf8, encode_utf8_decode_utf8,
    encode_utf8_valid_utf8, is_ascii_chars, is_ascii_chars_encode_utf8, valid_utf8,
};

use crate::text::{
    ascii_lower, chars_of, cut_end, cut_start, from_class, is_space, is_text, lemma_end_of_is,
    lemma_next_is, lemma_trimmed_is, lower, to_ascii_lower, trim, trimmed, upto_class, Class,
};
use crate::unicode::{from_utf8_lossy, lossy_text};

verus! {

// ───────────────────────── GB18030 ─────────────────────────

/// The text that GB18030 reads from bytes, with U+FFFD for what it cannot read.
pub uninterp spec fn gb18030(b: Seq<u8>) -> Seq<char>;

/// Each byte read as the character of the same number.
pub open spec fn latin1(b: Seq<u8>) -> Seq<char> {
    Seq::new(b.len(), |i: int| b[i] as char)
}

/// Bytes of the ASCII range.
pub open spec fn is_ascii_bytes(b: Seq<u8>) -> bool {
    forall|i: int| 0 <= i < b.len() ==> #[trigger] b[i] < 0x80
}

/// `encoding::Encoding::decode` of `encoding::all::GB18030`, with the trap that puts U+FFFD
/// in the place of a malformed sequence. That trap lets no error end the decoding, so there
/// always is a text; bytes below 0x80 stand for the characters of the same number. What the
/// other bytes stand for is left to the name `gb18030`.
#[verifier::external_body]
pub(crate) fn gb18030_decode(raw: &[u8]) -> (r: Option<String>)
    ensures
        r is Some,
        r->0@ == gb18030(raw@),
        is_ascii_bytes(raw@) ==> r->0@ == latin1(raw@),
{
    GB18030.decode(raw, DecoderTrap::Replace).ok()
}

// ───────────────────────── labels ─────────────────────────

/// The ways to read bytes that charset labels name.
#[derive(Clone, Copy)]
pub enum Charset {
    Utf8,
    Latin1,
    Gbk,
}

/// A charset label without its quotes, the white space around it, and capitals.
pub open spec fn bare_label(label: Seq<char>) -> Seq<char> {
    let l = trimmed(ascii_lower(label));
    trimmed(upto_class(from_class(l, Class::NonQuote), Class::NonQuote))
}

/// What a charset label stands for. A label that is not listed here stands for nothing.
pub open spec fn charset_of(label: Seq<char>) -> Option<Charset> {
    let l = bare_label(label);
    if l == "utf-8"@ || l == "utf8"@ || l == "us-ascii"@ || l == "ascii"@ {
        Some(Charset::Utf8)
    } else if l == "iso-8859-1"@ || l == "latin1"@ || l == "windows-1252"@ || l == "cp1252"@ || l
        == "iso8859-1"@ {
        Some(Charset::Latin1)
    } else if l == "gbk"@ || l == "gb2312"@ || l == "gb18030"@ || l == "gb_2312"@ || l == "x-gbk"@
        || l == "hz"@ {
        Some(Charset::Gbk)
    } else {
        None
    }
}

/// What the charset label `label` stands for.
pub fn classify_charset(label: &[char]) -> (r: Option<Charset>)
    ensures
        r == charset_of(label@),
{
    let low: Vec<char> = to_ascii_lower(label);
    let l: &[char] = trim(low.as_slice());
    let l: &[char] = cut_end(cut_start(l, Class::NonQuote), Class::NonQuote);
    let l: &[char] = trim(l);
    if is_text(l, "utf-8") || is_text(l, "utf8") || is_text(l, "us-ascii") || is_text(l, "ascii") {
        Some(Charset::Utf8)
    } else if is_text(l, "iso-8859-1") || is_text(l, "latin1") || is_text(l, "windows-1252")
        || is_text(l, "cp1252") || is_text(l, "iso8859-1") {
        Some(Charset::Latin1)
    } else if is_text(l, "gbk") || is_text(l, "gb2312") || is_text(l, "gb18030")
        || is_text(l, "gb_2312") || is_text(l, "x-gbk") || is_text(l, "hz") {
        Some(Charset::Gbk)
    } else {
        None
    }
}

// ───────────────────────── decoding ─────────────────────────

/// The text that GB18030 reads from bytes: ASCII is itself.
pub open spec fn gbk_text(b: Seq<u8>) -> Seq<char> {
    if is_ascii_bytes(b) {
        latin1(b)
    } else {
        gb18030(b)
    }
}

/// The text that the charset `c` reads from bytes.
pub open spec fn text_in(c: Charset, b: Seq<u8>) -> Seq<char> {
    match c {
        Charset::Utf8 => lossy_text(b),
        Charset::Latin1 => latin1(b),
        Charset::Gbk => gbk_text(b),
    }
}

/// The text that the declared charset reads from bytes. GB18030 serves where none is declared, or
/// one that is not known, and for bytes that are declared as UTF-8 and are not.
pub open spec fn charset_text(b: Seq<u8>, label: Option<Seq<char>>) -> Seq<char> {
    let known = match label {
        Some(l) => charset_of(l),
        None => None,
    };
    match known {
        Some(Charset::Utf8) => if valid_utf8(b) {
            decode_utf8(b)
        } else {
            gbk_text(b)
        },
        Some(c) => text_in(c, b),
        None => gbk_text(b),
    }
}

/// Reads each byte as the character of the same number.
pub fn latin1_decode(raw: &[u8]) -> (r: Vec<char>)
    ensures
        r@ == latin1(raw@),
{
    let mut out: Vec<char> = Vec::new();
    let mut i: usize = 0;
    while i < raw.len()
        invariant
            i <= raw@.len(),
            out@ == latin1(raw@).take(i as int),
        decreases raw.len() - i,
    {
        assert(latin1(raw@).take(i + 1) =~= latin1(raw@).take(i as int).push(
            raw@[i as int] as char,
        ));
        out.push(raw[i] as char);
        i += 1;
    }
    assert(latin1(raw@).take(i as int) =~= latin1(raw@));
    out
}

/// Reads bytes as GB18030, which holds GBK.
pub fn gbk_decode(raw: &[u8]) -> (r: String)
    ensures
        r@ == gbk_text(raw@),
{
    match gb18030_decode(raw) {
        Some(s) => s,
        None => from_utf8_lossy(raw),
    }
}

/// Reads bytes in the charset `c`.
pub fn decode_in(c: Charset, raw: &[u8]) -> (r: Vec<char>)
    ensures
        r@ == text_in(c, raw@),
{
    match c {
        Charset::Utf8 => chars_of(from_utf8_lossy(raw).as_str()),
        Charset::Latin1 => latin1_decode(raw),
        Charset::Gbk => chars_of(gbk_decode(raw).as_str()),
    }
}

/// Whether two slices hold the same bytes.
fn same_bytes(a: &[u8], b: &[u8]) -> (r: bool)
    ensures
        r == (a@ == b@),
{
    if a.len() != b.len() {
        return false;
    }
    let mut i: usize = 0;
    while i < a.len()
        invariant
            i <= a@.len(),
            a@.len() == b@.len(),
            forall|j: int| 0 <= j < i ==> a@[j] == #[trigger] b@[j],
        decreases a.len() - i,
    {
        if a[i] != b[i] {
            return false;
        }
        i += 1;
    }
    assert(a@ =~= b@);
    true
}

/// Reads bytes as UTF-8, where all of them are. Only then does the text that they are read as
/// stand for the same bytes again.
pub fn utf8_decode(raw: &[u8]) -> (r: Option<String>)
    ensures
        match r {
            Some(s) => valid_utf8(raw@) && s@ == decode_utf8(raw@),
            None => !valid_utf8(raw@),
        },
{
    let s: String = from_utf8_lossy(raw);
    proof {
        encode_utf8_valid_utf8(s@);
        if valid_utf8(raw@) {
            decode_utf8_encode_utf8(raw@);
        }
    }
    if same_bytes(s.as_str().as_bytes(), raw) {
        Some(s)
    } else {
        None
    }
}

/// Reads bytes in the charset that `charset` declares, where one is declared and known and does
/// read them, and as GB18030 otherwise.
pub fn decode_charset(raw: &[u8], charset: Option<&[char]>) -> (r: Vec<char>)
    ensures
        r@ == charset_text(
            raw@,
            match charset {
                Some(l) => Some(l@),
                None => None,
            },
        ),
{
    let known: Option<Charset> = match charset {
        Some(l) => classify_charset(l),
        None => None,
    };
    match known {
        Some(Charset::Utf8) => match utf8_decode(raw) {
            Some(s) => chars_of(s.as_str()),
            None => chars_of(gbk_decode(raw).as_str()),
        },
        Some(c) => decode_in(c, raw),
        None => chars_of(gbk_decode(raw).as_str()),
    }
}

// ───────────────────────── laws ─────────────────────────

/// A word that can be a label: no white space, no quotes.
pub open spec fn label_word(label: Seq<char>) -> bool {
    &&& label.len() > 0
    &&& forall|i: int| 0 <= i < label.len() ==> !is_space(#[trigger] label[i]) && label[i] != '"'
}

/// White space around a label.
pub open spec fn around(pad: Seq<char>) -> bool {
    forall|i: int| 0 <= i < pad.len() ==> is_space(#[trigger] pad[i])
}

proof fn lemma_bare_label(before: Seq<char>, q: Seq<char>, label: Seq<char>, after: Seq<char>)
    requires
        around(before),
        around(after),
        q == Seq::<char>::empty() || q == seq!['"'],
        label_word(label),
    ensures
        bare_label(before + q + label + q + after) == ascii_lower(label),
{
    let s = before + q + label + q + after;
    let low = ascii_lower(s);
    let core = q + label + q;
    let inner = ascii_lower(label);
    let a = before.len() as int;
    let b = a + core.len();
    assert forall|i: int| 0 <= i < a implies is_space(#[trigger] low[i]) by {
        assert(s[i] == before[i]);
    }
    assert forall|i: int| b <= i < low.len() implies is_space(#[trigger] low[i]) by {
        assert(s[i] == after[i - b]);
    }
    assert(s[a] == core[0]);
    assert(s[b - 1] == core[core.len() - 1]);
    if q.len() == 0 {
        assert(core[0] == label[0]);
        assert(core[core.len() - 1] == label[label.len() - 1]);
    }
    lemma_trimmed_is(low, a, b);
    let l = low.subrange(a, b);
    let n = q.len() as int;
    let m = label.len() as int;
    assert forall|i: int| 0 <= i < l.len() implies #[trigger] l[i] == lower(core[i]) by {
        assert(s[a + i] == core[i]);
    }
    assert forall|i: int| n <= i < n + m implies #[trigger] l[i] == inner[i - n] by {
        assert(core[i] == label[i - n]);
    }
    assert forall|i: int| 0 <= i < m implies !is_space(#[trigger] inner[i]) && inner[i] != '"' by {
        assert(!is_space(label[i]));
    }
    if n == 1 {
        assert(core[0] == '"');
        assert(core[m + 1] == '"');
    }
    assert(l[n] == inner[0]);
    lemma_next_is(l, Class::NonQuote, 0, n);
    let t = l.subrange(n, l.len() as int);
    assert(t[m - 1] == inner[m - 1]);
    if n == 1 {
        assert(t[m] == '"');
    }
    lemma_end_of_is(t, Class::NonQuote, m);
    assert(t.subrange(0, m) =~= inner);
    lemma_trimmed_is(inner, 0, m);
    assert(inner.subrange(0, m) =~= inner);
}

/// The labels of UTF-8, with ASCII, which it holds.
pub open spec fn utf8_labels() -> Seq<Seq<char>> {
    seq!["utf-8"@, "utf8"@, "us-ascii"@, "ascii"@]
}

/// The labels of Latin-1.
pub open spec fn latin1_labels() -> Seq<Seq<char>> {
    seq!["iso-8859-1"@, "iso8859-1"@, "latin1"@, "windows-1252"@, "cp1252"@]
}

/// The labels of the Chinese character sets.
pub open spec fn chinese_labels() -> Seq<Seq<char>> {
    seq!["gb18030"@, "gbk"@, "x-gbk"@, "gb2312"@, "gb_2312"@, "hz"@]
}

/// The labels name what they are known for, in any case, with or without quotes, and with or without
/// white space around them; and no other word names anything.
pub proof fn labels_name_character_sets(
    before: Seq<char>,
    in_quotes: bool,
    label: Seq<char>,
    after: Seq<char>,
)
    requires
        around(before),
        around(after),
        label_word(label),
    ensures
        ({
            let q = if in_quotes {
                seq!['"']
            } else {
                Seq::<char>::empty()
            };
            let c = charset_of(before + q + label + q + after);
            let low = ascii_lower(label);
            &&& c == Some(Charset::Utf8) <==> utf8_labels().contains(low)
            &&& c == Some(Charset::Latin1) <==> latin1_labels().contains(low)
            &&& c == Some(Charset::Gbk) <==> chinese_labels().contains(low)
        }),
{
    let q = if in_quotes {
        seq!['"']
    } else {
        Seq::<char>::empty()
    };
    lemma_bare_label(before, q, label, after);
    let u = utf8_labels();
    let l = latin1_labels();
    let g = chinese_labels();
    assert(u[0] == "utf-8"@ && u[1] == "utf8"@ && u[2] == "us-ascii"@ && u[3] == "ascii"@);
    assert(l[0] == "iso-8859-1"@ && l[1] == "iso8859-1"@ && l[2] == "latin1"@ && l[3]
        == "windows-1252"@ && l[4] == "cp1252"@);
    assert(g[0] == "gb18030"@ && g[1] == "gbk"@ && g[2] == "x-gbk"@ && g[3] == "gb2312"@ && g[4]
        == "gb_2312"@ && g[5] == "hz"@);
    reveal_strlit("utf-8");
    reveal_strlit("utf8");
    reveal_strlit("us-ascii");
    reveal_strlit("ascii");
    reveal_strlit("iso-8859-1");
    reveal_strlit("iso8859-1");
    reveal_strlit("latin1");
    reveal_strlit("windows-1252");
    reveal_strlit("cp1252");
    reveal_strlit("gb18030");
    reveal_strlit("gbk");
    reveal_strlit("x-gbk");
    reveal_strlit("gb2312");
    reveal_strlit("gb_2312");
    reveal_strlit("hz");
    assert("utf-8"@[0] == 'u' && "utf8"@[0] == 'u' && "us-ascii"@[0] == 'u' && "ascii"@[0] == 'a');
    assert("iso-8859-1"@[0] == 'i' && "iso8859-1"@[0] == 'i' && "latin1"@[0] == 'l'
        && "windows-1252"@[0] == 'w' && "cp1252"@[0] == 'c');
    assert("gb18030"@[0] == 'g' && "gbk"@[0] == 'g' && "x-gbk"@[0] == 'x' && "gb2312"@[0] == 'g'
        && "gb_2312"@[0] == 'g' && "hz"@[0] == 'h');
}

/// A text that is sent in UTF-8 and declared so is read as it was; bytes that are declared as Latin-1
/// are read one by one; and where nothing known is declared, or bytes are no UTF-8 though they are
/// said to be, they are read as Chinese, of which ASCII is a part.
pub proof fn bytes_are_read_as_declared(text: Seq<char>, b: Seq<u8>, label: Seq<char>)
    ensures
        charset_of(label) == Some(Charset::Utf8) ==> charset_text(encode_utf8(text), Some(label))
            == text,
        charset_of(label) == Some(Charset::Utf8) && !valid_utf8(b) ==> charset_text(b, Some(label))
            == gb18030(b),
        charset_of(label) == Some(Charset::Latin1) ==> charset_text(b, Some(label)).len() == b.len()
            && forall|i: int|
            0 <= i < b.len() ==> #[trigger] charset_text(b, Some(label))[i] as int == b[i],
        charset_of(label) is None || charset_of(label) == Some(Charset::Gbk) ==> charset_text(
            b,
            Some(label),
        ) == charset_text(b, None),
        is_ascii_chars(text) ==> charset_text(encode_utf8(text), None) == text,
        (exists|i: int| 0 <= i < b.len() && #[trigger] b[i] >= 0x80) ==> charset_text(b, None)
            == gb18030(b),
{
    encode_utf8_valid_utf8(text);
    encode_utf8_decode_utf8(text);
    if is_ascii_chars(text) {
        is_ascii_chars_encode_utf8(text);
        let e = encode_utf8(text);
        assert forall|i: int| 0 <= i < e.len() implies #[trigger] e[i] < 0x80 by {
            assert(text[i] <= '\u{7f}');
        }
        assert(latin1(e) =~= text);
    }
    if is_ascii_bytes(b) {
        let t = latin1(b);
        assert forall|i: int| 0 <= i < t.len() implies '\0' <= #[trigger] t[i] <= '\u{7f}' by {
            assert(b[i] < 0x80);
        }
        assert(is_ascii_chars(t));
        is_ascii_chars_encode_utf8(t);
        assert(encode_utf8(t) =~= b);
        encode_utf8_valid_utf8(t);
    }
}

} // verus!
