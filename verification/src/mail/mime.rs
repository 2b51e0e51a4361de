//! The structure of a mail: header lines, parameters, head and body, and the parts of a
//! multipart body.
use vstd::prelude::*;
use vstd::slice::slice_subrange;

use crate::lines::{cut, drop_cr, pieces, split, split_once, without_cr};
use crate::text::{
    ascii_lower, ascii_whitespace, chars_of, cut_end, find, find_class, found, is_ascii_space,
    is_text, next, occurs, occurs_ci, push_all, push_text, stands_at, string_of, to_ascii_lower, trim,
    trim_start, trimmed, trimmed_start, upto_class, views, Class,
};
use crate::unicode::{from_utf8_lossy, lower_case, to_lowercase, lossy_text};

verus! {

// ───────────────────────── header lines ─────────────────────────

/// What a list of named values holds.
pub open spec fn header_views(h: Seq<(String, String)>) -> Seq<(Seq<char>, Seq<char>)> {
    Seq::new(h.len(), |i: int| (h[i].0@, h[i].1@))
}

/// How far the reading of a header has come: the fields that are complete, the name of the
/// one that is being read, and the value gathered so far.
pub struct HeaderState {
    pub done: Seq<(Seq<char>, Seq<char>)>,
    pub name: Option<Seq<char>>,
    pub value: Seq<char>,
}

/// The field that is being read is complete. Without one, what was gathered stays.
pub open spec fn header_flush(st: HeaderState) -> HeaderState {
    match st.name {
        Some(n) => HeaderState {
            done: st.done.push((n, st.value)),
            name: None,
            value: seq![],
        },
        None => st,
    }
}

/// One more line. A line that starts with a space or a tab goes on with the value; any
/// other line starts a field: up to the colon its name, in lower case, and then its value. A
/// line without a colon is a value without a name.
pub open spec fn header_step(st: HeaderState, raw: Seq<char>) -> HeaderState {
    let line = without_cr(raw);
    if line.len() == 0 {
        st
    } else if line[0] == ' ' || line[0] == '\t' {
        HeaderState { value: st.value.push(' ') + trimmed(line), ..st }
    } else {
        let f = header_flush(st);
        match split_once(line, ':') {
            Some((k, v)) => HeaderState {
                name: Some(lower_case(trimmed(k))),
                value: f.value + trimmed_start(v),
                ..f
            },
            None => HeaderState { name: Some(seq![]), value: f.value + line, ..f },
        }
    }
}

/// The state after the given lines.
pub open spec fn header_fold(lines: Seq<Seq<char>>) -> HeaderState
    decreases lines.len(),
{
    if lines.len() == 0 {
        HeaderState { done: seq![], name: None, value: seq![] }
    } else {
        header_step(header_fold(lines.drop_last()), lines.last())
    }
}

/// The fields of a header: names in lower case, values with their continuation lines.
pub open spec fn header_fields(head: Seq<u8>) -> Seq<(Seq<char>, Seq<char>)> {
    header_flush(header_fold(pieces(lossy_text(head), '\n'))).done
}

/// Reads the fields of a header.
pub fn parse_headers(head: &[u8]) -> (r: Vec<(String, String)>)
    ensures
        header_views(r@) == header_fields(head@),
{
    let decoded: String = from_utf8_lossy(head);
    let text: Vec<char> = chars_of(decoded.as_str());
    let lines: Vec<&[char]> = split(text.as_slice(), '\n');
    let ghost v = views(lines@);
    let mut out: Vec<(String, String)> = Vec::new();
    let mut key: Option<String> = None;
    let mut val: Vec<char> = Vec::new();
    let mut i: usize = 0;
    assert(header_views(out@) =~= seq![]);
    while i < lines.len()
        invariant
            i <= lines@.len(),
            v == views(lines@),
            ({
                let st = header_fold(v.take(i as int));
                &&& header_views(out@) == st.done
                &&& st.name == (match key {
                    Some(k) => Some(k@),
                    None => None,
                })
                &&& val@ == st.value
            }),
        decreases lines.len() - i,
    {
        assert(v.take(i + 1).drop_last() =~= v.take(i as int));
        assert(v.take(i + 1).last() == v[i as int]);
        let line: &[char] = drop_cr(lines[i]);
        i += 1;
        if line.len() == 0 {
            continue ;
        }
        if line[0] == ' ' || line[0] == '\t' {
            val.push(' ');
            push_all(&mut val, trim(line));
            continue ;
        }
        let ghost before = out@;
        match key {
            Some(k) => {
                out.push((k, string_of(val.as_slice())));
                assert(header_views(out@) =~= header_views(before).push((k@, val@)));
                val = Vec::new();
            },
            None => {},
        }
        match cut(line, ':') {
            Some((k, rest)) => {
                key = Some(to_lowercase(string_of(trim(k)).as_str()));
                push_all(&mut val, trim_start(rest));
            },
            None => {
                key = Some(String::new());
                push_all(&mut val, line);
            },
        }
    }
    assert(v.take(i as int) =~= v);
    let ghost before = out@;
    match key {
        Some(k) => {
            out.push((k, string_of(val.as_slice())));
            assert(header_views(out@) =~= header_views(before).push((k@, val@)));
        },
        None => {},
    }
    out
}

/// The value of the first field with that name, from the `i`-th on.
pub open spec fn field_from(
    h: Seq<(Seq<char>, Seq<char>)>,
    name: Seq<char>,
    i: int,
) -> Option<Seq<char>>
    decreases h.len() - i,
{
    if i < 0 || i >= h.len() {
        None
    } else if h[i].0 == name {
        Some(h[i].1)
    } else {
        field_from(h, name, i + 1)
    }
}

/// The value of the first field with that name.
pub open spec fn field(h: Seq<(Seq<char>, Seq<char>)>, name: Seq<char>) -> Option<Seq<char>> {
    field_from(h, name, 0)
}

/// The value of the first field with that name; nothing where there is none.
pub open spec fn field_or_empty(h: Seq<(Seq<char>, Seq<char>)>, name: Seq<char>) -> Seq<char> {
    match field(h, name) {
        Some(v) => v,
        None => seq![],
    }
}

/// The value of the first field named `name`.
pub fn get_header<'a>(headers: &'a [(String, String)], name: &str) -> (r: Option<&'a str>)
    ensures
        match r {
            Some(v) => field(header_views(headers@), name@) == Some(v@),
            None => field(header_views(headers@), name@) is None,
        },
{
    let mut i: usize = 0;
    while i < headers.len()
        invariant
            i <= headers@.len(),
            field(header_views(headers@), name@) == field_from(
                header_views(headers@),
                name@,
                i as int,
            ),
        decreases headers.len() - i,
    {
        let k: Vec<char> = chars_of(headers[i].0.as_str());
        if is_text(k.as_slice(), name) {
            return Some(headers[i].1.as_str());
        }
        i += 1;
    }
    None
}

/// The characters of the first field named `name`; none where there is no such field.
pub fn header_chars(headers: &[(String, String)], name: &str) -> (r: Vec<char>)
    ensures
        r@ == field_or_empty(header_views(headers@), name@),
{
    match get_header(headers, name) {
        Some(v) => chars_of(v),
        None => {
            let r: Vec<char> = Vec::new();
            assert(r@ =~= seq![]);
            r
        },
    }
}

// ───────────────────────── parameters ─────────────────────────

/// The value at the start of `s`: what stands between double quotes, or else what stands
/// before a semicolon or white space.
pub open spec fn param_value(s: Seq<char>) -> Seq<char> {
    let close = next(s, Class::Is('"'), 1);
    if s.len() > 0 && s[0] == '"' && close < s.len() {
        s.subrange(1, close)
    } else {
        s.subrange(0, next(s, Class::ParamEnd, 0))
    }
}

/// The parameter `key` (a name and `=`) stands at `i`, in any case, and something else ends
/// before it.
pub open spec fn param_at(s: Seq<char>, key: Seq<char>, i: int) -> bool {
    &&& occurs_ci(s, key, i)
    &&& i == 0 || s[i - 1] == ';' || is_ascii_space(s[i - 1])
}

/// The first place from `from` on where the parameter `key` stands.
pub open spec fn param_place(s: Seq<char>, key: Seq<char>, from: int) -> Option<int>
    decreases s.len() - from + 1,
{
    if from < 0 || from + key.len() > s.len() {
        None
    } else if param_at(s, key, from) {
        Some(from)
    } else {
        param_place(s, key, from + 1)
    }
}

/// The value of the parameter `name` in a field like `text/html; charset=utf-8`. The name
/// is looked for as it is written, anywhere, and then in any case where a parameter can
/// start.
pub open spec fn param(s: Seq<char>, name: Seq<char>) -> Option<Seq<char>> {
    let key = name.push('=');
    let place = match found(s, key, 0) {
        Some(i) => Some(i),
        None => param_place(s, key, 0),
    };
    match place {
        Some(i) => Some(param_value(s.subrange(i + key.len(), s.len() as int))),
        None => None,
    }
}

/// The value at the start of `after`.
pub fn extract_param_value(after: &[char]) -> (r: &[char])
    ensures
        r@ == param_value(after@),
{
    if after.len() > 0 && after[0] == '"' {
        let close: usize = find_class(after, Class::Is('"'), 1);
        if close < after.len() {
            return slice_subrange(after, 1, close);
        }
    }
    let end: usize = find_class(after, Class::ParamEnd, 0);
    slice_subrange(after, 0, end)
}

/// The value of the parameter `name`.
pub fn header_param<'a>(ct: &'a [char], name: &str) -> (r: Option<&'a [char]>)
    ensures
        match r {
            Some(v) => param(ct@, name@) == Some(v@),
            None => param(ct@, name@) is None,
        },
{
    let mut key: Vec<char> = chars_of(name);
    key.push('=');
    if let Some(i) = find(ct, key.as_slice(), 0) {
        return Some(extract_param_value(slice_subrange(ct, i + key.len(), ct.len())));
    }
    let low: Vec<char> = to_ascii_lower(ct);
    let low_key: Vec<char> = to_ascii_lower(key.as_slice());
    let mut i: usize = 0;
    while i < ct.len() && key.len() <= ct.len() - i
        invariant
            i <= ct.len(),
            key@ == name@.push('='),
            low@ == ascii_lower(ct@),
            low_key@ == ascii_lower(key@),
            found(ct@, key@, 0) is None,
            param_place(ct@, key@, 0) == param_place(ct@, key@, i as int),
        decreases ct.len() - i,
    {
        if stands_at(low.as_slice(), low_key.as_slice(), i) {
            if i == 0 || ct[i - 1] == ';' || ascii_whitespace(ct[i - 1]) {
                return Some(extract_param_value(slice_subrange(ct, i + key.len(), ct.len())));
            }
        }
        i += 1;
    }
    None
}

// ───────────────────────── head and body ─────────────────────────

/// How many bytes the empty line at `i` takes, with the end of the line before it, where one
/// stands there. Lines end in a carriage return and a newline, or in a newline alone.
pub open spec fn empty_line_at(raw: Seq<u8>, i: int) -> Option<int> {
    if occurs(raw, seq![13u8, 10u8, 13u8, 10u8], i) {
        Some(4)
    } else if occurs(raw, seq![10u8, 10u8], i) {
        Some(2)
    } else {
        None
    }
}

/// The first empty line from `from` on: where it stands, and how many bytes it takes.
pub open spec fn empty_line(raw: Seq<u8>, from: int) -> Option<(int, int)>
    decreases raw.len() - from,
{
    if from < 0 || from >= raw.len() {
        None
    } else {
        match empty_line_at(raw, from) {
            Some(n) => Some((from, n)),
            None => empty_line(raw, from + 1),
        }
    }
}

/// The head and the body of a message: what stands before and after the first empty line.
pub open spec fn head_and_body(raw: Seq<u8>) -> (Seq<u8>, Seq<u8>) {
    match empty_line(raw, 0) {
        Some((i, n)) => (raw.subrange(0, i), raw.subrange(i + n, raw.len() as int)),
        None => (raw, seq![]),
    }
}

/// Nothing is found where no empty line stands.
pub proof fn lemma_no_empty_line(raw: Seq<u8>, from: int, to: int)
    requires
        0 <= from <= to <= raw.len(),
        forall|j: int| from <= j < to ==> (#[trigger] empty_line_at(raw, j)) is None,
    ensures
        empty_line(raw, from) == empty_line(raw, to),
    decreases to - from,
{
    if from < to {
        lemma_no_empty_line(raw, from + 1, to);
    }
}

/// Whether the bytes `p` stand at `i` in `s`.
pub fn bytes_at(s: &[u8], p: &[u8], i: usize) -> (r: bool)
    requires
        i <= s@.len(),
    ensures
        r == occurs(s@, p@, i as int),
{
    if p.len() > s.len() - i {
        return false;
    }
    let mut k: usize = 0;
    while k < p.len()
        invariant
            k <= p@.len(),
            i + p.len() <= s.len(),
            forall|j: int| 0 <= j < k ==> s@[i + j] == #[trigger] p@[j],
        decreases p.len() - k,
    {
        if s[i + k] != p[k] {
            assert(s@.subrange(i as int, i + p@.len())[k as int] == s@[i + k]);
            return false;
        }
        k += 1;
    }
    assert(s@.subrange(i as int, i + p@.len()) =~= p@);
    true
}

/// Splits a message at its first empty line.
pub fn split_head_body<'a>(raw: &'a [u8]) -> (r: (&'a [u8], &'a [u8]))
    ensures
        (r.0@, r.1@) == head_and_body(raw@),
{
    let crlf: [u8; 4] = [13, 10, 13, 10];
    let lf: [u8; 2] = [10, 10];
    assert(crlf@ =~= seq![13u8, 10u8, 13u8, 10u8]);
    assert(lf@ =~= seq![10u8, 10u8]);
    let mut i: usize = 0;
    while i < raw.len()
        invariant
            i <= raw@.len(),
            crlf@ == seq![13u8, 10u8, 13u8, 10u8],
            lf@ == seq![10u8, 10u8],
            empty_line(raw@, 0) == empty_line(raw@, i as int),
        decreases raw.len() - i,
    {
        if bytes_at(raw, crlf.as_slice(), i) {
            return (slice_subrange(raw, 0, i), slice_subrange(raw, i + 4, raw.len()));
        }
        if bytes_at(raw, lf.as_slice(), i) {
            return (slice_subrange(raw, 0, i), slice_subrange(raw, i + 2, raw.len()));
        }
        i += 1;
    }
    let none: &[u8] = slice_subrange(raw, raw.len(), raw.len());
    assert(none@ =~= seq![]);
    (raw, none)
}

// ───────────────────────── multipart ─────────────────────────

/// What a line is to the parts of a multipart body.
#[derive(Clone, Copy, PartialEq, Eq, Structural)]
pub enum LineKind {
    /// A delimiter: a part starts after it.
    Delimiter,
    /// The closing delimiter: no part comes after it.
    Closing,
    /// Anything else.
    Content,
}

/// `s` starts with `p`, up to the case of ASCII letters.
pub open spec fn prefixed_ci(s: Seq<char>, p: Seq<char>) -> bool {
    occurs_ci(s, p, 0)
}

/// What a line is: `--`, the boundary in any case and `--` close the body; `--` and the
/// boundary, then nothing, white space or a semicolon, delimit a part.
pub open spec fn line_kind(raw: Seq<u8>, boundary: Seq<char>) -> LineKind {
    let line = upto_class(lossy_text(raw), Class::NonLineSpace);
    let dash = "--"@ + boundary;
    if prefixed_ci(line, dash + "--"@) {
        LineKind::Closing
    } else if prefixed_ci(line, dash) && (line.len() == dash.len() || line[dash.len() as int] == ' '
        || line[dash.len() as int] == '\t' || line[dash.len() as int] == ';' || line[dash.len() as int]
        == '\r' || line[dash.len() as int] == '\n') {
        LineKind::Delimiter
    } else {
        LineKind::Content
    }
}

/// The first newline from `from` on, or the end.
pub open spec fn line_end(b: Seq<u8>, from: int) -> int
    decreases b.len() - from,
{
    if 0 <= from < b.len() && b[from] != 10 {
        line_end(b, from + 1)
    } else {
        from
    }
}

pub proof fn lemma_line_end(b: Seq<u8>, from: int)
    requires
        0 <= from <= b.len(),
    ensures
        from <= line_end(b, from) <= b.len(),
    decreases b.len() - from,
{
    if from < b.len() && b[from] != 10 {
        lemma_line_end(b, from + 1);
    }
}

/// The part that started at `start`, where one did, up to `end`.
pub open spec fn open_part(b: Seq<u8>, start: Option<int>, end: int) -> Seq<Seq<u8>> {
    match start {
        Some(s) => seq![b.subrange(s, end)],
        None => seq![],
    }
}

/// The parts of a multipart body.
pub open spec fn multipart(b: Seq<u8>, boundary: Seq<char>) -> Seq<Seq<u8>> {
    parts_from(b, boundary, 0, None)
}

/// The parts that end from line `i` on, where one started at `start`. A part reaches from
/// the line after a delimiter to the next one, or to the end of the body.
pub open spec fn parts_from(
    b: Seq<u8>,
    boundary: Seq<char>,
    i: int,
    start: Option<int>,
) -> Seq<Seq<u8>>
    decreases b.len() - i,
{
    let n = b.len() as int;
    if i < 0 || i >= n {
        open_part(b, start, n)
    } else {
        let j = line_end(b, i);
        let after = if j < n {
            j + 1
        } else {
            n
        };
        proof {
            lemma_line_end(b, i);
        }
        match line_kind(b.subrange(i, j), boundary) {
            LineKind::Closing => open_part(b, start, i),
            LineKind::Delimiter => open_part(b, start, i) + parts_from(
                b,
                boundary,
                after,
                Some(after),
            ),
            LineKind::Content => parts_from(b, boundary, after, start),
        }
    }
}

/// What the slices in `v` hold.
pub open spec fn byte_views(v: Seq<&[u8]>) -> Seq<Seq<u8>> {
    Seq::new(v.len(), |i: int| v[i]@)
}

/// The first newline from `from` on, or the end.
pub fn find_lf(bytes: &[u8], from: usize) -> (r: usize)
    requires
        from <= bytes@.len(),
    ensures
        r == line_end(bytes@, from as int),
        from <= r <= bytes@.len(),
{
    let mut i: usize = from;
    while i < bytes.len() && bytes[i] != 10
        invariant
            from <= i <= bytes@.len(),
            line_end(bytes@, from as int) == line_end(bytes@, i as int),
        decreases bytes.len() - i,
    {
        i += 1;
    }
    i
}

/// What a line is to the parts delimited by `boundary`.
pub fn matches_boundary(raw: &[u8], boundary: &[char]) -> (r: LineKind)
    ensures
        r == line_kind(raw@, boundary@),
{
    let decoded: String = from_utf8_lossy(raw);
    let chars: Vec<char> = chars_of(decoded.as_str());
    let line: &[char] = cut_end(chars.as_slice(), Class::NonLineSpace);
    let mut dash: Vec<char> = chars_of("--");
    push_all(&mut dash, boundary);
    let n: usize = dash.len();
    let low: Vec<char> = to_ascii_lower(line);
    let low_dash: Vec<char> = to_ascii_lower(dash.as_slice());
    let ghost d = dash@;
    push_text(&mut dash, "--");
    let low_term: Vec<char> = to_ascii_lower(dash.as_slice());
    if stands_at(low.as_slice(), low_term.as_slice(), 0) {
        return LineKind::Closing;
    }
    if stands_at(low.as_slice(), low_dash.as_slice(), 0) {
        if line.len() == n || line[n] == ' ' || line[n] == '\t' || line[n] == ';' || line[n] == '\r'
            || line[n] == '\n' {
            return LineKind::Delimiter;
        }
    }
    LineKind::Content
}

/// Splits a multipart body into its parts, each with its own header.
pub fn walk_multipart<'a>(body: &'a [u8], boundary: &[char]) -> (r: Vec<&'a [u8]>)
    ensures
        byte_views(r@) == multipart(body@, boundary@),
{
    let mut parts: Vec<&'a [u8]> = Vec::new();
    let mut start: Option<usize> = None;
    let mut i: usize = 0;
    assert(byte_views(parts@) =~= seq![]);
    while i < body.len()
        invariant
            i <= body@.len(),
            start matches Some(s) ==> s <= i,
            multipart(body@, boundary@) =~= byte_views(parts@) + parts_from(
                body@,
                boundary@,
                i as int,
                match start {
                    Some(s) => Some(s as int),
                    None => None,
                },
            ),
        decreases body.len() - i,
    {
        let j: usize = find_lf(body, i);
        let kind: LineKind = matches_boundary(slice_subrange(body, i, j), boundary);
        let ghost before = parts@;
        let next_line: usize = if j < body.len() {
            j + 1
        } else {
            j
        };
        match kind {
            LineKind::Content => {},
            _ => {
                if let Some(s) = start {
                    parts.push(slice_subrange(body, s, i));
                    assert(byte_views(parts@) =~= byte_views(before).push(
                        body@.subrange(s as int, i as int),
                    ));
                }
                match kind {
                    LineKind::Closing => {
                        return parts;
                    },
                    _ => {
                        start = Some(next_line);
                    },
                }
            },
        }
        i = next_line;
    }
    if let Some(s) = start {
        let ghost before = parts@;
        parts.push(slice_subrange(body, s, body.len()));
        assert(byte_views(parts@) =~= byte_views(before).push(
            body@.subrange(s as int, body@.len() as int),
        ));
    }
    parts
}

// ───────────────────────── laws ─────────────────────────

/// A line that ends in `b` ends where it does, whatever follows `b`.
pub proof fn lemma_line_end_more(b: Seq<u8>, more: Seq<u8>, from: int)
    requires
        0 <= from <= b.len(),
        line_end(b, from) < b.len(),
    ensures
        line_end(b + more, from) == line_end(b, from),
    decreases b.len() - from,
{
    lemma_line_end(b, from);
    if from < b.len() {
        assert((b + more)[from] == b[from]);
        if b[from] != 10 {
            lemma_line_end_more(b, more, from + 1);
        }
    }
}

proof fn lemma_line_end_behind(a: Seq<u8>, t: Seq<u8>, from: int)
    requires
        0 <= from <= t.len(),
    ensures
        line_end(a + t, a.len() + from) == a.len() + line_end(t, from),
    decreases t.len() - from,
{
    if from < t.len() {
        assert((a + t)[a.len() + from] == t[from]);
        if t[from] != 10 {
            lemma_line_end_behind(a, t, from + 1);
        }
    }
}

/// From line `i` on, `b` is closed: a closing delimiter stands on a line of its own, before the
/// end.
pub open spec fn closed_from(b: Seq<u8>, boundary: Seq<char>, i: int) -> bool
    decreases b.len() - i,
{
    if i < 0 || i >= b.len() {
        false
    } else {
        let j = line_end(b, i);
        proof {
            lemma_line_end(b, i);
        }
        j < b.len() && (line_kind(b.subrange(i, j), boundary) == LineKind::Closing || closed_from(
            b,
            boundary,
            j + 1,
        ))
    }
}

/// From line `i` on, `b` consists of whole lines, none of which is a delimiter.
pub open spec fn plain_from(b: Seq<u8>, boundary: Seq<char>, i: int) -> bool
    decreases b.len() - i,
{
    if i < 0 || i >= b.len() {
        true
    } else {
        let j = line_end(b, i);
        proof {
            lemma_line_end(b, i);
        }
        j < b.len() && line_kind(b.subrange(i, j), boundary) == LineKind::Content && plain_from(
            b,
            boundary,
            j + 1,
        )
    }
}

proof fn lemma_epilogue(
    b: Seq<u8>,
    after: Seq<u8>,
    boundary: Seq<char>,
    i: int,
    start: Option<int>,
)
    requires
        0 <= i,
        closed_from(b, boundary, i),
        start matches Some(s) ==> 0 <= s <= i,
    ensures
        parts_from(b + after, boundary, i, start) == parts_from(b, boundary, i, start),
    decreases b.len() - i,
{
    let all = b + after;
    let j = line_end(b, i);
    lemma_line_end(b, i);
    lemma_line_end_more(b, after, i);
    assert(all.subrange(i, j) =~= b.subrange(i, j));
    if let Some(s) = start {
        assert(all.subrange(s, i) =~= b.subrange(s, i));
    }
    if line_kind(b.subrange(i, j), boundary) != LineKind::Closing {
        lemma_epilogue(b, after, boundary, j + 1, start);
        lemma_epilogue(b, after, boundary, j + 1, Some(j + 1));
    }
}

/// What follows the closing delimiter of a multipart body does not count.
pub proof fn the_epilogue_is_ignored(b: Seq<u8>, after: Seq<u8>, boundary: Seq<char>)
    requires
        closed_from(b, boundary, 0),
    ensures
        multipart(b + after, boundary) == multipart(b, boundary),
{
    lemma_epilogue(b, after, boundary, 0, None);
}

proof fn lemma_parts_behind(
    a: Seq<u8>,
    t: Seq<u8>,
    boundary: Seq<char>,
    i: int,
    start: Option<int>,
)
    requires
        0 <= i <= t.len(),
        start matches Some(s) ==> 0 <= s <= i,
    ensures
        parts_from(
            a + t,
            boundary,
            a.len() + i,
            match start {
                Some(s) => Some(a.len() + s),
                None => None,
            },
        ) == parts_from(t, boundary, i, start),
    decreases t.len() - i,
{
    let all = a + t;
    let n = a.len() as int;
    if let Some(s) = start {
        assert(all.subrange(n + s, n + i) =~= t.subrange(s, i));
        assert(all.subrange(n + s, all.len() as int) =~= t.subrange(s, t.len() as int));
    }
    if i < t.len() {
        let j = line_end(t, i);
        lemma_line_end(t, i);
        lemma_line_end_behind(a, t, i);
        assert(all.subrange(n + i, n + j) =~= t.subrange(i, j));
        let after = if j < t.len() {
            j + 1
        } else {
            t.len() as int
        };
        lemma_parts_behind(a, t, boundary, after, start);
        lemma_parts_behind(a, t, boundary, after, Some(after));
    }
}

proof fn lemma_preamble(before: Seq<u8>, b: Seq<u8>, boundary: Seq<char>, i: int)
    requires
        0 <= i <= before.len(),
        plain_from(before, boundary, i),
    ensures
        parts_from(before + b, boundary, i, None) == parts_from(
            before + b,
            boundary,
            before.len() as int,
            None,
        ),
    decreases before.len() - i,
{
    if i < before.len() {
        let j = line_end(before, i);
        lemma_line_end(before, i);
        lemma_line_end_more(before, b, i);
        assert((before + b).subrange(i, j) =~= before.subrange(i, j));
        lemma_preamble(before, b, boundary, j + 1);
    }
}

/// Lines that are no delimiters are passed over.
pub proof fn lemma_plain_lines(
    a: Seq<u8>,
    t: Seq<u8>,
    rest: Seq<u8>,
    boundary: Seq<char>,
    i: int,
    start: Option<int>,
)
    requires
        0 <= i <= t.len(),
        plain_from(t, boundary, i),
    ensures
        parts_from(a + t + rest, boundary, a.len() + i, start) == parts_from(
            a + t + rest,
            boundary,
            (a + t).len() as int,
            start,
        ),
    decreases t.len() - i,
{
    if i < t.len() {
        let b = a + t + rest;
        let j = line_end(t, i);
        lemma_line_end(t, i);
        lemma_line_end_more(t, rest, i);
        lemma_line_end_behind(a, t + rest, i);
        assert(b =~= a + (t + rest));
        assert(b.subrange(a.len() + i, a.len() + j) =~= t.subrange(i, j));
        lemma_plain_lines(a, t, rest, boundary, j + 1, start);
    }
}

/// What lines are does not depend on what comes before them.
pub proof fn lemma_plain_behind(a: Seq<u8>, t: Seq<u8>, boundary: Seq<char>, i: int)
    requires
        0 <= i <= t.len(),
    ensures
        plain_from(a + t, boundary, a.len() + i) == plain_from(t, boundary, i),
    decreases t.len() - i,
{
    if i < t.len() {
        let j = line_end(t, i);
        lemma_line_end(t, i);
        lemma_line_end_behind(a, t, i);
        assert((a + t).subrange(a.len() + i, a.len() + j) =~= t.subrange(i, j));
        if j < t.len() {
            lemma_plain_behind(a, t, boundary, j + 1);
        }
    }
}

/// The end of a line is the first newline, or the end of all.
pub proof fn lemma_line_end_is(b: Seq<u8>, from: int, at: int)
    requires
        0 <= from <= at <= b.len(),
        forall|i: int| from <= i < at ==> #[trigger] b[i] != 10,
        at < b.len() ==> b[at] == 10,
    ensures
        line_end(b, from) == at,
    decreases at - from,
{
    if from < at {
        lemma_line_end_is(b, from + 1, at);
    }
}

/// The first empty line decides where the head of a message ends, in whichever of the two ways its
/// lines end there and after it.
pub proof fn the_first_empty_line_ends_the_head(raw: Seq<u8>, i: int, n: int)
    requires
        empty_line_at(raw, i) == Some(n),
        forall|j: int| 0 <= j < i ==> (#[trigger] empty_line_at(raw, j)) is None,
    ensures
        head_and_body(raw) == (raw.subrange(0, i), raw.subrange(i + n, raw.len() as int)),
{
    lemma_no_empty_line(raw, 0, i);
}

/// What comes before the first delimiter of a multipart body does not count.
pub proof fn the_preamble_is_ignored(before: Seq<u8>, b: Seq<u8>, boundary: Seq<char>)
    requires
        plain_from(before, boundary, 0),
    ensures
        multipart(before + b, boundary) == multipart(b, boundary),
{
    lemma_preamble(before, b, boundary, 0);
    lemma_parts_behind(before, b, boundary, 0, None);
}

} // verus!
