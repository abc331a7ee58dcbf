//! HTTP response model: parses a raw HTTP/1.x response string into version,
//! status code, reason, ordered headers and body.
//!
//! The raw string is preprocessed by trimming leading whitespace and
//! replacing every `\n\r` pair with `\n` (the observed behaviour of this
//! core; `\r\n` itself is left alone). The status line must be separated by a
//! `\n` and hold at least three space-separated tokens; a status code that is
//! not a plain decimal number defaults to 404. Every header line must hold a
//! `:`. Header lookup by name returns the first match.

use vstd::prelude::*;
use vstd::string::{StrSliceExecFns, StringExecFns};
use crate::error::Error;
use crate::text::{find_char, find_char_in, push_char};

verus! {

/// True for the whitespace characters the preprocessor trims: the Unicode
/// White_Space set.
pub open spec fn is_space(c: char) -> bool {
    ||| c == '\t'
    ||| c == '\n'
    ||| c == '\u{B}'
    ||| c == '\u{C}'
    ||| c == '\r'
    ||| c == ' '
    ||| c == '\u{85}'
    ||| c == '\u{A0}'
    ||| c == '\u{1680}'
    ||| ('\u{2000}' <= c && c <= '\u{200A}')
    ||| c == '\u{2028}'
    ||| c == '\u{2029}'
    ||| c == '\u{202F}'
    ||| c == '\u{205F}'
    ||| c == '\u{3000}'
}

/// `s` with its leading whitespace dropped.
pub open spec fn trim_start_spec(s: Seq<char>) -> Seq<char>
    decreases s.len(),
{
    if s.len() > 0 && is_space(s[0]) {
        trim_start_spec(s.subrange(1, s.len() as int))
    } else {
        s
    }
}

/// `s` with every (non-overlapping, leftmost-first) `\n\r` pair replaced by
/// a single `\n`.
pub open spec fn replace_nr(s: Seq<char>) -> Seq<char>
    decreases s.len(),
{
    if s.len() == 0 {
        s
    } else if s.len() >= 2 && s[0] == '\n' && s[1] == '\r' {
        seq!['\n'] + replace_nr(s.subrange(2, s.len() as int))
    } else {
        seq![s[0]] + replace_nr(s.subrange(1, s.len() as int))
    }
}

/// The preprocessed response text: trimmed, then `\n\r` collapsed.
pub open spec fn preprocess(raw: Seq<char>) -> Seq<char> {
    replace_nr(trim_start_spec(raw))
}

pub open spec fn is_digit(c: char) -> bool {
    '0' <= c && c <= '9'
}

pub open spec fn all_digits(s: Seq<char>) -> bool {
    forall|i: int| 0 <= i < s.len() ==> is_digit(s[i])
}

/// The decimal value of a digit string, read left to right.
pub open spec fn digits_val(s: Seq<char>) -> int
    decreases s.len(),
{
    if s.len() == 0 {
        0
    } else {
        digits_val(s.drop_last()) * 10 + (s.last() as int - 48)
    }
}

/// The number a string denotes: an optional leading `+`, then a nonempty
/// run of digits whose value fits in a `u32`; anything else denotes nothing.
pub open spec fn parse_u32_spec(s: Seq<char>) -> Option<u32> {
    let d = if s.len() > 0 && s[0] == '+' {
        s.subrange(1, s.len() as int)
    } else {
        s
    };
    if d.len() > 0 && all_digits(d) && digits_val(d) <= u32::MAX {
        Some(digits_val(d) as u32)
    } else {
        None
    }
}

/// The first position at or after `i` where the pair `\n\n` starts in `s`.
pub open spec fn find_nn(s: Seq<char>, i: int) -> Option<int>
    decreases s.len() - i when 0 <= i <= s.len()
{
    if i + 2 > s.len() {
        None
    } else if s[i] == '\n' && s[i + 1] == '\n' {
        Some(i)
    } else {
        find_nn(s, i + 1)
    }
}

pub struct HeaderView {
    pub name: Seq<char>,
    pub value: Seq<char>,
}

/// The headers denoted by a header block: one per `\n`-separated line, each
/// line split at its first `:`. A line without `:` spoils the whole block.
pub open spec fn parse_headers(s: Seq<char>) -> Option<Seq<HeaderView>>
    decreases s.len() via parse_headers_dec
{
    let line = match find_char(s, '\n', 0) {
        Some(i) => s.subrange(0, i),
        None => s,
    };
    match find_char(line, ':', 0) {
        None => None,
        Some(j) => {
            let h = HeaderView {
                name: line.subrange(0, j),
                value: line.subrange(j + 1, line.len() as int),
            };
            match find_char(s, '\n', 0) {
                None => Some(seq![h]),
                Some(i) => match parse_headers(s.subrange(i + 1, s.len() as int)) {
                    None => None,
                    Some(rest) => Some(seq![h] + rest),
                },
            }
        },
    }
}

#[via_fn]
proof fn parse_headers_dec(s: Seq<char>) {
    crate::text::lemma_find_char_props(s, '\n', 0);
}

/// The (version, status code, reason) a status line denotes: its first three
/// space-separated tokens, with the code defaulting to 404 when it is not a
/// plain number. A line with fewer than three tokens denotes nothing.
pub open spec fn status_view(sl: Seq<char>) -> Option<(Seq<char>, u32, Seq<char>)> {
    match find_char(sl, ' ', 0) {
        None => None,
        Some(i1) => match find_char(sl, ' ', i1 + 1) {
            None => None,
            Some(i2) => {
                let code = match parse_u32_spec(sl.subrange(i1 + 1, i2)) {
                    Some(v) => v,
                    None => 404u32,
                };
                let reason_end = match find_char(sl, ' ', i2 + 1) {
                    Some(i3) => i3,
                    None => sl.len() as int,
                };
                Some((sl.subrange(0, i1), code, sl.subrange(i2 + 1, reason_end)))
            },
        },
    }
}

pub struct HttpResponseView {
    pub version: Seq<char>,
    pub status_code: u32,
    pub reason: Seq<char>,
    pub headers: Seq<HeaderView>,
    pub body: Seq<char>,
}

/// The response record a raw response string denotes, if any: preprocess,
/// split the status line at the first `\n`, read its tokens, then split
/// headers from body at the first `\n\n` (no such separator means no headers).
pub open spec fn http_parse(raw: Seq<char>) -> Option<HttpResponseView> {
    let p = preprocess(raw);
    match find_char(p, '\n', 0) {
        None => None,
        Some(nl) => {
            let sl = p.subrange(0, nl);
            let remaining = p.subrange(nl + 1, p.len() as int);
            match status_view(sl) {
                None => None,
                Some(svr) => match find_nn(remaining, 0) {
                    None => Some(
                        HttpResponseView {
                            version: svr.0,
                            status_code: svr.1,
                            reason: svr.2,
                            headers: Seq::<HeaderView>::empty(),
                            body: remaining,
                        },
                    ),
                    Some(i) => match parse_headers(remaining.subrange(0, i)) {
                        None => None,
                        Some(hs) => Some(
                            HttpResponseView {
                                version: svr.0,
                                status_code: svr.1,
                                reason: svr.2,
                                headers: hs,
                                body: remaining.subrange(i + 2, remaining.len() as int),
                            },
                        ),
                    },
                },
            }
        },
    }
}

/// The message carried by every parse failure.
pub open spec fn invalid_message(raw: Seq<char>) -> Seq<char> {
    "invalid http response: "@ + preprocess(raw)
}

/// The value of the first header whose name is exactly `name`, if any.
pub open spec fn first_header_match(headers: Seq<HeaderView>, name: Seq<char>) -> Option<
    Seq<char>,
>
    decreases headers.len(),
{
    if headers.len() == 0 {
        None
    } else if headers[0].name == name {
        Some(headers[0].value)
    } else {
        first_header_match(headers.subrange(1, headers.len() as int), name)
    }
}

/// HTTP header first-match: the lookup yields the value of the first header
/// whose name equals `name` character for character, and nothing when no
/// header's name does.
pub proof fn lemma_header_first_match(headers: Seq<HeaderView>, name: Seq<char>)
    ensures
        match first_header_match(headers, name) {
            Some(v) => exists|i: int|
                0 <= i < headers.len() && headers[i].name == name && headers[i].value == v && (
                forall|j: int| 0 <= j < i ==> headers[j].name != name),
            None => forall|i: int| 0 <= i < headers.len() ==> headers[i].name != name,
        },
    decreases headers.len(),
{
    if headers.len() == 0 {
    } else if headers[0].name == name {
        let i = 0int;
        assert(0 <= i < headers.len() && headers[i].name == name && headers[i].value
            == headers[0].value && (forall|j: int| 0 <= j < i ==> headers[j].name != name));
    } else {
        let t = headers.subrange(1, headers.len() as int);
        lemma_header_first_match(t, name);
        match first_header_match(t, name) {
            Some(v) => {
                let i0 = choose|i0: int|
                    0 <= i0 < t.len() && t[i0].name == name && t[i0].value == v && (forall|j: int|
                        0 <= j < i0 ==> t[j].name != name);
                let i = i0 + 1;
                assert(forall|j: int| 1 <= j < i ==> headers[j] == t[j - 1]);
                assert(0 <= i < headers.len() && headers[i].name == name && headers[i].value == v
                    && (forall|j: int| 0 <= j < i ==> headers[j].name != name));
            },
            None => {
                assert(forall|i: int| 1 <= i < headers.len() ==> headers[i] == t[i - 1]);
            },
        }
    }
}

/// When `headers[i]` is the first name match, the lookup returns its value.
proof fn lemma_first_match_at(headers: Seq<HeaderView>, name: Seq<char>, i: int)
    requires
        0 <= i < headers.len(),
        headers[i].name == name,
        forall|j: int| 0 <= j < i ==> headers[j].name != name,
    ensures
        first_header_match(headers, name) == Some(headers[i].value),
    decreases i,
{
    if i > 0 {
        let t = headers.subrange(1, headers.len() as int);
        assert(forall|j: int| 0 <= j < t.len() ==> t[j] == headers[j + 1]);
        lemma_first_match_at(t, name, i - 1);
    }
}

/// When no header's name matches, the lookup returns nothing.
proof fn lemma_no_header_match(headers: Seq<HeaderView>, name: Seq<char>)
    requires
        forall|j: int| 0 <= j < headers.len() ==> headers[j].name != name,
    ensures
        first_header_match(headers, name) is None,
    decreases headers.len(),
{
    if headers.len() > 0 {
        lemma_no_header_match(headers.subrange(1, headers.len() as int), name);
    }
}

#[derive(Clone, Debug, PartialEq, Eq)]
pub struct Header {
    name: String,
    value: String,
}

impl View for Header {
    type V = HeaderView;

    closed spec fn view(&self) -> HeaderView {
        HeaderView { name: self.name@, value: self.value@ }
    }
}

impl Header {
    pub fn new(name: String, value: String) -> (h: Header)
        ensures
            h@.name == name@,
            h@.value == value@,
    {
        Header { name, value }
    }

    pub fn name(&self) -> (r: String)
        ensures
            r@ == self@.name,
    {
        self.name.clone()
    }

    pub fn value(&self) -> (r: String)
        ensures
            r@ == self@.value,
    {
        self.value.clone()
    }
}

#[derive(Debug, PartialEq, Eq)]
pub struct HttpResponse {
    version: String,
    status_code: u32,
    reason: String,
    headers: Vec<Header>,
    body: String,
}

impl View for HttpResponse {
    type V = HttpResponseView;

    closed spec fn view(&self) -> HttpResponseView {
        HttpResponseView {
            version: self.version@,
            status_code: self.status_code,
            reason: self.reason@,
            headers: self.headers@.map_values(|h: Header| h@),
            body: self.body@,
        }
    }
}

impl HttpResponse {
    /// Parses a raw response. Succeeds exactly on the strings that denote a
    /// response record; everything else is rejected as a network error whose
    /// message carries the preprocessed text.
    pub fn try_from(raw_response: String) -> (r: Result<HttpResponse, Error>)
        ensures
            match r {
                Ok(resp) => http_parse(raw_response@) == Some(resp@),
                Err(e) => http_parse(raw_response@) is None && (e matches Error::Network(m) && m@
                    == invalid_message(raw_response@)),
            },
    {
        let p: String = preprocess_exec(raw_response.as_str());
        let ps: &str = p.as_str();
        let plen = ps.unicode_len();
        let nl = match find_char_in(ps, '\n', 0) {
            Some(i) => i,
            None => {
                return Err(Error::Network(invalid_message_exec(ps)));
            },
        };
        let sl: &str = ps.substring_char(0, nl);
        let remaining: &str = ps.substring_char(nl + 1, plen);
        let sllen = sl.unicode_len();
        let i1 = match find_char_in(sl, ' ', 0) {
            Some(i) => i,
            None => {
                return Err(Error::Network(invalid_message_exec(ps)));
            },
        };
        let i2 = match find_char_in(sl, ' ', i1 + 1) {
            Some(i) => i,
            None => {
                return Err(Error::Network(invalid_message_exec(ps)));
            },
        };
        let version: String = sl.substring_char(0, i1).to_owned();
        let status_code: u32 = match parse_u32(sl.substring_char(i1 + 1, i2)) {
            Some(v) => v,
            None => 404,
        };
        let reason_end = match find_char_in(sl, ' ', i2 + 1) {
            Some(i3) => i3,
            None => sllen,
        };
        let reason: String = sl.substring_char(i2 + 1, reason_end).to_owned();
        let rlen = remaining.unicode_len();
        let (headers, body): (Vec<Header>, String) = match find_nn_in(remaining, 0) {
            Some(i) => {
                match parse_headers_exec(remaining.substring_char(0, i)) {
                    Some(v) => (v, remaining.substring_char(i + 2, rlen).to_owned()),
                    None => {
                        return Err(Error::Network(invalid_message_exec(ps)));
                    },
                }
            },
            None => (Vec::new(), remaining.to_owned()),
        };
        let resp = HttpResponse { version, status_code, reason, headers, body };
        proof {
            assert(http_parse(raw_response@) == Some(resp@)) by {
                assert(Seq::<HeaderView>::empty() =~= Seq::<Header>::empty().map_values(
                    |h: Header| h@,
                ));
            }
        }
        Ok(resp)
    }

    pub fn version(&self) -> (r: String)
        ensures
            r@ == self@.version,
    {
        self.version.clone()
    }

    pub fn status_code(&self) -> (r: u32)
        ensures
            r == self@.status_code,
    {
        self.status_code
    }

    pub fn reason(&self) -> (r: String)
        ensures
            r@ == self@.reason,
    {
        self.reason.clone()
    }

    pub fn headers(&self) -> (r: Vec<Header>)
        ensures
            r@.map_values(|h: Header| h@) == self@.headers,
    {
        let mut out: Vec<Header> = Vec::new();
        let n = self.headers.len();
        let mut i: usize = 0;
        while i < n
            invariant
                i <= n,
                n == self.headers@.len(),
                out@.len() == i,
                forall|j: int| 0 <= j < i ==> out@[j]@ == self.headers@[j]@,
            decreases n - i,
        {
            let h = Header {
                name: self.headers[i].name.clone(),
                value: self.headers[i].value.clone(),
            };
            out.push(h);
            i += 1;
        }
        proof {
            assert(out@.map_values(|h: Header| h@) =~= self.headers@.map_values(|h: Header| h@));
        }
        out
    }

    /// The value of the first header named `name`; a missing name is a
    /// lookup failure, not a network one.
    pub fn header_value(&self, name: &str) -> (r: Result<String, String>)
        ensures
            match r {
                Ok(v) => first_header_match(self@.headers, name@) == Some(v@),
                Err(e) => first_header_match(self@.headers, name@) is None && e@ == (
                "failed to fin "@ + name@ + " in headers"@),
            },
    {
        let n = self.headers.len();
        let mut i: usize = 0;
        while i < n
            invariant
                i <= n,
                n == self.headers@.len(),
                forall|j: int| 0 <= j < i ==> self.headers@[j]@.name != name@,
            decreases n - i,
        {
            if crate::text::str_eq(self.headers[i].name.as_str(), name) {
                proof {
                    lemma_first_match_at(self@.headers, name@, i as int);
                }
                return Ok(self.headers[i].value.clone());
            }
            i += 1;
        }
        proof {
            lemma_no_header_match(self@.headers, name@);
        }
        Err(String::from_str("failed to fin ").concat(name).concat(" in headers"))
    }

    pub fn body(&self) -> (r: String)
        ensures
            r@ == self@.body,
    {
        self.body.clone()
    }
}

fn char_is_space(c: char) -> (r: bool)
    ensures
        r == is_space(c),
{
    let u = c as u32;
    (9 <= u && u <= 13) || u == 32 || u == 0x85 || u == 0xA0 || u == 0x1680 || (0x2000 <= u && u
        <= 0x200A) || u == 0x2028 || u == 0x2029 || u == 0x202F || u == 0x205F || u == 0x3000
}

/// Leading whitespace ends at the first non-space position `k`.
proof fn lemma_trim_start_at(s: Seq<char>, k: int)
    requires
        0 <= k <= s.len(),
        forall|j: int| 0 <= j < k ==> is_space(s[j]),
        k == s.len() || !is_space(s[k]),
    ensures
        trim_start_spec(s) == s.subrange(k, s.len() as int),
    decreases k,
{
    if k == 0 {
        assert(s.subrange(0, s.len() as int) =~= s);
    } else {
        let t = s.subrange(1, s.len() as int);
        assert(forall|j: int| 0 <= j < k - 1 ==> t[j] == s[j + 1]);
        lemma_trim_start_at(t, k - 1);
        assert(t.subrange(k - 1, t.len() as int) =~= s.subrange(k, s.len() as int));
    }
}

/// The preprocessed text: leading whitespace trimmed, then each `\n\r`
/// collapsed to `\n`.
fn preprocess_exec(raw: &str) -> (p: String)
    ensures
        p@ == preprocess(raw@),
{
    let len = raw.unicode_len();
    let mut k: usize = 0;
    while k < len && char_is_space(raw.get_char(k))
        invariant
            k <= len,
            len == raw@.len(),
            forall|j: int| 0 <= j < k ==> is_space(raw@[j]),
        decreases len - k,
    {
        k += 1;
    }
    proof {
        lemma_trim_start_at(raw@, k as int);
    }
    let trimmed: &str = raw.substring_char(k, len);
    let tlen = trimmed.unicode_len();
    let mut out = String::new();
    let mut i: usize = 0;
    proof {
        assert(trimmed@.subrange(0, tlen as int) =~= trimmed@);
        assert(out@ + replace_nr(trimmed@) =~= replace_nr(trimmed@));
    }
    while i < tlen
        invariant
            i <= tlen,
            tlen == trimmed@.len(),
            out@ + replace_nr(trimmed@.subrange(i as int, tlen as int)) == replace_nr(trimmed@),
        decreases tlen - i,
    {
        let ghost out0 = out@;
        let c = trimmed.get_char(i);
        if c == '\n' && i + 1 < tlen && trimmed.get_char(i + 1) == '\r' {
            push_char(&mut out, '\n');
            proof {
                let rest = trimmed@.subrange(i as int, tlen as int);
                assert(rest.subrange(2, rest.len() as int) =~= trimmed@.subrange(
                    i as int + 2,
                    tlen as int,
                ));
                assert(out@ + replace_nr(trimmed@.subrange(i as int + 2, tlen as int)) =~= out0
                    + replace_nr(rest));
            }
            i += 2;
        } else {
            push_char(&mut out, c);
            proof {
                let rest = trimmed@.subrange(i as int, tlen as int);
                assert(rest.subrange(1, rest.len() as int) =~= trimmed@.subrange(
                    i as int + 1,
                    tlen as int,
                ));
                assert(out@ + replace_nr(trimmed@.subrange(i as int + 1, tlen as int)) =~= out0
                    + replace_nr(rest));
            }
            i += 1;
        }
    }
    proof {
        assert(trimmed@.subrange(tlen as int, tlen as int) =~= Seq::<char>::empty());
        assert(out@ + Seq::<char>::empty() =~= out@);
    }
    out
}

/// Every digit string is nonnegative as a number.
proof fn lemma_digits_val_nonneg(s: Seq<char>)
    requires
        all_digits(s),
    ensures
        digits_val(s) >= 0,
    decreases s.len(),
{
    if s.len() > 0 {
        assert(all_digits(s.drop_last()));
        lemma_digits_val_nonneg(s.drop_last());
    }
}

/// Extending a digit string with further digits never shrinks its value.
proof fn lemma_digits_val_extend(s: Seq<char>, i: int)
    requires
        all_digits(s),
        0 <= i <= s.len(),
    ensures
        digits_val(s.subrange(0, i)) <= digits_val(s),
    decreases s.len() - i,
{
    if i < s.len() {
        let a = s.subrange(0, i);
        let b = s.subrange(0, i + 1);
        assert(b.drop_last() =~= a);
        assert(all_digits(a));
        lemma_digits_val_nonneg(a);
        assert(digits_val(b) == digits_val(a) * 10 + (s[i] as int - 48));
        lemma_digits_val_extend(s, i + 1);
    } else {
        assert(s.subrange(0, i) =~= s);
    }
}

/// The number a digit string (with an optional leading `+`) denotes, or
/// nothing for any other string (including on `u32` overflow).
fn parse_u32(s: &str) -> (r: Option<u32>)
    ensures
        r == parse_u32_spec(s@),
{
    let len = s.unicode_len();
    if len == 0 {
        return None;
    }
    let start: usize = if s.get_char(0) == '+' {
        1
    } else {
        0
    };
    if start == len {
        return None;
    }
    let ghost d = if s@[0] == '+' {
        s@.subrange(1, s@.len() as int)
    } else {
        s@
    };
    proof {
        assert(forall|j: int| 0 <= j < d.len() ==> d[j] == s@[j + start]);
    }
    let mut value: u64 = 0;
    let mut i: usize = start;
    while i < len
        invariant
            start <= i <= len,
            start <= 1,
            len == s@.len(),
            len > 0,
            (start == 1 <==> s@[0] == '+'),
            d == (if s@.len() > 0 && s@[0] == '+' {
                s@.subrange(1, s@.len() as int)
            } else {
                s@
            }),
            d.len() == len - start,
            forall|j: int| 0 <= j < d.len() ==> d[j] == s@[j + start],
            all_digits(d.subrange(0, i - start)),
            value == digits_val(d.subrange(0, i - start)),
            value <= u32::MAX,
        decreases len - i,
    {
        let c = s.get_char(i);
        let u = c as u32;
        if u < 48 || u > 57 {
            proof {
                assert(d[i - start] == s@[i as int]);
                assert(!is_digit(d[i - start]));
            }
            return None;
        }
        let ds = (u - 48) as u64;
        value = value * 10 + ds;
        proof {
            let a = d.subrange(0, i - start);
            let b = d.subrange(0, i + 1 - start);
            assert(b.drop_last() =~= a);
            assert(b.last() == s@[i as int]);
            assert(all_digits(b));
        }
        i += 1;
        if value > 0xffff_ffff {
            proof {
                if all_digits(d) {
                    lemma_digits_val_extend(d, i - start);
                    assert(digits_val(d) > u32::MAX);
                }
                assert(parse_u32_spec(s@) is None);
            }
            return None;
        }
    }
    proof {
        assert(d.subrange(0, len - start) =~= d);
    }
    Some(value as u32)
}

/// The first position at or after `from` where `\n\n` starts in `s`.
fn find_nn_in(s: &str, from: usize) -> (r: Option<usize>)
    requires
        from <= s@.len(),
    ensures
        match r {
            Some(i) => find_nn(s@, from as int) == Some(i as int) && from <= i && i + 2
                <= s@.len(),
            None => find_nn(s@, from as int) is None,
        },
{
    let len = s.unicode_len();
    if len < 2 {
        return None;
    }
    let mut i: usize = from;
    while i <= len - 2
        invariant
            from <= i <= len,
            len == s@.len(),
            2 <= len,
            find_nn(s@, from as int) == find_nn(s@, i as int),
        decreases len - i,
    {
        if s.get_char(i) == '\n' && s.get_char(i + 1) == '\n' {
            return Some(i);
        }
        i += 1;
    }
    None
}

/// Parses a header block, one `Header` per line, failing on any line
/// without a `:`.
fn parse_headers_exec(s: &str) -> (r: Option<Vec<Header>>)
    ensures
        match r {
            Some(v) => parse_headers(s@) == Some(v@.map_values(|h: Header| h@)),
            None => parse_headers(s@) is None,
        },
    decreases s@.len(),
{
    let len = s.unicode_len();
    let line_end = find_char_in(s, '\n', 0);
    let line: &str = match line_end {
        Some(i) => s.substring_char(0, i),
        None => s,
    };
    let llen = line.unicode_len();
    let colon = match find_char_in(line, ':', 0) {
        Some(j) => j,
        None => {
            return None;
        },
    };
    let name = line.substring_char(0, colon).to_owned();
    let value = line.substring_char(colon + 1, llen).to_owned();
    let h = Header { name, value };
    let ghost hv = h@;
    match line_end {
        None => {
            let mut v: Vec<Header> = Vec::new();
            v.push(h);
            proof {
                assert(v@.map_values(|x: Header| x@) =~= seq![hv]);
            }
            Some(v)
        },
        Some(i) => {
            let rest: &str = s.substring_char(i + 1, len);
            match parse_headers_exec(rest) {
                None => None,
                Some(mut v) => {
                    let ghost tail = v@.map_values(|x: Header| x@);
                    v.insert(0, h);
                    proof {
                        assert(v@.map_values(|x: Header| x@) =~= seq![hv] + tail);
                    }
                    Some(v)
                },
            }
        },
    }
}

/// The message every parse failure carries: a fixed prefix followed by the
/// preprocessed text.
fn invalid_message_exec(p: &str) -> (m: String)
    ensures
        m@ == "invalid http response: "@ + p@,
{
    String::from_str("invalid http response: ").concat(p)
}

} // verus!
