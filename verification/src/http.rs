//! A minimal HTTP/1.x request parser and responder.
//!
//! A request head ends with a blank line. The request line and the `Connection` header decide
//! whether the connection survives the response (RFC 9112): HTTP/1.1 persists unless told
//! otherwise, HTTP/1.0 closes unless asked to persist.
use vstd::prelude::*;

use crate::utils::push_all;

pub mod headers;

verus! {

/// The HTTP version on the request line.
#[derive(Debug, Clone, Copy, PartialEq, Eq, Structural)]
pub enum Version {
    Http10,
    Http11,
}

/// A parsed HTTP request: the fields that the server needs.
#[derive(Debug, PartialEq, Eq)]
pub struct Request {
    pub method: String,
    pub path: String,
    pub version: Version,
    /// Whether the connection persists after the response.
    pub keep_alive: bool,
}

impl Clone for Request {
    fn clone(&self) -> (r: Request)
        ensures
            r@ == self@,
    {
        Request {
            method: self.method.clone(),
            path: self.path.clone(),
            version: self.version,
            keep_alive: self.keep_alive,
        }
    }
}

/// The content of a request.
#[verifier::ext_equal]
pub struct RequestText {
    pub method: Seq<char>,
    pub path: Seq<char>,
    pub version: Version,
    pub keep_alive: bool,
}

impl View for Request {
    type V = RequestText;

    open spec fn view(&self) -> RequestText {
        RequestText {
            method: self.method@,
            path: self.path@,
            version: self.version,
            keep_alive: self.keep_alive,
        }
    }
}

/// A blank line, CR LF CR LF, stands at `i`.
pub open spec fn blank_line_at(buf: Seq<u8>, i: int) -> bool {
    0 <= i && i + 4 <= buf.len() && buf[i] == 13 && buf[i + 1] == 10 && buf[i + 2] == 13 && buf[i
        + 3] == 10
}

/// The length of the request head that ends with the first blank line at or behind `from`.
pub open spec fn head_len_from(buf: Seq<u8>, from: int) -> Option<int>
    decreases buf.len() - from,
{
    if from < 0 || from + 4 > buf.len() {
        None
    } else if blank_line_at(buf, from) {
        Some(from + 4)
    } else {
        head_len_from(buf, from + 1)
    }
}

/// The length of the first complete request head in `buf`, blank line included.
pub open spec fn head_len(buf: Seq<u8>) -> Option<int> {
    head_len_from(buf, 0)
}

/// Does `buf` hold a complete request head? Returns its length, blank line included, so that the
/// caller can take exactly one request. `None` while the head is still arriving.
pub fn request_head_len(buf: &[u8]) -> (r: Option<usize>)
    ensures
        match r {
            Some(n) => head_len(buf@) == Some(n as int),
            None => head_len(buf@) is None,
        },
        r is Some ==> 4 <= r->0 <= buf@.len(),
{
    let mut i: usize = 0;
    while buf.len() - i >= 4
        invariant
            i <= buf@.len(),
            head_len_from(buf@, i as int) == head_len(buf@),
        decreases buf@.len() - i,
    {
        if buf[i] == 13 && buf[i + 1] == 10 && buf[i + 2] == 13 && buf[i + 3] == 10 {
            return Some(i + 4);
        }
        i += 1;
    }
    None
}

/// The bytes of a text.
pub open spec fn utf8(text: Seq<char>) -> Seq<u8> {
    vstd::utf8::encode_utf8(text)
}

/// `buf` begins with `prefix`.
pub open spec fn begins_with(buf: Seq<u8>, prefix: Seq<u8>) -> bool {
    prefix.len() <= buf.len() && buf.take(prefix.len() as int) == prefix
}

/// The bytes begin a request line with one of the methods we serve.
pub open spec fn sniffed(buf: Seq<u8>) -> bool {
    ||| begins_with(buf, utf8("GET "@))
    ||| begins_with(buf, utf8("HEAD "@))
    ||| begins_with(buf, utf8("POST "@))
    ||| begins_with(buf, utf8("PUT "@))
    ||| begins_with(buf, utf8("DELETE "@))
}

fn starts_with(buf: &[u8], prefix: &[u8]) -> (r: bool)
    ensures
        r == begins_with(buf@, prefix@),
{
    if buf.len() < prefix.len() {
        return false;
    }
    let mut i: usize = 0;
    while i < prefix.len()
        invariant
            i <= prefix@.len() <= buf@.len(),
            forall|j: int| 0 <= j < i ==> buf@[j] == prefix@[j],
        decreases prefix@.len() - i,
    {
        if buf[i] != prefix[i] {
            assert(buf@.take(prefix@.len() as int)[i as int] != prefix@[i as int]);
            return false;
        }
        i += 1;
    }
    assert(buf@.take(prefix@.len() as int) =~= prefix@);
    true
}

/// Do these bytes begin a request that we serve? Tells an HTTP client from a raw echo session.
pub fn looks_like_request(buf: &[u8]) -> (r: bool)
    ensures
        r == sniffed(buf@),
{
    starts_with(buf, "GET ".as_bytes()) || starts_with(buf, "HEAD ".as_bytes()) || starts_with(
        buf,
        "POST ".as_bytes(),
    ) || starts_with(buf, "PUT ".as_bytes()) || starts_with(buf, "DELETE ".as_bytes())
}

// ---- Text ----

/// The first index of `c` at or behind `from`, or the length.
pub open spec fn index_of(s: Seq<char>, c: char, from: int) -> int
    decreases s.len() - from,
{
    if from < 0 || from >= s.len() || s[from] == c {
        from
    } else {
        index_of(s, c, from + 1)
    }
}

/// A line end, CR LF, stands at `i`.
pub open spec fn line_end_at(s: Seq<char>, i: int) -> bool {
    0 <= i && i + 2 <= s.len() && s[i] == '\r' && s[i + 1] == '\n'
}

/// The first line end at or behind `from`, or the length.
pub open spec fn line_end(s: Seq<char>, from: int) -> int
    decreases s.len() - from,
{
    if from < 0 || from >= s.len() || line_end_at(s, from) {
        from
    } else {
        line_end(s, from + 1)
    }
}

/// Unicode white space (the `White_Space` property).
pub open spec fn is_space(c: char) -> bool {
    let n = c as u32;
    ||| 0x09 <= n <= 0x0d
    ||| n == 0x20
    ||| n == 0x85
    ||| n == 0xa0
    ||| n == 0x1680
    ||| 0x2000 <= n <= 0x200a
    ||| n == 0x2028
    ||| n == 0x2029
    ||| n == 0x202f
    ||| n == 0x205f
    ||| n == 0x3000
}

/// `s` without leading white space.
pub open spec fn trimmed_start(s: Seq<char>) -> Seq<char>
    decreases s.len(),
{
    if s.len() > 0 && is_space(s[0]) {
        trimmed_start(s.drop_first())
    } else {
        s
    }
}

/// `s` without trailing white space.
pub open spec fn trimmed_end(s: Seq<char>) -> Seq<char>
    decreases s.len(),
{
    if s.len() > 0 && is_space(s.last()) {
        trimmed_end(s.drop_last())
    } else {
        s
    }
}

/// `s` without leading and trailing white space.
pub open spec fn trimmed(s: Seq<char>) -> Seq<char> {
    trimmed_end(trimmed_start(s))
}

/// ASCII lower case.
pub open spec fn lowered(c: char) -> u32 {
    if 'A' <= c <= 'Z' {
        (c as u32 + 32) as u32
    } else {
        c as u32
    }
}

/// Equal but for the case of ASCII letters.
pub open spec fn same_word(a: Seq<char>, b: Seq<char>) -> bool {
    a.len() == b.len() && forall|i: int| 0 <= i < a.len() ==> lowered(#[trigger] a[i]) == lowered(
        b[i],
    )
}

/// Whether the connection persists after a header line: only `Connection: close` and
/// `Connection: keep-alive` change it, whatever their case and the space around them.
pub open spec fn after_header(keep_alive: bool, line: Seq<char>) -> bool {
    let colon = index_of(line, ':', 0);
    let name = trimmed(line.take(colon));
    let value = trimmed(line.skip(colon + 1));
    if colon < line.len() && same_word(name, "connection"@) {
        if same_word(value, "close"@) {
            false
        } else if same_word(value, "keep-alive"@) {
            true
        } else {
            keep_alive
        }
    } else {
        keep_alive
    }
}

/// Whether the connection persists after the header lines that begin at `from`, up to a blank line
/// or the end of the text.
pub open spec fn after_headers(text: Seq<char>, from: int, keep_alive: bool) -> bool
    decreases text.len() - from,
{
    let end = line_end(text, from);
    if from < 0 || from > text.len() || end < from || end > text.len() || end == from {
        keep_alive
    } else {
        let now = after_header(keep_alive, text.subrange(from, end));
        if end + 2 > text.len() {
            now
        } else {
            after_headers(text, end + 2, now)
        }
    }
}

/// The version named on a request line.
pub open spec fn version_of(word: Seq<char>) -> Option<Version> {
    if word == "HTTP/1.1"@ {
        Some(Version::Http11)
    } else if word == "HTTP/1.0"@ {
        Some(Version::Http10)
    } else {
        None
    }
}

/// The request in `text`: a method, a path and a supported version on the first line, separated by
/// single spaces (further words are ignored), then headers.
pub open spec fn request_in(text: Seq<char>) -> Option<RequestText> {
    let end = line_end(text, 0);
    let line = text.take(end);
    let a = index_of(line, ' ', 0);
    let b = index_of(line, ' ', a + 1);
    let c = index_of(line, ' ', b + 1);
    let version = version_of(line.subrange(b + 1, c));
    if a >= line.len() || b >= line.len() || version is None || a == 0 || b == a + 1 {
        None
    } else {
        Some(
            RequestText {
                method: line.take(a),
                path: line.subrange(a + 1, b),
                version: version->0,
                keep_alive: if end == text.len() {
                    version->0 == Version::Http11
                } else {
                    after_headers(text, end + 2, version->0 == Version::Http11)
                },
            },
        )
    }
}

/// The request in the bytes of a head: none if they are not UTF-8.
pub open spec fn parsed_request(head: Seq<u8>) -> Option<RequestText> {
    if vstd::utf8::valid_utf8(head) {
        request_in(vstd::utf8::decode_utf8(head))
    } else {
        None
    }
}

/// `std::str::from_utf8`: the text that the bytes encode, or `None` if they are not valid UTF-8.
#[verifier::external_body]
fn decode(bytes: &[u8]) -> (text: Option<&str>)
    ensures
        text is Some <==> vstd::utf8::valid_utf8(bytes@),
        text is Some ==> text->0@ == vstd::utf8::decode_utf8(bytes@),
{
    std::str::from_utf8(bytes).ok()
}

/// The characters of `text`.
fn chars_of(text: &str) -> (chars: Vec<char>)
    ensures
        chars@ == text@,
{
    let mut chars: Vec<char> = Vec::new();
    for c in it: text.chars()
        invariant
            it.seq() == text@,
            chars@ == text@.take(it.index()),
    {
        chars.push(c);
        assert(chars@ =~= text@.take(it.index() + 1));
    }
    assert(text@.take(text@.len() as int) =~= text@);
    chars
}

/// A copy of `chars[from..to]`.
fn copy_chars(chars: &Vec<char>, from: usize, to: usize) -> (out: Vec<char>)
    requires
        from <= to <= chars@.len(),
    ensures
        out@ == chars@.subrange(from as int, to as int),
{
    let mut out: Vec<char> = Vec::new();
    let mut i: usize = from;
    while i < to
        invariant
            from <= i <= to <= chars@.len(),
            out@ == chars@.subrange(from as int, i as int),
        decreases to - i,
    {
        out.push(chars[i]);
        i += 1;
        assert(out@ =~= chars@.subrange(from as int, i as int));
    }
    out
}

/// The first index of `c` at or behind `from`, or the length.
fn find(chars: &Vec<char>, c: char, from: usize) -> (i: usize)
    requires
        from <= chars@.len(),
    ensures
        i == index_of(chars@, c, from as int),
        from <= i <= chars@.len(),
{
    let mut i: usize = from;
    while i < chars.len() && chars[i] != c
        invariant
            from <= i <= chars@.len(),
            index_of(chars@, c, i as int) == index_of(chars@, c, from as int),
        decreases chars@.len() - i,
    {
        i += 1;
    }
    i
}

/// The first line end at or behind `from`, or the length.
fn find_line_end(chars: &Vec<char>, from: usize) -> (i: usize)
    requires
        from <= chars@.len(),
    ensures
        i == line_end(chars@, from as int),
        from <= i <= chars@.len(),
        i < chars@.len() ==> i + 2 <= chars@.len(),
{
    let mut i: usize = from;
    while i < chars.len() && !(chars.len() - i >= 2 && chars[i] == '\r' && chars[i + 1] == '\n')
        invariant
            from <= i <= chars@.len(),
            line_end(chars@, i as int) == line_end(chars@, from as int),
        decreases chars@.len() - i,
    {
        i += 1;
    }
    i
}

fn is_white_space(c: char) -> (r: bool)
    ensures
        r == is_space(c),
{
    let n: u32 = c as u32;
    (0x09 <= n && n <= 0x0d) || n == 0x20 || n == 0x85 || n == 0xa0 || n == 0x1680 || (0x2000 <= n
        && n <= 0x200a) || n == 0x2028 || n == 0x2029 || n == 0x202f || n == 0x205f || n == 0x3000
}

/// `chars[from..to]` without white space at either end.
fn trim(chars: &Vec<char>, from: usize, to: usize) -> (out: Vec<char>)
    requires
        from <= to <= chars@.len(),
    ensures
        out@ == trimmed(chars@.subrange(from as int, to as int)),
{
    let mut a: usize = from;
    while a < to && is_white_space(chars[a])
        invariant
            from <= a <= to <= chars@.len(),
            trimmed_start(chars@.subrange(a as int, to as int)) == trimmed_start(
                chars@.subrange(from as int, to as int),
            ),
        decreases to - a,
    {
        assert(chars@.subrange(a as int, to as int).drop_first() =~= chars@.subrange(
            a + 1,
            to as int,
        ));
        a += 1;
    }
    let mut b: usize = to;
    while b > a && is_white_space(chars[b - 1])
        invariant
            a <= b <= to <= chars@.len(),
            trimmed_end(chars@.subrange(a as int, b as int)) == trimmed_end(
                chars@.subrange(a as int, to as int),
            ),
        decreases b,
    {
        assert(chars@.subrange(a as int, b as int).drop_last() =~= chars@.subrange(
            a as int,
            b - 1,
        ));
        b -= 1;
    }
    copy_chars(chars, a, b)
}

fn lower(c: char) -> (n: u32)
    ensures
        n == lowered(c),
{
    if 'A' <= c && c <= 'Z' {
        c as u32 + 32
    } else {
        c as u32
    }
}

/// Are the two equal but for the case of ASCII letters?
fn is_word(chars: &Vec<char>, word: &str) -> (r: bool)
    ensures
        r == same_word(chars@, word@),
{
    let letters: Vec<char> = chars_of(word);
    if chars.len() != letters.len() {
        return false;
    }
    let mut i: usize = 0;
    while i < chars.len()
        invariant
            letters@ == word@,
            i <= chars@.len() == word@.len(),
            forall|j: int| 0 <= j < i ==> lowered(#[trigger] chars@[j]) == lowered(word@[j]),
        decreases chars@.len() - i,
    {
        if lower(chars[i]) != lower(letters[i]) {
            assert(lowered(chars@[i as int]) != lowered(word@[i as int]));
            return false;
        }
        i += 1;
    }
    true
}

/// Whether the connection persists after the header line `line`.
fn persists_after(keep_alive: bool, line: &Vec<char>) -> (r: bool)
    ensures
        r == after_header(keep_alive, line@),
{
    let colon: usize = find(line, ':', 0);
    if colon == line.len() {
        return keep_alive;
    }
    let name: Vec<char> = trim(line, 0, colon);
    let value: Vec<char> = trim(line, colon + 1, line.len());
    assert(line@.subrange(0, colon as int) =~= line@.take(colon as int));
    assert(line@.subrange(colon + 1, line@.len() as int) =~= line@.skip(colon + 1));
    if is_word(&name, "connection") {
        if is_word(&value, "close") {
            return false;
        }
        if is_word(&value, "keep-alive") {
            return true;
        }
    }
    keep_alive
}

/// Whether the connection persists after the header lines from `from` on.
fn persists_after_all(chars: &Vec<char>, from: usize, keep_alive: bool) -> (r: bool)
    requires
        from <= chars@.len(),
    ensures
        r == after_headers(chars@, from as int, keep_alive),
{
    let mut at: usize = from;
    let mut persists: bool = keep_alive;
    loop
        invariant
            at <= chars@.len(),
            after_headers(chars@, at as int, persists) == after_headers(
                chars@,
                from as int,
                keep_alive,
            ),
        decreases chars@.len() - at,
    {
        let end: usize = find_line_end(chars, at);
        if end == at {
            return persists;
        }
        let line: Vec<char> = copy_chars(chars, at, end);
        persists = persists_after(persists, &line);
        if end == chars.len() {
            return persists;
        }
        at = end + 2;
    }
}

/// The version a word names.
fn version_named(word: &str) -> (v: Option<Version>)
    ensures
        v == version_of(word@),
{
    let word: String = word.to_owned();
    if word == "HTTP/1.1".to_owned() {
        Some(Version::Http11)
    } else if word == "HTTP/1.0".to_owned() {
        Some(Version::Http10)
    } else {
        None
    }
}

/// Parse a complete request head. `None` if the request line is malformed or the bytes are no
/// text. Of the headers only `Connection` is read.
pub fn parse_request(head: &[u8]) -> (r: Option<Request>)
    ensures
        match r {
            Some(req) => parsed_request(head@) == Some(req@),
            None => parsed_request(head@) is None,
        },
{
    match decode(head) {
        Some(text) => parse_text(text),
        None => None,
    }
}

/// Parse the text of a request head.
pub fn parse_text(text: &str) -> (r: Option<Request>)
    ensures
        match r {
            Some(req) => request_in(text@) == Some(req@),
            None => request_in(text@) is None,
        },
{
    let chars: Vec<char> = chars_of(text);
    let end: usize = find_line_end(&chars, 0);
    let line: Vec<char> = copy_chars(&chars, 0, end);
    assert(line@ =~= text@.take(end as int));
    let a: usize = find(&line, ' ', 0);
    if a == line.len() || a == 0 {
        return None;
    }
    let b: usize = find(&line, ' ', a + 1);
    if b == line.len() || b == a + 1 {
        return None;
    }
    let c: usize = find(&line, ' ', b + 1);
    let version: Version = match version_named(text.substring_char(b + 1, c)) {
        Some(v) => v,
        None => {
            assert(text@.subrange(b + 1, c as int) =~= line@.subrange(b + 1, c as int));
            return None;
        },
    };
    let default: bool = version == Version::Http11;
    let keep_alive: bool = if end == chars.len() {
        default
    } else {
        persists_after_all(&chars, end + 2, default)
    };
    let method: String = text.substring_char(0, a).to_owned();
    let path: String = text.substring_char(a + 1, b).to_owned();
    assert(text@.subrange(b + 1, c as int) =~= line@.subrange(b + 1, c as int));
    assert(method@ =~= line@.take(a as int));
    assert(path@ =~= line@.subrange(a + 1, b as int));
    Some(Request { method, path, version, keep_alive })
}

/// The body of every response.
pub open spec fn body_text() -> Seq<char> {
    "Hello from a TCP/IP stack built from scratch in Rust!\n"@
}

/// The header of the response: `Connection` and the version agree on whether it persists, and the
/// length lets the peer frame the body without an end of stream.
pub open spec fn response_head(keep_alive: bool) -> Seq<char> {
    (if keep_alive {
        "HTTP/1.1"@
    } else {
        "HTTP/1.0"@
    }) + " 200 OK\r\nContent-Type: text/plain\r\nContent-Length: 54\r\nConnection: "@ + (
    if keep_alive {
        "keep-alive"@
    } else {
        "close"@
    }) + "\r\n\r\n"@
}

/// The response to a request. HEAD gets no body, but the length it would have had.
pub open spec fn response_bytes(req: RequestText) -> Seq<u8> {
    utf8(response_head(req.keep_alive)) + (if req.method == "HEAD"@ {
        Seq::empty()
    } else {
        utf8(body_text())
    })
}

/// Build the `200 OK` response for a request.
pub fn response(req: &Request) -> (out: Vec<u8>)
    ensures
        out@ == response_bytes(req@),
{
    let mut head: String = String::new();
    if req.keep_alive {
        head.append("HTTP/1.1");
    } else {
        head.append("HTTP/1.0");
    }
    head.append(" 200 OK\r\nContent-Type: text/plain\r\nContent-Length: 54\r\nConnection: ");
    if req.keep_alive {
        head.append("keep-alive");
    } else {
        head.append("close");
    }
    head.append("\r\n\r\n");
    assert(head@ =~= response_head(req.keep_alive));
    let mut out: Vec<u8> = Vec::new();
    push_all(&mut out, head.as_str().as_bytes());
    if req.method != "HEAD".to_owned() {
        push_all(
            &mut out,
            "Hello from a TCP/IP stack built from scratch in Rust!\n".as_bytes(),
        );
    }
    assert(out@ =~= response_bytes(req@));
    out
}

proof fn lemma_head_len_from(buf: Seq<u8>, from: int)
    requires
        0 <= from,
    ensures
        match head_len_from(buf, from) {
            Some(n) => from + 4 <= n <= buf.len() && blank_line_at(buf, n - 4) && forall|i: int|
                from <= i < n - 4 ==> !blank_line_at(buf, i),
            None => forall|i: int| from <= i ==> !blank_line_at(buf, i),
        },
    decreases buf.len() - from,
{
    if from + 4 <= buf.len() && !blank_line_at(buf, from) {
        lemma_head_len_from(buf, from + 1);
        assert forall|i: int| from <= i && i < from + 1 implies !blank_line_at(buf, i) by {
            assert(i == from);
        }
    }
}

/// A head ends with the first blank line: it is found if and only if there is one, and no earlier
/// blank line is passed over.
pub proof fn law_head_ends_at_first_blank_line(buf: Seq<u8>)
    ensures
        match head_len(buf) {
            Some(n) => 4 <= n <= buf.len() && blank_line_at(buf, n - 4) && forall|i: int|
                0 <= i < n - 4 ==> !blank_line_at(buf, i),
            None => forall|i: int| !blank_line_at(buf, i),
        },
{
    lemma_head_len_from(buf, 0);
}

proof fn lemma_head_len_extends(buf: Seq<u8>, more: Seq<u8>, from: int)
    requires
        0 <= from,
        head_len_from(buf, from) is Some,
    ensures
        head_len_from(buf + more, from) == head_len_from(buf, from),
    decreases buf.len() - from,
{
    if !blank_line_at(buf, from) {
        lemma_head_len_extends(buf, more, from + 1);
    }
}

/// Pipelining: bytes that follow a complete head do not move its end, so the head can be taken
/// and the rest left for the next request.
pub proof fn law_pipelined_bytes_stay_behind(buf: Seq<u8>, more: Seq<u8>)
    requires
        head_len(buf) is Some,
    ensures
        head_len(buf + more) == head_len(buf),
        (buf + more).take(head_len(buf)->0) == buf.take(head_len(buf)->0),
        (buf + more).skip(head_len(buf)->0) == buf.skip(head_len(buf)->0) + more,
{
    lemma_head_len_extends(buf, more, 0);
    lemma_head_len_from(buf, 0);
    let n = head_len(buf)->0;
    assert((buf + more).take(n) =~= buf.take(n));
    assert((buf + more).skip(n) =~= buf.skip(n) + more);
}

/// Persistence defaults by version (RFC 9112): without headers, HTTP/1.1 persists and HTTP/1.0
/// closes.
pub proof fn law_persistence_default(text: Seq<char>)
    requires
        request_in(text) is Some,
        line_end(text, 0) == text.len() || line_end(text, line_end(text, 0) + 2) == line_end(
            text,
            0,
        ) + 2,
    ensures
        (request_in(text)->0).keep_alive <==> (request_in(text)->0).version == Version::Http11,
{
}

/// A `Connection` header decides: `close` ends persistence and `keep-alive` grants it, whatever
/// was so before.
pub proof fn law_connection_header_decides(keep_alive: bool, line: Seq<char>)
    requires
        index_of(line, ':', 0) < line.len(),
        same_word(trimmed(line.take(index_of(line, ':', 0))), "connection"@),
    ensures
        same_word(trimmed(line.skip(index_of(line, ':', 0) + 1)), "close"@) ==> !after_header(
            keep_alive,
            line,
        ),
        same_word(trimmed(line.skip(index_of(line, ':', 0) + 1)), "keep-alive"@)
            ==> after_header(keep_alive, line),
{
    reveal_strlit("close");
    reveal_strlit("keep-alive");
}

/// The advertised length is the length of the body.
pub proof fn law_content_length_matches_body()
    ensures
        utf8(body_text()).len() == 54,
{
    reveal_strlit("Hello from a TCP/IP stack built from scratch in Rust!\n");
    vstd::utf8::is_ascii_chars_encode_utf8(body_text());
}

/// The header of a response is plain ASCII and its only blank line is the one that ends it.
proof fn lemma_response_head(keep_alive: bool)
    ensures
        ({
            let h = response_head(keep_alive);
            &&& vstd::utf8::is_ascii_chars(h)
            &&& h.len() >= 4
            &&& h[h.len() - 4] == '\r' && h[h.len() - 3] == '\n'
            &&& h[h.len() - 2] == '\r' && h[h.len() - 1] == '\n'
            &&& forall|i: int|
                0 <= i < h.len() - 4 ==> !(#[trigger] h[i] == '\r' && h[i + 2] == '\r')
        }),
{
    reveal_strlit("HTTP/1.1");
    reveal_strlit("HTTP/1.0");
    reveal_strlit(" 200 OK\r\nContent-Type: text/plain\r\nContent-Length: 54\r\nConnection: ");
    reveal_strlit("keep-alive");
    reveal_strlit("close");
    reveal_strlit("\r\n\r\n");
}

/// A response is self-delimiting, whatever follows it on the connection: its head ends with the
/// first blank line, and behind the head stand exactly as many bytes as the head announces, or
/// none for HEAD.
pub proof fn law_responses_are_framed(req: RequestText, more: Seq<u8>)
    ensures
        ({
            let head = utf8(response_head(req.keep_alive));
            let n = head.len() as int;
            let sent = response_bytes(req) + more;
            &&& head_len(sent) == Some(n)
            &&& sent.take(n) == head
            &&& req.method != "HEAD"@ ==> sent.subrange(n, n + 54)
                == utf8(body_text()) && sent.skip(n + 54) == more
            &&& req.method == "HEAD"@ ==> sent.skip(n) == more
        }),
{
    let h = response_head(req.keep_alive);
    let head = utf8(h);
    let n = h.len() as int;
    let sent = response_bytes(req) + more;
    lemma_response_head(req.keep_alive);
    vstd::utf8::is_ascii_chars_encode_utf8(h);
    law_content_length_matches_body();
    assert(head.len() == h.len());
    assert forall|i: int| 0 <= i < n - 4 implies !blank_line_at(head, i) by {
        assert(h[i] as u8 == head[i] && h[i + 2] as u8 == head[i + 2]);
    }
    assert(blank_line_at(head, n - 4)) by {
        assert(h[n - 4] as u8 == head[n - 4] && h[n - 3] as u8 == head[n - 3]);
        assert(h[n - 2] as u8 == head[n - 2] && h[n - 1] as u8 == head[n - 1]);
    }
    lemma_head_len_from(head, 0);
    let rest = sent.skip(n);
    assert(sent =~= head + rest);
    lemma_head_len_extends(head, rest, 0);
    assert(sent.take(n) =~= head);
    if req.method != "HEAD"@ {
        assert(sent.subrange(n, n + 54) =~= utf8(body_text()));
        assert(sent.skip(n + 54) =~= more);
    } else {
        assert(rest =~= more);
    }
}

} // verus!
