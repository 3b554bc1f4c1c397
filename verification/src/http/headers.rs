//! What the lines of a request head mean, stated over the lines themselves.
//!
//! A head is a request line and header lines, each closed by CR LF, and a blank line. The laws here
//! start from the lines and say what the parser makes of the text that they form.
use vstd::prelude::*;

use crate::http::{RequestText, Version};

verus! {

/// CR LF.
pub open spec fn crlf() -> Seq<char> {
    seq!['\r', '\n']
}

/// A line holds no CR LF.
pub open spec fn is_line(line: Seq<char>) -> bool {
    forall|i: int| 0 <= i < line.len() - 1 ==> !(#[trigger] line[i] == '\r' && line[i + 1] == '\n')
}

/// Header lines: none of them is empty.
pub open spec fn are_headers(lines: Seq<Seq<char>>) -> bool {
    forall|i: int| 0 <= i < lines.len() ==> is_line(#[trigger] lines[i]) && lines[i].len() > 0
}

/// The text of `lines`, each closed by CR LF.
pub open spec fn joined(lines: Seq<Seq<char>>) -> Seq<char>
    decreases lines.len(),
{
    if lines.len() == 0 {
        Seq::empty()
    } else {
        lines[0] + crlf() + joined(lines.drop_first())
    }
}

/// White space: the characters with the Unicode property of that name.
pub open spec fn is_white(c: char) -> bool {
    let n = c as u32;
    9 <= n <= 13 || n == 32 || n == 133 || n == 160 || n == 5760 || 8192 <= n <= 8202 || n == 8232
        || n == 8233 || n == 8239 || n == 8287 || n == 12288
}

/// `c` is the character `lower`, or its capital if that is an ASCII letter.
pub open spec fn is_letter(c: char, lower: char) -> bool {
    c == lower || ('a' <= lower <= 'z' && c as u32 + 32 == lower as u32)
}

/// `text` is `word`, which is written in lower case, in any case and with any white space around
/// it: it begins at `a` and ends at `b`.
pub open spec fn spells_at(text: Seq<char>, word: Seq<char>, a: int, b: int) -> bool {
    &&& 0 <= a <= b <= text.len() && b - a == word.len()
    &&& forall|i: int| 0 <= i < a ==> is_white(#[trigger] text[i])
    &&& forall|i: int| b <= i < text.len() ==> is_white(#[trigger] text[i])
    &&& forall|i: int| a <= i < b ==> is_letter(#[trigger] text[i], word[i - a])
}

/// `text` is `word` in any case and with any white space around it.
pub open spec fn spells(text: Seq<char>, word: Seq<char>) -> bool {
    exists|a: int, b: int| #[trigger] spells_at(text, word, a, b)
}

/// `line` is the header `name: value`: `name` stands before the first colon, `value` behind it.
pub open spec fn is_header(line: Seq<char>, name: Seq<char>, value: Seq<char>) -> bool {
    exists|k: int|
        0 <= k < line.len() && #[trigger] line[k] == ':' && (forall|i: int|
            0 <= i < k ==> #[trigger] line[i] != ':') && spells(line.take(k), name) && spells(
            line.skip(k + 1),
            value,
        )
}

/// `Connection: close`.
pub open spec fn says_close(line: Seq<char>) -> bool {
    is_header(
        line,
        seq!['c', 'o', 'n', 'n', 'e', 'c', 't', 'i', 'o', 'n'],
        seq!['c', 'l', 'o', 's', 'e'],
    )
}

/// `Connection: keep-alive`.
pub open spec fn says_keep_alive(line: Seq<char>) -> bool {
    is_header(
        line,
        seq!['c', 'o', 'n', 'n', 'e', 'c', 't', 'i', 'o', 'n'],
        seq!['k', 'e', 'e', 'p', '-', 'a', 'l', 'i', 'v', 'e'],
    )
}

/// Whether the connection persists after `lines`, read one after the other.
pub open spec fn after_lines(keep_alive: bool, lines: Seq<Seq<char>>) -> bool
    decreases lines.len(),
{
    if lines.len() == 0 {
        keep_alive
    } else {
        after_lines(crate::http::after_header(keep_alive, lines[0]), lines.drop_first())
    }
}

proof fn lemma_index_of(s: Seq<char>, c: char, from: int)
    requires
        0 <= from <= s.len(),
    ensures
        ({
            let k = crate::http::index_of(s, c, from);
            &&& from <= k <= s.len()
            &&& k < s.len() ==> s[k] == c
            &&& forall|i: int| from <= i < k ==> #[trigger] s[i] != c
        }),
    decreases s.len() - from,
{
    if from < s.len() && s[from] != c {
        lemma_index_of(s, c, from + 1);
    }
}

proof fn lemma_line_end(s: Seq<char>, from: int)
    requires
        0 <= from <= s.len(),
    ensures
        ({
            let k = crate::http::line_end(s, from);
            &&& from <= k <= s.len()
            &&& k < s.len() ==> k + 2 <= s.len() && s[k] == '\r' && s[k + 1] == '\n'
            &&& forall|i: int|
                from <= i < k && i + 2 <= s.len() ==> !(#[trigger] s[i] == '\r' && s[i + 1] == '\n')
        }),
    decreases s.len() - from,
{
    if from < s.len() && !crate::http::line_end_at(s, from) {
        lemma_line_end(s, from + 1);
    }
}

/// A line followed by CR LF, or by nothing, ends where it ends.
proof fn lemma_line_is_found(s: Seq<char>, from: int, line: Seq<char>)
    requires
        0 <= from,
        from + line.len() <= s.len(),
        is_line(line),
        s.subrange(from, from + line.len()) == line,
        from + line.len() == s.len() || (from + line.len() + 2 <= s.len() && s[from + line.len()]
            == '\r' && s[from + line.len() + 1] == '\n'),
    ensures
        crate::http::line_end(s, from) == from + line.len(),
{
    lemma_line_end(s, from);
    let k = crate::http::line_end(s, from);
    let n = from + line.len();
    if k < n {
        assert(s[k] == line[k - from]);
        if k + 1 < n {
            assert(s[k + 1] == line[k + 1 - from]);
            assert(!(line[k - from] == '\r' && line[k - from + 1] == '\n'));
        }
        assert(false);
    }
    if k > n {
        assert(s[n] == '\r');
        assert(false);
    }
}

/// Trimming takes away the white space at both ends and nothing else.
pub proof fn law_trimming_takes_the_ends(s: Seq<char>)
    ensures
        exists|a: int, b: int|
            0 <= a <= b <= s.len() && #[trigger] s.subrange(a, b) == crate::http::trimmed(s) && (
            forall|i: int| 0 <= i < a || b <= i < s.len() ==> is_white(#[trigger] s[i])) && (a < b
                ==> !is_white(s[a]) && !is_white(s[b - 1])),
{
    let t = crate::http::trimmed_start(s);
    lemma_trimmed_start(s);
    lemma_trimmed_end(t);
    let a = s.len() - t.len();
    let b = a + crate::http::trimmed_end(t).len();
    assert(t =~= s.skip(a));
    assert(s.subrange(a, b) =~= crate::http::trimmed(s));
    assert forall|i: int| 0 <= i < a || b <= i < s.len() implies is_white(#[trigger] s[i]) by {
        if b <= i {
            assert(s[i] == t[i - a]);
        }
    }
    if a < b {
        assert(s[a] == t[0] && s[b - 1] == t[b - 1 - a]);
    }
}

proof fn lemma_trimmed_start(s: Seq<char>)
    ensures
        ({
            let t = crate::http::trimmed_start(s);
            &&& t.len() <= s.len() && t == s.skip(s.len() - t.len())
            &&& forall|i: int| 0 <= i < s.len() - t.len() ==> is_white(#[trigger] s[i])
            &&& t.len() > 0 ==> !is_white(t[0])
        }),
    decreases s.len(),
{
    if s.len() > 0 && crate::http::is_space(s[0]) {
        let r = s.drop_first();
        lemma_trimmed_start(r);
        let t = crate::http::trimmed_start(s);
        assert(t =~= s.skip(s.len() - t.len()));
        assert forall|i: int| 0 <= i < s.len() - t.len() implies is_white(#[trigger] s[i]) by {
            if i > 0 {
                assert(s[i] == r[i - 1]);
            }
        }
    } else {
        assert(s =~= s.skip(0));
    }
}

proof fn lemma_trimmed_end(s: Seq<char>)
    ensures
        ({
            let t = crate::http::trimmed_end(s);
            &&& t.len() <= s.len() && t == s.take(t.len() as int)
            &&& forall|i: int| t.len() <= i < s.len() ==> is_white(#[trigger] s[i])
            &&& t.len() > 0 ==> !is_white(t.last())
        }),
    decreases s.len(),
{
    if s.len() > 0 && crate::http::is_space(s.last()) {
        let r = s.drop_last();
        lemma_trimmed_end(r);
        let t = crate::http::trimmed_end(s);
        assert(t =~= s.take(t.len() as int));
        assert forall|i: int| t.len() <= i < s.len() implies is_white(#[trigger] s[i]) by {
            if i < r.len() {
                assert(s[i] == r[i]);
            }
        }
    } else {
        assert(s =~= s.take(s.len() as int));
    }
}

/// A word in lower case letters and hyphens.
pub open spec fn is_lower_word(word: Seq<char>) -> bool {
    word.len() > 0 && forall|i: int|
        0 <= i < word.len() ==> ('a' <= #[trigger] word[i] <= 'z' || word[i] == '-')
}

proof fn lemma_letter(c: char, lower: char)
    requires
        'a' <= lower <= 'z' || lower == '-',
    ensures
        crate::http::lowered(c) == crate::http::lowered(lower) <==> is_letter(c, lower),
        is_letter(c, lower) ==> !is_white(c),
{
    vstd::utf8::char_u32_cast(c, c as u32);
    vstd::utf8::char_u32_cast(lower, lower as u32);
}

/// A field is compared without the white space around it and without regard to the case of ASCII
/// letters, and in nothing else.
pub proof fn law_fields_match_in_any_case(text: Seq<char>, word: Seq<char>)
    requires
        is_lower_word(word),
    ensures
        crate::http::same_word(crate::http::trimmed(text), word) <==> spells(text, word),
{
    let t = crate::http::trimmed(text);
    law_trimming_takes_the_ends(text);
    let (a, b) = choose|a: int, b: int|
        0 <= a <= b <= text.len() && #[trigger] text.subrange(a, b) == t && (forall|i: int|
            0 <= i < a || b <= i < text.len() ==> is_white(#[trigger] text[i])) && (a < b
            ==> !is_white(text[a]) && !is_white(text[b - 1]));
    if crate::http::same_word(t, word) {
        assert forall|i: int| a <= i < b implies is_letter(#[trigger] text[i], word[i - a]) by {
            assert(text[i] == t[i - a]);
            assert(crate::http::lowered(t[i - a]) == crate::http::lowered(word[i - a]));
            lemma_letter(text[i], word[i - a]);
        }
        assert(spells_at(text, word, a, b));
    }
    if spells(text, word) {
        let (p, q) = choose|p: int, q: int| #[trigger] spells_at(text, word, p, q);
        assert(is_letter(text[p], word[0]) && is_letter(text[q - 1], word[word.len() - 1]));
        lemma_letter(text[p], word[0]);
        lemma_letter(text[q - 1], word[word.len() - 1]);
        assert(a <= p && q <= b);
        assert(a == p && b == q);
        assert forall|i: int| 0 <= i < t.len() implies crate::http::lowered(#[trigger] t[i])
            == crate::http::lowered(word[i]) by {
            assert(t[i] == text[i + a]);
            assert(is_letter(text[i + a], word[i + a - a]));
            lemma_letter(t[i], word[i]);
        }
    }
}

/// One header line: `Connection: close` ends persistence, `Connection: keep-alive` grants it, and
/// no other line changes it.
pub proof fn law_one_header_line(keep_alive: bool, line: Seq<char>)
    ensures
        says_close(line) ==> !crate::http::after_header(keep_alive, line) && !says_keep_alive(line),
        says_keep_alive(line) ==> crate::http::after_header(keep_alive, line),
        !says_close(line) && !says_keep_alive(line) ==> crate::http::after_header(keep_alive, line)
            == keep_alive,
{
    reveal_strlit("connection");
    reveal_strlit("close");
    reveal_strlit("keep-alive");
    let name = seq!['c', 'o', 'n', 'n', 'e', 'c', 't', 'i', 'o', 'n'];
    let close = seq!['c', 'l', 'o', 's', 'e'];
    let alive = seq!['k', 'e', 'e', 'p', '-', 'a', 'l', 'i', 'v', 'e'];
    assert(name =~= "connection"@ && close =~= "close"@ && alive =~= "keep-alive"@);
    let colon = crate::http::index_of(line, ':', 0);
    lemma_index_of(line, ':', 0);
    lemma_is_header(line, name, close);
    lemma_is_header(line, name, alive);
    if colon < line.len() {
        law_fields_match_in_any_case(line.take(colon), name);
        law_fields_match_in_any_case(line.skip(colon + 1), close);
        law_fields_match_in_any_case(line.skip(colon + 1), alive);
    }
}

proof fn lemma_is_header(line: Seq<char>, name: Seq<char>, value: Seq<char>)
    ensures
        ({
            let k = crate::http::index_of(line, ':', 0);
            is_header(line, name, value) <==> k < line.len() && spells(line.take(k), name)
                && spells(line.skip(k + 1), value)
        }),
{
    let k = crate::http::index_of(line, ':', 0);
    lemma_index_of(line, ':', 0);
    if is_header(line, name, value) {
        let j = choose|j: int|
            0 <= j < line.len() && #[trigger] line[j] == ':' && (forall|i: int|
                0 <= i < j ==> #[trigger] line[i] != ':') && spells(line.take(j), name) && spells(
                line.skip(j + 1),
                value,
            );
        assert(k <= j) by {
            if j < k {
                assert(line[j] != ':');
            }
        }
        assert(j <= k) by {
            if k < j {
                assert(line[k] != ':');
            }
        }
    }
}

/// The parser reads the header lines one after the other, up to the blank line or the end of the
/// text. `tail` is what follows them: nothing, a blank line and more, or a last line without CR LF.
proof fn lemma_lines_are_read(
    text: Seq<char>,
    from: int,
    keep_alive: bool,
    lines: Seq<Seq<char>>,
    tail: Seq<char>,
)
    requires
        0 <= from <= text.len(),
        text.skip(from) == joined(lines) + tail,
        are_headers(lines),
        is_line(tail) || (tail.len() >= 2 && tail[0] == '\r' && tail[1] == '\n'),
    ensures
        crate::http::after_headers(text, from, keep_alive) == after_lines(
            keep_alive,
            if tail.len() == 0 || (tail.len() >= 2 && tail[0] == '\r' && tail[1] == '\n') {
                lines
            } else {
                lines.push(tail)
            },
        ),
    decreases lines.len(),
{
    let rest = text.skip(from);
    let blank = tail.len() >= 2 && tail[0] == '\r' && tail[1] == '\n';
    assert(rest.len() == text.len() - from);
    if lines.len() == 0 {
        assert(rest =~= tail);
        assert forall|i: int| 0 <= i < rest.len() implies text[from + i] == #[trigger] tail[i] by {
            assert(text[from + i] == rest[i]);
        }
        if blank {
            assert(text[from] == tail[0] && text[from + 1] == tail[1]);
            assert(crate::http::line_end(text, from) == from);
        } else {
            assert(text.subrange(from, from + tail.len()) =~= tail);
            lemma_line_is_found(text, from, tail);
            if tail.len() > 0 {
                let all = lines.push(tail);
                assert(all.drop_first() =~= Seq::<Seq<char>>::empty());
                assert(all[0] == tail);
                assert(after_lines(crate::http::after_header(keep_alive, tail), all.drop_first())
                    == crate::http::after_header(keep_alive, tail));
            }
        }
    } else {
        let line = lines[0];
        let more = lines.drop_first();
        let end = from + line.len();
        assert(is_line(line) && line.len() > 0);
        assert(joined(lines) == line + crlf() + joined(more));
        assert(rest =~= line + (crlf() + (joined(more) + tail)));
        assert(text.subrange(from, end) =~= line) by {
            assert forall|i: int| 0 <= i < line.len() implies text[from + i] == line[i] by {
                assert(text[from + i] == rest[i]);
            }
        }
        assert(text[end] == rest[line.len() as int] && text[end + 1] == rest[line.len() + 1int]);
        lemma_line_is_found(text, from, line);
        assert(text.skip(end + 2) =~= joined(more) + tail) by {
            assert forall|i: int| 0 <= i < text.len() - end - 2 implies text[end + 2 + i] == (
            joined(more) + tail)[i] by {
                assert(text[end + 2 + i] == rest[line.len() + 2int + i]);
            }
        }
        assert forall|i: int| 0 <= i < more.len() implies is_line(#[trigger] more[i])
            && more[i].len() > 0 by {
            assert(more[i] == lines[i + 1]);
        }
        lemma_lines_are_read(
            text,
            end + 2,
            crate::http::after_header(keep_alive, line),
            more,
            tail,
        );
        assert(lines.push(tail).drop_first() =~= more.push(tail));
        assert(lines.push(tail)[0] == line);
    }
}

/// Of the header lines the last `Connection: close` or `Connection: keep-alive` decides.
proof fn lemma_last_word_decides(keep_alive: bool, lines: Seq<Seq<char>>, last: int)
    requires
        last < lines.len(),
        forall|j: int|
            0 <= j && last < j < lines.len() ==> !says_close(#[trigger] lines[j])
                && !says_keep_alive(lines[j]),
    ensures
        last >= 0 && says_close(lines[last]) ==> !after_lines(keep_alive, lines),
        last >= 0 && says_keep_alive(lines[last]) ==> after_lines(keep_alive, lines),
        last < 0 ==> after_lines(keep_alive, lines) == keep_alive,
    decreases lines.len(),
{
    if lines.len() > 0 {
        let more = lines.drop_first();
        let now = crate::http::after_header(keep_alive, lines[0]);
        law_one_header_line(keep_alive, lines[0]);
        let next = if last < 0 {
            -1
        } else {
            last - 1
        };
        assert forall|j: int| 0 <= j && next < j < more.len() implies !says_close(
            #[trigger] more[j],
        ) && !says_keep_alive(more[j]) by {
            assert(more[j] == lines[j + 1]);
        }
        lemma_last_word_decides(now, more, next);
        if last > 0 {
            assert(more[last - 1] == lines[last]);
        }
    }
}

/// A request line: `method path version`, separated by single spaces, and perhaps more words.
pub open spec fn request_line(
    method: Seq<char>,
    path: Seq<char>,
    version: Seq<char>,
    words: Seq<char>,
) -> Seq<char> {
    method + seq![' '] + path + seq![' '] + version + words
}

/// A word: something, and no space in it.
pub open spec fn is_word(word: Seq<char>) -> bool {
    word.len() > 0 && forall|i: int| 0 <= i < word.len() ==> #[trigger] word[i] != ' '
}

/// The word for a version.
pub open spec fn version_word(version: Version) -> Seq<char> {
    match version {
        Version::Http10 => seq!['H', 'T', 'T', 'P', '/', '1', '.', '0'],
        Version::Http11 => seq!['H', 'T', 'T', 'P', '/', '1', '.', '1'],
    }
}

proof fn lemma_request_line(
    line: Seq<char>,
    method: Seq<char>,
    path: Seq<char>,
    word: Seq<char>,
    words: Seq<char>,
)
    requires
        line == request_line(method, path, word, words),
        is_word(method),
        is_word(path),
        is_word(word),
        words.len() == 0 || words[0] == ' ',
    ensures
        ({
            let a = crate::http::index_of(line, ' ', 0);
            let b = crate::http::index_of(line, ' ', a + 1);
            let c = crate::http::index_of(line, ' ', b + 1);
            &&& 0 < a < line.len() && a + 1 < b < line.len() && b < c <= line.len()
            &&& line.take(a) == method && line.subrange(a + 1, b) == path
            &&& line.subrange(b + 1, c) == word
        }),
{
    let a = method.len() as int;
    let b = a + 1 + path.len();
    let c = b + 1 + word.len();
    assert forall|i: int| 0 <= i < a implies #[trigger] line[i] != ' ' by {
        assert(line[i] == method[i]);
    }
    assert(line[a] == ' ' && line[b] == ' ');
    assert forall|i: int| a < i < b implies #[trigger] line[i] != ' ' by {
        assert(line[i] == path[i - a - 1]);
    }
    assert forall|i: int| b < i < c implies #[trigger] line[i] != ' ' by {
        assert(line[i] == word[i - b - 1]);
    }
    lemma_found_at(line, 0, a);
    lemma_found_at(line, a + 1, b);
    if c < line.len() {
        assert(line[c] == words[0]);
    }
    lemma_found_at(line, b + 1, c);
    assert(line.take(a) =~= method);
    assert(line.subrange(a + 1, b) =~= path);
    assert(line.subrange(b + 1, c) =~= word);
}

proof fn lemma_found_at(line: Seq<char>, from: int, k: int)
    requires
        0 <= from <= k <= line.len(),
        k < line.len() ==> line[k] == ' ',
        forall|i: int| from <= i < k ==> #[trigger] line[i] != ' ',
    ensures
        crate::http::index_of(line, ' ', from) == k,
{
    lemma_index_of(line, ' ', from);
    let j = crate::http::index_of(line, ' ', from);
    if j < k {
        assert(line[j] != ' ');
    }
    if k < j {
        assert(line[k] != ' ');
    }
}

/// A head is read as what its lines say, wherever they stand. The request line gives method, path
/// and version. Over all header lines up to the blank line, the last `Connection: close` or
/// `Connection: keep-alive` decides whether the connection persists; if there is none, HTTP/1.1
/// persists and HTTP/1.0 does not. What follows the blank line does not count. `last` is the index of
/// the deciding line, or -1.
pub proof fn law_last_connection_header_decides(
    method: Seq<char>,
    path: Seq<char>,
    version: Version,
    words: Seq<char>,
    lines: Seq<Seq<char>>,
    rest: Seq<char>,
    last: int,
)
    requires
        is_word(method),
        is_word(path),
        words.len() == 0 || words[0] == ' ',
        is_line(request_line(method, path, version_word(version), words)),
        are_headers(lines),
        -1 <= last < lines.len(),
        last >= 0 ==> says_close(lines[last]) || says_keep_alive(lines[last]),
        forall|j: int|
            last < j < lines.len() ==> !says_close(#[trigger] lines[j]) && !says_keep_alive(
                lines[j],
            ),
    ensures
        ({
            let text = request_line(method, path, version_word(version), words) + crlf() + joined(
                lines,
            ) + crlf() + rest;
            let keep_alive = if last >= 0 {
                says_keep_alive(lines[last])
            } else {
                version == Version::Http11
            };
            let request = RequestText { method, path, version, keep_alive };
            &&& crate::http::request_in(text) == Some(request)
            &&& crate::http::parsed_request(vstd::utf8::encode_utf8(text)) == Some(request)
        }),
{
    let tail = crlf() + rest;
    let first = request_line(method, path, version_word(version), words);
    let text = first + crlf() + joined(lines) + crlf() + rest;
    lemma_head_is_read(method, path, version, words, lines, tail, text);
    lemma_last_word_decides(version == Version::Http11, lines, last);
    if last >= 0 {
        law_one_header_line(true, lines[last]);
    }
}

/// The same of a head that was cut off behind a header line: a last line without its CR LF counts
/// like the others.
pub proof fn law_unfinished_head_is_read(
    method: Seq<char>,
    path: Seq<char>,
    version: Version,
    words: Seq<char>,
    lines: Seq<Seq<char>>,
    end: Seq<char>,
    last: int,
)
    requires
        is_word(method),
        is_word(path),
        words.len() == 0 || words[0] == ' ',
        is_line(request_line(method, path, version_word(version), words)),
        are_headers(lines.push(end)),
        -1 <= last <= lines.len(),
        last >= 0 ==> says_close(lines.push(end)[last]) || says_keep_alive(lines.push(end)[last]),
        forall|j: int|
            last < j <= lines.len() ==> !says_close(#[trigger] lines.push(end)[j])
                && !says_keep_alive(lines.push(end)[j]),
    ensures
        ({
            let text = request_line(method, path, version_word(version), words) + crlf() + joined(
                lines,
            ) + end;
            let keep_alive = if last >= 0 {
                says_keep_alive(lines.push(end)[last])
            } else {
                version == Version::Http11
            };
            crate::http::request_in(text) == Some(RequestText { method, path, version, keep_alive })
        }),
{
    let first = request_line(method, path, version_word(version), words);
    let all = lines.push(end);
    assert forall|i: int| 0 <= i < lines.len() implies is_line(#[trigger] lines[i])
        && lines[i].len() > 0 by {
        assert(all[i] == lines[i]);
    }
    assert(all[lines.len() as int] == end);
    lemma_head_is_read(
        method,
        path,
        version,
        words,
        lines,
        end,
        first + crlf() + joined(lines) + end,
    );
    lemma_last_word_decides(version == Version::Http11, all, last);
    if last >= 0 {
        law_one_header_line(true, all[last]);
    }
}

proof fn lemma_head_is_read(
    method: Seq<char>,
    path: Seq<char>,
    version: Version,
    words: Seq<char>,
    lines: Seq<Seq<char>>,
    tail: Seq<char>,
    text: Seq<char>,
)
    requires
        is_word(method),
        is_word(path),
        words.len() == 0 || words[0] == ' ',
        is_line(request_line(method, path, version_word(version), words)),
        are_headers(lines),
        is_line(tail) || (tail.len() >= 2 && tail[0] == '\r' && tail[1] == '\n'),
        text =~= request_line(method, path, version_word(version), words) + crlf() + joined(lines)
            + tail,
    ensures
        crate::http::request_in(text) == Some(
            RequestText {
                method,
                path,
                version,
                keep_alive: after_lines(
                    version == Version::Http11,
                    if tail.len() == 0 || (tail.len() >= 2 && tail[0] == '\r' && tail[1] == '\n') {
                        lines
                    } else {
                        lines.push(tail)
                    },
                ),
            },
        ),
        crate::http::parsed_request(vstd::utf8::encode_utf8(text)) == crate::http::request_in(text),
{
    let word = version_word(version);
    let first = request_line(method, path, word, words);
    lemma_version_word(version);
    lemma_request_line(first, method, path, word, words);
    lemma_behind_the_first_line(text, first, lines, tail, version == Version::Http11);
    lemma_bytes_of_text(text);
}

proof fn lemma_bytes_of_text(text: Seq<char>)
    ensures
        crate::http::parsed_request(vstd::utf8::encode_utf8(text)) == crate::http::request_in(text),
{
    vstd::utf8::encode_utf8_valid_utf8(text);
    vstd::utf8::encode_utf8_decode_utf8(text);
}

proof fn lemma_behind_the_first_line(
    text: Seq<char>,
    first: Seq<char>,
    lines: Seq<Seq<char>>,
    tail: Seq<char>,
    keep_alive: bool,
)
    requires
        is_line(first),
        are_headers(lines),
        is_line(tail) || (tail.len() >= 2 && tail[0] == '\r' && tail[1] == '\n'),
        text =~= first + crlf() + joined(lines) + tail,
    ensures
        crate::http::line_end(text, 0) == first.len(),
        first.len() + 2 <= text.len(),
        text.take(first.len() as int) == first,
        crate::http::after_headers(text, first.len() + 2int, keep_alive) == after_lines(
            keep_alive,
            if tail.len() == 0 || (tail.len() >= 2 && tail[0] == '\r' && tail[1] == '\n') {
                lines
            } else {
                lines.push(tail)
            },
        ),
{
    let n = first.len() as int;
    let rest = joined(lines) + tail;
    assert(text =~= first + (crlf() + rest));
    assert(text.subrange(0, n) =~= first);
    assert(text.take(n) =~= first);
    assert(text[n] == '\r' && text[n + 1] == '\n');
    lemma_line_is_found(text, 0, first);
    assert(text.skip(n + 2) =~= rest);
    lemma_lines_are_read(text, n + 2, keep_alive, lines, tail);
}

proof fn lemma_version_word(version: Version)
    ensures
        is_word(version_word(version)),
        crate::http::version_of(version_word(version)) == Some(version),
{
    reveal_strlit("HTTP/1.1");
    reveal_strlit("HTTP/1.0");
    let word = version_word(version);
    if version == Version::Http10 {
        assert("HTTP/1.1"@[7] == '1');
        assert(word[7] == '0');
        assert(word =~= "HTTP/1.0"@);
    } else {
        assert(word =~= "HTTP/1.1"@);
    }
}

/// A header line of another name, or another `Connection` value, changes nothing: a head with it
/// anywhere among the lines and the head without it are read as the same request.
pub proof fn law_other_headers_change_nothing(
    method: Seq<char>,
    path: Seq<char>,
    version: Version,
    words: Seq<char>,
    lines: Seq<Seq<char>>,
    i: int,
    other: Seq<char>,
    rest: Seq<char>,
)
    requires
        is_word(method),
        is_word(path),
        words.len() == 0 || words[0] == ' ',
        is_line(request_line(method, path, version_word(version), words)),
        are_headers(lines),
        0 <= i <= lines.len(),
        is_line(other) && other.len() > 0,
        !says_close(other) && !says_keep_alive(other),
    ensures
        ({
            let first = request_line(method, path, version_word(version), words) + crlf();
            crate::http::request_in(first + joined(lines.insert(i, other)) + crlf() + rest)
                == crate::http::request_in(first + joined(lines) + crlf() + rest)
        }),
{
    let first = request_line(method, path, version_word(version), words);
    let tail = crlf() + rest;
    let more = lines.insert(i, other);
    assert forall|j: int| 0 <= j < more.len() implies is_line(#[trigger] more[j]) && more[j].len()
        > 0 by {
        if j < i {
            assert(more[j] == lines[j]);
        } else if j > i {
            assert(more[j] == lines[j - 1]);
        }
    }
    lemma_head_is_read(
        method,
        path,
        version,
        words,
        lines,
        tail,
        first + crlf() + joined(lines) + crlf() + rest,
    );
    lemma_head_is_read(
        method,
        path,
        version,
        words,
        more,
        tail,
        first + crlf() + joined(more) + crlf() + rest,
    );
    lemma_insertion_is_idle(version == Version::Http11, lines, i, other);
}

proof fn lemma_insertion_is_idle(
    keep_alive: bool,
    lines: Seq<Seq<char>>,
    i: int,
    other: Seq<char>,
)
    requires
        0 <= i <= lines.len(),
        !says_close(other) && !says_keep_alive(other),
    ensures
        after_lines(keep_alive, lines.insert(i, other)) == after_lines(keep_alive, lines),
    decreases lines.len(),
{
    let more = lines.insert(i, other);
    if i == 0 {
        law_one_header_line(keep_alive, other);
        assert(more[0] == other);
        assert(more.drop_first() =~= lines);
    } else {
        assert(more[0] == lines[0]);
        assert(more.drop_first() =~= lines.drop_first().insert(i - 1, other));
        lemma_insertion_is_idle(
            crate::http::after_header(keep_alive, lines[0]),
            lines.drop_first(),
            i - 1,
            other,
        );
    }
}

/// What is accepted is a request line: the text begins with a method, a path and one of the two
/// versions, separated by single spaces, and the version ends the word.
pub proof fn law_accepted_line_is_a_request_line(text: Seq<char>)
    requires
        crate::http::request_in(text) is Some,
    ensures
        ({
            let r = crate::http::request_in(text)->0;
            let start = r.method + seq![' '] + r.path + seq![' '] + version_word(r.version);
            let n = start.len() as int;
            &&& is_word(r.method) && is_word(r.path)
            &&& n <= text.len() && text.take(n) == start
            &&& is_line(start)
            &&& n == text.len() || text[n] == ' ' || (n + 2 <= text.len() && text[n] == '\r'
                && text[n + 1] == '\n')
        }),
{
    reveal_strlit("HTTP/1.1");
    reveal_strlit("HTTP/1.0");
    let r = crate::http::request_in(text)->0;
    let end = crate::http::line_end(text, 0);
    let line = text.take(end);
    lemma_line_end(text, 0);
    let a = crate::http::index_of(line, ' ', 0);
    lemma_index_of(line, ' ', 0);
    let b = crate::http::index_of(line, ' ', a + 1);
    lemma_index_of(line, ' ', a + 1);
    let c = crate::http::index_of(line, ' ', b + 1);
    lemma_index_of(line, ' ', b + 1);
    let start = r.method + seq![' '] + r.path + seq![' '] + version_word(r.version);
    assert(line.subrange(b + 1, c) =~= version_word(r.version));
    assert(start.len() == c);
    assert(text.take(c) =~= start) by {
        assert(line[a] == ' ' && line[b] == ' ');
        assert forall|i: int| 0 <= i < c implies text[i] == start[i] by {
            assert(text[i] == line[i]);
            if i > b {
                assert(line[i] == line.subrange(b + 1, c)[i - b - 1]);
            }
        }
    }
    assert forall|i: int| 0 <= i < r.method.len() implies #[trigger] r.method[i] != ' ' by {
        assert(r.method[i] == line[i]);
    }
    assert forall|i: int| 0 <= i < r.path.len() implies #[trigger] r.path[i] != ' ' by {
        assert(r.path[i] == line[i + a + 1]);
    }
    assert forall|i: int| 0 <= i < start.len() - 1 implies !(#[trigger] start[i] == '\r' && start[i
        + 1] == '\n') by {
        assert(start[i] == text[i] && start[i + 1] == text[i + 1]);
    }
    if c < line.len() {
        assert(text[c] == line[c]);
    }
}

/// The start of a request is one of five methods and a space, byte for byte.
pub proof fn law_request_starts(buf: Seq<u8>)
    ensures
        crate::http::sniffed(buf) <==> ({
            ||| buf.len() >= 4 && buf.take(4) == seq![71u8, 69, 84, 32]
            ||| buf.len() >= 5 && buf.take(5) == seq![72u8, 69, 65, 68, 32]
            ||| buf.len() >= 5 && buf.take(5) == seq![80u8, 79, 83, 84, 32]
            ||| buf.len() >= 4 && buf.take(4) == seq![80u8, 85, 84, 32]
            ||| buf.len() >= 7 && buf.take(7) == seq![68u8, 69, 76, 69, 84, 69, 32]
        }),
{
    reveal_strlit("GET ");
    reveal_strlit("HEAD ");
    reveal_strlit("POST ");
    reveal_strlit("PUT ");
    reveal_strlit("DELETE ");
    vstd::utf8::is_ascii_chars_encode_utf8("GET "@);
    vstd::utf8::is_ascii_chars_encode_utf8("HEAD "@);
    vstd::utf8::is_ascii_chars_encode_utf8("POST "@);
    vstd::utf8::is_ascii_chars_encode_utf8("PUT "@);
    vstd::utf8::is_ascii_chars_encode_utf8("DELETE "@);
    assert(crate::http::utf8("GET "@) =~= seq![71u8, 69, 84, 32]);
    assert(crate::http::utf8("HEAD "@) =~= seq![72u8, 69, 65, 68, 32]);
    assert(crate::http::utf8("POST "@) =~= seq![80u8, 79, 83, 84, 32]);
    assert(crate::http::utf8("PUT "@) =~= seq![80u8, 85, 84, 32]);
    assert(crate::http::utf8("DELETE "@) =~= seq![68u8, 69, 76, 69, 84, 69, 32]);
}

/// The lines of a response head.
pub open spec fn response_lines(keep_alive: bool) -> Seq<Seq<char>> {
    seq![
        "Content-Type: text/plain"@,
        "Content-Length: 54"@,
        if keep_alive {
            "Connection: keep-alive"@
        } else {
            "Connection: close"@
        },
    ]
}

proof fn lemma_joined_three(a: Seq<char>, b: Seq<char>, c: Seq<char>)
    ensures
        joined(seq![a, b, c]) == a + crlf() + (b + crlf() + (c + crlf())),
{
    let none = Seq::<Seq<char>>::empty();
    assert(seq![a, b, c].drop_first() =~= seq![b, c]);
    assert(seq![b, c].drop_first() =~= seq![c]);
    assert(seq![c].drop_first() =~= none);
    assert(joined(none) =~= Seq::<char>::empty());
    assert(joined(seq![c]) =~= c + crlf());
    assert(joined(seq![b, c]) =~= b + crlf() + (c + crlf()));
}

/// A response head is a status line, a type, the length of the body, and the decision on
/// persistence.
pub proof fn law_response_head_has_these_lines(keep_alive: bool)
    ensures
        crate::http::response_head(keep_alive) == version_word(
            if keep_alive {
                Version::Http11
            } else {
                Version::Http10
            },
        ) + " 200 OK"@ + crlf() + joined(response_lines(keep_alive)) + crlf(),
{
    reveal_strlit("HTTP/1.1");
    reveal_strlit("HTTP/1.0");
    reveal_strlit(" 200 OK");
    reveal_strlit(" 200 OK\r\nContent-Type: text/plain\r\nContent-Length: 54\r\nConnection: ");
    reveal_strlit("Content-Type: text/plain");
    reveal_strlit("Content-Length: 54");
    reveal_strlit("Connection: keep-alive");
    reveal_strlit("Connection: close");
    reveal_strlit("keep-alive");
    reveal_strlit("close");
    reveal_strlit("\r\n\r\n");
    let lines = response_lines(keep_alive);
    lemma_joined_three(lines[0], lines[1], lines[2]);
    let start = " 200 OK\r\nContent-Type: text/plain\r\nContent-Length: 54\r\nConnection: "@;
    let value = if keep_alive {
        "keep-alive"@
    } else {
        "close"@
    };
    assert(start =~= " 200 OK"@ + crlf() + lines[0] + crlf() + lines[1] + crlf() + lines[2].take(
        12,
    ));
    assert(lines[2] =~= lines[2].take(12) + value);
    assert("\r\n\r\n"@ =~= crlf() + crlf());
    let word = version_word(
        if keep_alive {
            Version::Http11
        } else {
            Version::Http10
        },
    );
    assert(word =~= if keep_alive {
        "HTTP/1.1"@
    } else {
        "HTTP/1.0"@
    });
    assert(crate::http::response_head(keep_alive) =~= word + (" 200 OK"@ + crlf() + lines[0]
        + crlf() + lines[1] + crlf() + lines[2].take(12)) + value + (crlf() + crlf()));
}

/// A response says what was decided: a client that reads its header lines keeps the connection if
/// and only if the request asked for it, whichever default it starts from.
pub proof fn law_response_tells_persistence(keep_alive: bool, default: bool)
    ensures
        if keep_alive {
            says_keep_alive(response_lines(keep_alive)[2])
        } else {
            says_close(response_lines(keep_alive)[2])
        },
        after_lines(default, response_lines(keep_alive)) == keep_alive,
{
    reveal_strlit("Connection: keep-alive");
    reveal_strlit("Connection: close");
    let lines = response_lines(keep_alive);
    let conn = lines[2];
    let value = if keep_alive {
        seq!['k', 'e', 'e', 'p', '-', 'a', 'l', 'i', 'v', 'e']
    } else {
        seq!['c', 'l', 'o', 's', 'e']
    };
    let name = seq!['c', 'o', 'n', 'n', 'e', 'c', 't', 'i', 'o', 'n'];
    assert(conn[10] == ':');
    assert(spells_at(conn.take(10), name, 0, 10));
    assert(spells_at(conn.skip(11), value, 1, 1int + value.len()));
    assert(spells(conn.take(10), name) && spells(conn.skip(10int + 1), value));
    assert(is_header(conn, name, value));
    lemma_last_word_decides(default, lines, 2);
}

} // verus!
