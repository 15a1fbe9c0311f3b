//! Characters, lines and marker lines of a template source.
//!
//! Everything here is stated over `Seq<char>`, the view of a string. A source
//! is cut into lines at line feeds; a carriage return directly before a line
//! feed belongs to the terminator. The whitespace that a source starts with
//! is no part of its content. A marker line has the shape
//! `blank* "::" word+ blank*`, where a blank is horizontal whitespace.

use vstd::prelude::*;
use vstd::string::StrSliceExecFns;

verus! {

/// Horizontal whitespace: the tab, the space, and the other space characters
/// of Unicode. The characters that end or break a line are none of it.
pub open spec fn is_blank(c: char) -> bool {
    ||| c == '\t'
    ||| c == ' '
    ||| c == '\u{a0}'
    ||| c == '\u{1680}'
    ||| '\u{2000}' <= c && c <= '\u{200a}'
    ||| c == '\u{202f}'
    ||| c == '\u{205f}'
    ||| c == '\u{3000}'
}

/// The characters of an identifier: ASCII letters, ASCII digits and the underscore.
pub open spec fn is_word(c: char) -> bool {
    ('a' <= c && c <= 'z') || ('A' <= c && c <= 'Z') || ('0' <= c && c <= '9') || c == '_'
}

/// Whitespace of any kind: the characters with the Unicode property
/// `White_Space`, which are those that `char::is_whitespace` accepts.
pub open spec fn is_whitespace(c: char) -> bool {
    ||| '\u{9}' <= c && c <= '\u{d}'
    ||| c == ' '
    ||| c == '\u{85}'
    ||| c == '\u{a0}'
    ||| c == '\u{1680}'
    ||| '\u{2000}' <= c && c <= '\u{200a}'
    ||| c == '\u{2028}'
    ||| c == '\u{2029}'
    ||| c == '\u{202f}'
    ||| c == '\u{205f}'
    ||| c == '\u{3000}'
}

/// The views of a sequence of strings.
pub open spec fn texts(items: Seq<String>) -> Seq<Seq<char>> {
    items.map_values(|s: String| s@)
}

/// `line` is a marker line whose identifier is `line[start..end]`: blanks,
/// two colons, the identifier, blanks, and nothing else.
pub open spec fn marks(line: Seq<char>, start: int, end: int) -> bool {
    &&& 2 <= start < end <= line.len()
    &&& forall|k: int| 0 <= k < start - 2 ==> is_blank(#[trigger] line[k])
    &&& line[start - 2] == ':'
    &&& line[start - 1] == ':'
    &&& forall|k: int| start <= k < end ==> is_word(#[trigger] line[k])
    &&& forall|k: int| end <= k < line.len() ==> is_blank(#[trigger] line[k])
}

/// `line` opens a component.
pub open spec fn is_marker(line: Seq<char>) -> bool {
    exists|start: int, end: int| marks(line, start, end)
}

/// The identifier that a marker line names; `None` for every other line.
pub open spec fn marker_id(line: Seq<char>) -> Option<Seq<char>> {
    if is_marker(line) {
        let (start, end) = choose|start: int, end: int| marks(line, start, end);
        Some(line.subrange(start, end))
    } else {
        None
    }
}

/// A line is a marker line in one way only.
pub proof fn lemma_marks_unique(line: Seq<char>, s1: int, e1: int, s2: int, e2: int)
    requires
        marks(line, s1, e1),
        marks(line, s2, e2),
    ensures
        s1 == s2,
        e1 == e2,
{
    if s1 < s2 {
        assert(is_blank(line[s1 - 2]));
    }
    if s2 < s1 {
        assert(is_blank(line[s2 - 2]));
    }
    if e1 < e2 {
        assert(is_word(line[e1]));
        assert(is_blank(line[e1]));
    }
    if e2 < e1 {
        assert(is_word(line[e2]));
        assert(is_blank(line[e2]));
    }
}

/// Where the identifier of a marker line sits decides what `marker_id` gives.
pub proof fn lemma_marker_id(line: Seq<char>, start: int, end: int)
    requires
        marks(line, start, end),
    ensures
        marker_id(line) == Some(line.subrange(start, end)),
{
    let (s, e) = choose|s: int, e: int| marks(line, s, e);
    lemma_marks_unique(line, start, end, s, e);
}

/// An identifier is never empty and holds word characters only.
pub proof fn lemma_marker_id_is_word(line: Seq<char>)
    requires
        marker_id(line) is Some,
    ensures
        marker_id(line)->0.len() > 0,
        forall|k: int| 0 <= k < marker_id(line)->0.len() ==> is_word(#[trigger] marker_id(line)->0[k]),
{
    let (s, e) = choose|s: int, e: int| marks(line, s, e);
    let id = line.subrange(s, e);
    assert forall|k: int| 0 <= k < id.len() implies is_word(#[trigger] id[k]) by {
        assert(is_word(line[s + k]));
    }
}

/// Number of characters from `from` up to the next line feed, or to the end of `text`.
pub open spec fn line_len(text: Seq<char>, from: int) -> nat
    decreases text.len() - from,
{
    if from < 0 || from >= text.len() || text[from] == '\n' {
        0
    } else {
        1 + line_len(text, from + 1)
    }
}

/// The line `text[from..end]`, where `end` is a line feed or the end of
/// `text`, without the carriage return of a `\r\n` terminator.
pub open spec fn line_at(text: Seq<char>, from: int, end: int) -> Seq<char> {
    if end < text.len() && from < end && text[end - 1] == '\r' {
        text.subrange(from, end - 1)
    } else {
        text.subrange(from, end)
    }
}

/// The lines of `text` that start at or after `from`, a line start.
pub open spec fn lines_from(text: Seq<char>, from: int) -> Seq<Seq<char>>
    decreases text.len() - from,
{
    if from < 0 || from >= text.len() {
        Seq::empty()
    } else {
        let end = from + line_len(text, from);
        if end < text.len() {
            seq![line_at(text, from, end)] + lines_from(text, end + 1)
        } else {
            seq![line_at(text, from, end)]
        }
    }
}

/// The lines of `text`. A line ends at `\n` or `\r\n`, which is not part of
/// it; the last line needs no terminator, and the empty text has no line.
pub open spec fn split_lines(text: Seq<char>) -> Seq<Seq<char>> {
    lines_from(text, 0)
}

/// Number of whitespace characters in a row from index `from` on.
pub open spec fn whitespace_run(text: Seq<char>, from: int) -> nat
    decreases text.len() - from,
{
    if from < 0 || from >= text.len() || !is_whitespace(text[from]) {
        0
    } else {
        1 + whitespace_run(text, from + 1)
    }
}

/// `text` without the whitespace it starts with.
pub open spec fn trimmed_start(text: Seq<char>) -> Seq<char> {
    text.skip(whitespace_run(text, 0) as int)
}

/// The lines of `text` once the whitespace it starts with is taken away. So
/// the lines that hold nothing but whitespace at the start of a source are
/// not among them, and the first of them, if there is one, starts with a
/// character that is no whitespace.
pub open spec fn content_lines(text: Seq<char>) -> Seq<Seq<char>> {
    split_lines(trimmed_start(text))
}

/// A line never runs past the end of the text.
pub proof fn lemma_line_len_bound(text: Seq<char>, from: int)
    requires
        0 <= from <= text.len(),
    ensures
        from + line_len(text, from) <= text.len(),
        from + line_len(text, from) < text.len() ==> text[from + line_len(text, from)] == '\n',
        forall|k: int| from <= k < from + line_len(text, from) ==> #[trigger] text[k] != '\n',
    decreases text.len() - from,
{
    if from < text.len() && text[from] != '\n' {
        lemma_line_len_bound(text, from + 1);
    }
}

/// Horizontal whitespace is whitespace, and neither a colon nor a word character is.
pub proof fn lemma_character_classes(c: char)
    ensures
        is_blank(c) ==> is_whitespace(c),
        is_whitespace(c) ==> c != ':' && !is_word(c),
{
}

/// The run of whitespace stays inside the text and stops at a character that is no whitespace.
pub proof fn lemma_whitespace_run(text: Seq<char>, from: int)
    requires
        0 <= from <= text.len(),
    ensures
        from + whitespace_run(text, from) <= text.len(),
        from + whitespace_run(text, from) < text.len() ==> !is_whitespace(
            text[from + whitespace_run(text, from)],
        ),
        forall|k: int| from <= k < from + whitespace_run(text, from) ==> is_whitespace(#[trigger] text[k]),
    decreases text.len() - from,
{
    if from < text.len() && is_whitespace(text[from]) {
        lemma_whitespace_run(text, from + 1);
    }
}

/// A line is as long in a text as in the rest of the text from an earlier index on.
proof fn lemma_line_len_skip(text: Seq<char>, k: int, j: int)
    requires
        0 <= k,
        0 <= j,
        k + j <= text.len(),
    ensures
        line_len(text, k + j) == line_len(text.skip(k), j),
    decreases text.len() - (k + j),
{
    if k + j < text.len() && text[k + j] != '\n' {
        lemma_line_len_skip(text, k, j + 1);
    }
}

/// The lines of a text from index `k + j` on are the lines, from index `j`
/// on, of what the text holds from index `k` on.
pub proof fn lemma_lines_from_skip(text: Seq<char>, k: int, j: int)
    requires
        0 <= k,
        0 <= j,
        k + j <= text.len(),
    ensures
        lines_from(text, k + j) == lines_from(text.skip(k), j),
    decreases text.len() - (k + j),
{
    if k + j < text.len() {
        let rest = text.skip(k);
        lemma_line_len_skip(text, k, j);
        lemma_line_len_bound(text, k + j);
        let end = k + j + line_len(text, k + j);
        assert(line_at(text, k + j, end) =~= line_at(rest, j, end - k));
        if end < text.len() {
            lemma_lines_from_skip(text, k, end - k + 1);
        }
    }
}

/// The content lines are the lines that start behind the leading whitespace.
pub proof fn lemma_content_lines(text: Seq<char>)
    ensures
        content_lines(text) == lines_from(text, whitespace_run(text, 0) as int),
        content_lines(text).len() > 0 <==> trimmed_start(text).len() > 0,
        trimmed_start(text).len() > 0 ==> !is_whitespace(trimmed_start(text)[0]),
{
    lemma_whitespace_run(text, 0);
    lemma_lines_from_skip(text, whitespace_run(text, 0) as int, 0);
}

/// No line holds a line feed.
pub proof fn lemma_lines_hold_no_line_feed(text: Seq<char>, from: int, i: int, k: int)
    requires
        0 <= from <= text.len(),
        0 <= i < lines_from(text, from).len(),
        0 <= k < lines_from(text, from)[i].len(),
    ensures
        lines_from(text, from)[i][k] != '\n',
    decreases text.len() - from,
{
    lemma_line_len_bound(text, from);
    let end = from + line_len(text, from);
    if i == 0 {
        assert(line_at(text, from, end)[k] == text[from + k]);
    } else {
        assert(lines_from(text, from)[i] == lines_from(text, end + 1)[i - 1]);
        lemma_lines_hold_no_line_feed(text, end + 1, i - 1, k);
    }
}

fn blank(c: char) -> (b: bool)
    ensures
        b == is_blank(c),
{
    c == '\t' || c == ' ' || c == '\u{a0}' || c == '\u{1680}' || (c >= '\u{2000}' && c <= '\u{200a}') || c
        == '\u{202f}' || c == '\u{205f}' || c == '\u{3000}'
}

fn word(c: char) -> (b: bool)
    ensures
        b == is_word(c),
{
    (c >= 'a' && c <= 'z') || (c >= 'A' && c <= 'Z') || (c >= '0' && c <= '9') || c == '_'
}

/// Whether `c` is whitespace of any kind.
pub fn is_whitespace_char(c: char) -> (b: bool)
    ensures
        b == is_whitespace(c),
{
    (c >= '\u{9}' && c <= '\u{d}') || c == ' ' || c == '\u{85}' || c == '\u{a0}' || c == '\u{1680}' || (c
        >= '\u{2000}' && c <= '\u{200a}') || c == '\u{2028}' || c == '\u{2029}' || c == '\u{202f}' || c
        == '\u{205f}' || c == '\u{3000}'
}

/// The characters of `s`, for access by index.
fn chars_of(s: &str) -> (chars: Vec<char>)
    ensures
        chars@ == s@,
{
    broadcast use vstd::string::group_string_axioms;

    let mut chars: Vec<char> = Vec::new();
    for c in it: s.chars()
        invariant
            it.seq() == s@,
            chars@ == it.seq().take(it.index() as int),
    {
        chars.push(c);
    }
    chars
}

/// Where the identifier of a marker line sits, if `line` is one.
fn find_marker(line: &Vec<char>) -> (found: Option<(usize, usize)>)
    ensures
        match found {
            Some((start, end)) => marks(line@, start as int, end as int),
            None => !is_marker(line@),
        },
{
    let n = line.len();
    let mut i: usize = 0;
    while i < n && blank(line[i])
        invariant
            i <= n == line.len(),
            forall|k: int| 0 <= k < i ==> is_blank(#[trigger] line@[k]),
        decreases n - i,
    {
        i += 1;
    }
    if n - i < 3 || line[i] != ':' || line[i + 1] != ':' {
        assert forall|start: int, end: int| !marks(line@, start, end) by {
            if marks(line@, start, end) {
                if start - 2 < i {
                    assert(is_blank(line@[start - 2]));
                }
                if start - 2 > i {
                    assert(is_blank(line@[i as int]));
                }
            }
        }
        return None;
    }
    let start: usize = i + 2;
    let mut end: usize = start;
    while end < n && word(line[end])
        invariant
            start <= end <= n == line.len(),
            forall|k: int| start <= k < end ==> is_word(#[trigger] line@[k]),
        decreases n - end,
    {
        end += 1;
    }
    let mut k: usize = end;
    while k < n && blank(line[k])
        invariant
            end <= k <= n == line.len(),
            forall|j: int| end <= j < k ==> is_blank(#[trigger] line@[j]),
        decreases n - k,
    {
        k += 1;
    }
    if end == start || k < n {
        assert forall|s: int, e: int| !marks(line@, s, e) by {
            if marks(line@, s, e) {
                if s - 2 < i {
                    assert(is_blank(line@[s - 2]));
                }
                if s - 2 > i {
                    assert(is_blank(line@[i as int]));
                }
                assert(s == start);
                if e < end {
                    assert(is_word(line@[e]));
                    assert(is_blank(line@[e]));
                }
                if e > end {
                    assert(is_word(line@[end as int]));
                }
                assert(e == end);
                assert(is_blank(line@[k as int]));
            }
        }
        return None;
    }
    Some((start, end))
}

/// The identifier of the component that `line` opens, if it is a marker line.
pub fn marker_of(line: &str) -> (id: Option<String>)
    ensures
        match id {
            Some(id) => marker_id(line@) == Some(id@),
            None => marker_id(line@) is None,
        },
{
    let chars = chars_of(line);
    match find_marker(&chars) {
        Some((start, end)) => {
            proof {
                lemma_marker_id(line@, start as int, end as int);
            }
            Some(line.substring_char(start, end).to_owned())
        },
        None => None,
    }
}

/// The lines of `source` from the character at index `from` on. `chars`
/// holds the characters of `source`, for access by index.
///
/// A line is cut out of `source` by counting characters from its start, so
/// the work grows with the number of lines times the length of the source.
fn lines_after(source: &str, chars: &Vec<char>, from: usize) -> (lines: Vec<String>)
    requires
        chars@ == source@,
        from <= chars.len(),
    ensures
        texts(lines@) == lines_from(source@, from as int),
{
    let n = chars.len();
    let mut lines: Vec<String> = Vec::new();
    let mut start: usize = from;
    assert(texts(lines@) + lines_from(chars@, from as int) == lines_from(chars@, from as int));
    while start < n
        invariant
            from <= start <= n == chars.len(),
            chars@ == source@,
            texts(lines@) + lines_from(chars@, start as int) == lines_from(chars@, from as int),
        decreases n - start,
    {
        let mut end: usize = start;
        while end < n && chars[end] != '\n'
            invariant
                start <= end <= n == chars.len(),
                (end - start) + line_len(chars@, end as int) == line_len(chars@, start as int),
            decreases n - end,
        {
            end += 1;
        }
        let stop: usize = if end < n && start < end && chars[end - 1] == '\r' {
            end - 1
        } else {
            end
        };
        let line = source.substring_char(start, stop).to_owned();
        let ghost before = lines@;
        lines.push(line);
        let next: usize = if end < n { end + 1 } else { n };
        proof {
            assert(line@ == line_at(chars@, start as int, end as int));
            assert(texts(lines@) == texts(before).push(line@));
            assert(lines_from(chars@, start as int) == seq![line@] + lines_from(chars@, next as int));
            assert(texts(lines@) + lines_from(chars@, next as int) == texts(before) + lines_from(
                chars@,
                start as int,
            ));
        }
        start = next;
    }
    assert(lines_from(chars@, start as int) == Seq::<Seq<char>>::empty());
    assert(texts(lines@) + Seq::<Seq<char>>::empty() == texts(lines@));
    lines
}

/// Cuts `source` into its lines.
pub fn split_lines_of(source: &str) -> (lines: Vec<String>)
    ensures
        texts(lines@) == split_lines(source@),
{
    let chars = chars_of(source);
    lines_after(source, &chars, 0)
}

/// The lines of `source` behind the whitespace that it starts with.
pub fn content_lines_of(source: &str) -> (lines: Vec<String>)
    ensures
        texts(lines@) == content_lines(source@),
{
    let chars = chars_of(source);
    let n = chars.len();
    let mut from: usize = 0;
    while from < n && is_whitespace_char(chars[from])
        invariant
            from <= n == chars.len(),
            from + whitespace_run(chars@, from as int) == whitespace_run(chars@, 0),
        decreases n - from,
    {
        from += 1;
    }
    proof {
        lemma_content_lines(source@);
    }
    lines_after(source, &chars, from)
}

} // verus!
