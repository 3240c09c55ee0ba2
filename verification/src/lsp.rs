//! What the editor's side of the Piton language server computes: positions in
//! the line and UTF-16 character the protocol counts in, the byte ranges
//! problems fall on, `file://` URIs, and hover text without its markdown.

use vstd::prelude::*;

use crate::text::{
    chars_of, find_char, find_from, lemma_find_from, lemma_utf8_len_prefix_grows,
    lemma_utf8_len_take, lemma_utf8_width, utf8_len, utf8_width, width_utf8, Text,
};

verus! {

#[derive(Debug, Clone, Copy, PartialEq, Eq, Structural)]
pub enum Severity {
    Error,
    Warning,
    Note,
}

impl Severity {
    /// The severity the protocol's numeric code stands for: 1 is an error,
    /// 2 a warning, anything else a note.
    pub fn from_code(code: u64) -> (r: Severity)
        ensures
            r == (if code == 1 {
                Severity::Error
            } else if code == 2 {
                Severity::Warning
            } else {
                Severity::Note
            }),
    {
        match code {
            1 => Severity::Error,
            2 => Severity::Warning,
            _ => Severity::Note,
        }
    }
}

/// A line and UTF-16 character, as the protocol counts them.
#[derive(Debug, Clone, Copy, PartialEq, Eq, Default, Structural)]
pub struct Position {
    pub line: u32,
    pub character: u32,
}

/// One thing the server has to say about a file.
#[derive(Debug, Clone)]
pub struct Problem {
    pub severity: Severity,
    pub message: String,
    /// Where it is, in the line and UTF-16 character the server counts in.
    pub start: Position,
    pub end: Position,
}

/// How the server is getting on.
#[derive(Debug, Clone, PartialEq, Eq)]
pub enum Status {
    /// Spoken to, and waiting for it to answer.
    Starting,
    /// Answering.
    Ready,
    /// There is none, and why.
    Unavailable(String),
}

// ------------------------------------------------------------------ counting

/// The number of UTF-16 units `c` takes (`char::len_utf16`).
pub open spec fn utf16_width(c: char) -> nat {
    if (c as u32) < 0x10000 {
        1
    } else {
        2
    }
}

pub open spec fn utf16_len(s: Text) -> nat
    decreases s.len(),
{
    if s.len() == 0 {
        0
    } else {
        utf16_len(s.drop_last()) + utf16_width(s.last())
    }
}

/// How many `\n` there are in `s`.
pub open spec fn newlines(s: Text) -> nat
    decreases s.len(),
{
    if s.len() == 0 {
        0
    } else {
        newlines(s.drop_last()) + if s.last() == '\n' {
            1nat
        } else {
            0nat
        }
    }
}

/// Where the line holding character position `ci` starts: just after the
/// last `\n` before it, or at 0.
pub open spec fn line_start(s: Text, ci: int) -> int
    decreases ci,
{
    if ci <= 0 {
        0
    } else if s[ci - 1] == '\n' {
        ci
    } else {
        line_start(s, ci - 1)
    }
}

/// The character position after `n` more `\n` from `pos`, or -1 when the
/// text runs out of them first.
pub open spec fn skip_lines(s: Text, pos: int, n: nat) -> int
    decreases n,
{
    if n == 0 {
        pos
    } else {
        let nl = find_from(s, pos, '\n');
        if nl >= s.len() {
            -1
        } else {
            skip_lines(s, nl + 1, (n - 1) as nat)
        }
    }
}

/// Walking the characters from `j` to the line end `e`, the first position at
/// which `count` UTF-16 units have reached `target`, or `e`.
pub open spec fn char_stop(s: Text, j: int, e: int, count: int, target: int) -> int
    decreases e - j,
{
    if j >= e || j < 0 || j >= s.len() || count >= target {
        j
    } else {
        char_stop(s, j + 1, e, count + utf16_width(s[j]), target)
    }
}

/// The byte offset a line and UTF-16 character stand for in `s`: the end of
/// the text past its last line, the end of the line past its last character.
pub open spec fn offset_spec(s: Text, at: Position) -> int {
    let start = skip_lines(s, 0, at.line as nat);
    if start < 0 {
        utf8_len(s) as int
    } else {
        let e = find_from(s, start, '\n');
        utf8_len(s.take(char_stop(s, start, e, 0, at.character as int))) as int
    }
}

/// The character position a line and UTF-16 character stand for in `s`:
/// the end of the text past its last line, the end of the line past its last
/// character.
pub open spec fn char_spot(s: Text, at: Position) -> int {
    let start = skip_lines(s, 0, at.line as nat);
    if start < 0 {
        s.len() as int
    } else {
        char_stop(s, start, find_from(s, start, '\n'), 0, at.character as int)
    }
}

proof fn lemma_char_spot(s: Text, at: Position)
    ensures
        0 <= char_spot(s, at) <= s.len(),
        offset_spec(s, at) == utf8_len(s.take(char_spot(s, at))),
{
    lemma_skip_lines_bounds(s, 0, at.line as nat);
    let start = skip_lines(s, 0, at.line as nat);
    if start >= 0 {
        lemma_find_from(s, start, '\n');
        lemma_char_stop_bounds(s, start, find_from(s, start, '\n'), 0, at.character as int);
    } else {
        assert(s.take(s.len() as int) =~= s);
    }
}

/// The line and character of the character position `ci`, each counted in
/// 32 bits as the protocol does.
pub open spec fn position_spec(s: Text, ci: int) -> Position {
    Position {
        line: newlines(s.take(ci)) as u32,
        character: utf16_len(s.subrange(line_start(s, ci), ci)) as u32,
    }
}

/// Whether `offset` falls on a character boundary of `s`, at character `ci`.
pub open spec fn boundary_at(s: Text, offset: int, ci: int) -> bool {
    0 <= ci <= s.len() && utf8_len(s.take(ci)) == offset
}

proof fn lemma_skip_lines_bounds(s: Text, pos: int, n: nat)
    requires
        0 <= pos <= s.len(),
    ensures
        skip_lines(s, pos, n) == -1 || pos <= skip_lines(s, pos, n) <= s.len(),
    decreases n,
{
    if n > 0 {
        lemma_find_from(s, pos, '\n');
        let nl = find_from(s, pos, '\n');
        if nl < s.len() {
            lemma_skip_lines_bounds(s, nl + 1, (n - 1) as nat);
        }
    }
}

proof fn lemma_char_stop_bounds(s: Text, j: int, e: int, count: int, target: int)
    requires
        0 <= j <= e <= s.len(),
    ensures
        j <= char_stop(s, j, e, count, target) <= e,
    decreases e - j,
{
    if j < e && count < target {
        lemma_char_stop_bounds(s, j + 1, e, count + utf16_width(s[j]), target);
    }
}

/// The byte offset of the first `k` characters of `s`.
fn byte_offset(s: &[char], k: usize, total: usize) -> (r: usize)
    requires
        k <= s@.len(),
        total == utf8_len(s@),
    ensures
        r == utf8_len(s@.take(k as int)),
{
    let mut bytes: usize = 0;
    let mut i: usize = 0;
    while i < k
        invariant
            i <= k <= s@.len(),
            total == utf8_len(s@),
            bytes == utf8_len(s@.take(i as int)),
        decreases k - i,
    {
        proof {
            lemma_utf8_len_take(s@, i as int);
            lemma_utf8_len_prefix_grows(s@, (i + 1) as int, (i + 1) as int);
        }
        bytes = bytes + width_utf8(s[i]);
        i += 1;
    }
    assert(s@.take(0) =~= Seq::<char>::empty());
    bytes
}

/// The character position a line and UTF-16 character stand for in `s`.
fn spot_of(s: &Vec<char>, at: Position) -> (r: usize)
    ensures
        r == char_spot(s@, at),
{
    let mut pos: usize = 0;
    let mut n: u32 = 0;
    while n < at.line
        invariant
            n <= at.line,
            pos <= s@.len(),
            skip_lines(s@, 0, at.line as nat) == skip_lines(s@, pos as int, (at.line - n) as nat),
        decreases at.line - n,
    {
        let nl = find_char(s.as_slice(), pos, '\n');
        if nl >= s.len() {
            assert(skip_lines(s@, pos as int, (at.line - n) as nat) == -1);
            return s.len();
        }
        pos = nl + 1;
        n += 1;
    }
    let e = find_char(s.as_slice(), pos, '\n');
    let mut j = pos;
    let mut count: u64 = 0;
    let target = at.character as u64;
    proof {
        lemma_find_from(s@, pos as int, '\n');
    }
    while j < e && count < target
        invariant
            pos <= j <= e <= s@.len(),
            count < target + 3,
            target == at.character,
            char_stop(s@, pos as int, e as int, 0, target as int) == char_stop(
                s@,
                j as int,
                e as int,
                count as int,
                target as int,
            ),
        decreases e - j,
    {
        let w: u64 = if (s[j] as u32) < 0x10000u32 {
            1
        } else {
            2
        };
        count = count + w;
        j += 1;
    }
    j
}

/// The byte offset of a line and UTF-16 character in `text`.
pub fn offset_of(text: &str, at: Position) -> (r: usize)
    ensures
        r == offset_spec(text@, at),
{
    let s = chars_of(text);
    let total = text.as_bytes().len();
    let k = spot_of(&s, at);
    proof {
        lemma_char_spot(s@, at);
    }
    byte_offset(s.as_slice(), k, total)
}

/// The line and UTF-16 character a byte offset falls on.
pub fn position_of(text: &str, offset: usize) -> (r: Position)
    requires
        offset >= utf8_len(text@) || exists|ci: int| boundary_at(text@, offset as int, ci),
    ensures
        forall|ci: int|
            boundary_at(text@, (if offset < utf8_len(text@) { offset as int } else { utf8_len(text@) as int }), ci)
                ==> r == position_spec(text@, ci),
{
    let s = chars_of(text);
    let total = text.as_bytes().len();
    let offset = if offset < total {
        offset
    } else {
        total
    };
    // Find the character the offset falls on.
    let mut ci: usize = 0;
    let mut bytes: usize = 0;
    proof {
        assert(s@.take(0) =~= Seq::<char>::empty());
        assert(s@.take(s@.len() as int) =~= s@);
    }
    while bytes < offset && ci < s.len()
        invariant
            ci <= s@.len(),
            s@ == text@,
            total == utf8_len(s@),
            offset <= total,
            bytes == utf8_len(s@.take(ci as int)),
            bytes <= offset,
            offset >= utf8_len(text@) || exists|c: int| boundary_at(text@, offset as int, c),
            forall|c: int| 0 <= c < ci ==> utf8_len(#[trigger] s@.take(c)) < offset,
        decreases s@.len() - ci,
    {
        proof {
            lemma_utf8_len_take(s@, ci as int);
            lemma_utf8_len_prefix_grows(s@, (ci + 1) as int, (ci + 1) as int);
            crate::text::lemma_utf8_width(s@[ci as int]);
        }
        let next = bytes + width_utf8(s[ci]);
        if next > offset {
            // The offset falls inside a character; no boundary is there.
            proof {
                assert forall|c: int| 0 <= c <= s@.len() implies utf8_len(s@.take(c)) != offset by {
                    if c <= ci {
                        if c < ci {
                        }
                    } else {
                        lemma_utf8_len_prefix_grows(s@, (ci + 1) as int, c);
                    }
                }
            }
            assert(false);
        }
        bytes = next;
        ci += 1;
    }
    proof {
        if bytes < offset {
            lemma_utf8_len_prefix_grows(s@, ci as int, ci as int);
            assert(s@.take(s@.len() as int) =~= s@);
        }
        assert forall|c: int| boundary_at(s@, offset as int, c) implies c == ci by {
            if c < ci {
            } else if c > ci {
                lemma_utf8_len_prefix_grows(s@, ci as int, c);
            }
        }
    }
    // Count the lines before it, and where the last of them starts.
    let mut lines: usize = 0;
    let mut start: usize = 0;
    let mut k: usize = 0;
    while k < ci
        invariant
            k <= ci <= s@.len(),
            lines == newlines(s@.take(k as int)),
            lines <= k,
            start as int == line_start(s@, k as int),
            start <= k,
        decreases ci - k,
    {
        assert(s@.take(k + 1).drop_last() =~= s@.take(k as int));
        if s[k] == '\n' {
            lines = lines + 1;
            start = k + 1;
        }
        k += 1;
    }
    let mut units: u128 = 0;
    let mut m = start;
    while m < ci
        invariant
            start <= m <= ci <= s@.len(),
            units == utf16_len(s@.subrange(start as int, m as int)),
            units <= 2 * (m - start),
            m <= usize::MAX,
        decreases ci - m,
    {
        assert(s@.subrange(start as int, m + 1).drop_last() =~= s@.subrange(start as int, m as int));
        units = units + if (s[m] as u32) < 0x10000 {
            1
        } else {
            2
        };
        m += 1;
    }
    #[verifier::truncate]
    let line = lines as u32;
    #[verifier::truncate]
    let character = units as u32;
    Position { line, character }
}


// ------------------------------------------------------------------- law

proof fn lemma_skip_lines_compose(s: Text, p: int, a: nat, b: nat)
    requires
        p >= 0,
    ensures
        skip_lines(s, p, a + b) == (if skip_lines(s, p, a) < 0 {
            -1
        } else {
            skip_lines(s, skip_lines(s, p, a), b)
        }),
    decreases a,
{
    if a > 0 {
        let nl = find_from(s, p, '\n');
        if p <= s.len() {
            lemma_find_from(s, p, '\n');
        }
        if nl < s.len() {
            lemma_skip_lines_compose(s, nl + 1, (a - 1) as nat, b);
            assert(skip_lines(s, p, a + b) == skip_lines(s, nl + 1, ((a - 1) as nat + b) as nat));
        }
    }
}

proof fn lemma_line_start(s: Text, c: int)
    requires
        0 <= c <= s.len(),
    ensures
        0 <= line_start(s, c) <= c,
        line_start(s, c) == 0 || s[line_start(s, c) - 1] == '\n',
        forall|j: int| line_start(s, c) <= j < c ==> #[trigger] s[j] != '\n',
    decreases c,
{
    if c > 0 && s[c - 1] != '\n' {
        lemma_line_start(s, c - 1);
    }
}

proof fn lemma_skip_to_line_start(s: Text, ci: int)
    requires
        0 <= ci <= s.len(),
    ensures
        skip_lines(s, 0, newlines(s.take(ci))) == line_start(s, ci),
    decreases ci,
{
    if ci > 0 {
        assert(s.take(ci).drop_last() =~= s.take(ci - 1));
        lemma_skip_to_line_start(s, ci - 1);
        if s[ci - 1] == '\n' {
            let m = newlines(s.take(ci - 1));
            lemma_skip_lines_compose(s, 0, m, 1);
            let q = line_start(s, ci - 1);
            lemma_line_start(s, ci - 1);
            lemma_find_from(s, q, '\n');
            let f = find_from(s, q, '\n');
            if f < ci - 1 {
                assert(s[f] != '\n');
            }
            assert(f == ci - 1);
            assert(skip_lines(s, ci, 0) == ci);
            assert(skip_lines(s, q, 1) == skip_lines(s, ci, 0));
        }
    }
}

proof fn lemma_utf16_len_sub(s: Text, a: int, j: int)
    requires
        0 <= a <= j < s.len(),
    ensures
        utf16_len(s.subrange(a, j + 1)) == utf16_len(s.subrange(a, j)) + utf16_width(s[j]),
{
    assert(s.subrange(a, j + 1).drop_last() =~= s.subrange(a, j));
}

proof fn lemma_utf16_grows(s: Text, a: int, j: int, k: int)
    requires
        0 <= a <= j <= k <= s.len(),
    ensures
        utf16_len(s.subrange(a, j)) + (k - j) <= utf16_len(s.subrange(a, k)),
    decreases k - j,
{
    if j < k {
        lemma_utf16_grows(s, a, j, k - 1);
        lemma_utf16_len_sub(s, a, k - 1);
    }
}

proof fn lemma_char_stop_lands(s: Text, start: int, j: int, e: int, ci: int, target: int)
    requires
        0 <= start <= j <= ci <= e <= s.len(),
        target == utf16_len(s.subrange(start, ci)),
    ensures
        char_stop(s, j, e, utf16_len(s.subrange(start, j)) as int, target) == ci,
    decreases ci - j,
{
    if j < ci {
        lemma_utf16_grows(s, start, j + 1, ci);
        lemma_utf16_len_sub(s, start, j);
        lemma_char_stop_lands(s, start, j + 1, e, ci, target);
    }
}

/// A position handed out for an offset points back at that offset: for every
/// character boundary whose line and UTF-16 column fit in 32 bits,
/// `offset_of(text, position_of(text, offset)) == offset`.
pub proof fn law_position_round_trip(s: Text, ci: int)
    requires
        0 <= ci <= s.len(),
        newlines(s.take(ci)) <= u32::MAX,
        utf16_len(s.subrange(line_start(s, ci), ci)) <= u32::MAX,
    ensures
        offset_spec(s, position_spec(s, ci)) == utf8_len(s.take(ci)),
{
    let at = position_spec(s, ci);
    lemma_skip_to_line_start(s, ci);
    let start = line_start(s, ci);
    lemma_line_start(s, ci);
    assert(skip_lines(s, 0, at.line as nat) == start);
    lemma_find_from(s, start, '\n');
    let e = find_from(s, start, '\n');
    if e < ci {
        assert(s[e] != '\n');
    }
    assert(s.subrange(start, start) =~= Seq::<char>::empty());
    lemma_char_stop_lands(s, start, start, e, ci, at.character as int);
}


// ----------------------------------------------------------------- problems

/// The byte range a problem from `start` to `end` covers in `s`; an empty
/// range takes the character it sits on, so there is something to mark.
pub open spec fn problem_range(s: Text, start: Position, end: Position) -> (int, int) {
    let a = offset_spec(s, start);
    let b0 = offset_spec(s, end);
    let b = if b0 > a {
        b0
    } else {
        a
    };
    if a == b {
        let k = char_spot(s, start);
        (a, if k < s.len() { utf8_len(s.take(k + 1)) as int } else { utf8_len(s) as int })
    } else {
        (a, b)
    }
}

/// The range a problem falls on lies within the text, and covers something
/// wherever it starts before the end of the text, empty as the problem's own
/// range may be.
pub proof fn law_problem_range_covers_something(s: Text, start: Position, end: Position)
    ensures
        0 <= problem_range(s, start, end).0 <= problem_range(s, start, end).1 <= utf8_len(s),
        problem_range(s, start, end).0 < utf8_len(s) ==> problem_range(s, start, end).0 < problem_range(s, start, end).1,
{
    lemma_offset_bounded(s, start);
    lemma_offset_bounded(s, end);
    lemma_char_spot(s, start);
    let k = char_spot(s, start);
    if k < s.len() {
        lemma_utf8_len_take(s, k);
        lemma_utf8_width(s[k]);
        lemma_utf8_len_prefix_grows(s, k + 1, k + 1);
    }
}

proof fn lemma_offset_bounded(s: Text, at: Position)
    ensures
        0 <= offset_spec(s, at) <= utf8_len(s),
{
    lemma_skip_lines_bounds(s, 0, at.line as nat);
    let start = skip_lines(s, 0, at.line as nat);
    if start >= 0 {
        lemma_find_from(s, start, '\n');
        let e = find_from(s, start, '\n');
        lemma_char_stop_bounds(s, start, e, 0, at.character as int);
        let k = char_stop(s, start, e, 0, at.character as int);
        lemma_utf8_len_prefix_grows(s, k, k);
    }
}

/// A number the protocol wrote, as a position's part: `0` where there is
/// none, the low 32 bits otherwise.
pub open spec fn position_part(v: Option<u64>) -> u32 {
    match v {
        Some(x) => x as u32,
        None => 0,
    }
}

/// The severity a problem is read as: an error where none is given.
pub open spec fn severity_read(severity: Option<u64>) -> Severity {
    match severity {
        Some(2) => Severity::Warning,
        Some(c) if c != 1 => Severity::Note,
        _ => Severity::Error,
    }
}

fn read_part(v: Option<u64>) -> (r: u32)
    ensures
        r == position_part(v),
{
    match v {
        Some(x) => #[verifier::truncate] (x as u32),
        None => 0,
    }
}

impl Problem {
    /// A problem from the parts the protocol writes it in, each read where it
    /// is there: an error where no severity is given, an empty message where
    /// there is none.
    pub fn read(
        severity: Option<u64>,
        message: Option<String>,
        start: (Option<u64>, Option<u64>),
        end: (Option<u64>, Option<u64>),
    ) -> (r: Problem)
        ensures
            r.severity == severity_read(severity),
            r.message@ == (match message {
                Some(m) => m@,
                None => Seq::<char>::empty(),
            }),
            r.start == (Position { line: position_part(start.0), character: position_part(start.1) }),
            r.end == (Position { line: position_part(end.0), character: position_part(end.1) }),
    {
        let code = match severity {
            Some(c) => c,
            None => 1,
        };
        let message = match message {
            Some(m) => m,
            None => String::new(),
        };
        Problem {
            severity: Severity::from_code(code),
            message,
            start: Position { line: read_part(start.0), character: read_part(start.1) },
            end: Position { line: read_part(end.0), character: read_part(end.1) },
        }
    }

    /// Where the problem falls in `text`, as a byte range.
    pub fn range_in(&self, text: &str) -> (r: std::ops::Range<usize>)
        ensures
            (r.start as int, r.end as int) == problem_range(text@, self.start, self.end),
    {
        let s = chars_of(text);
        let total = text.as_bytes().len();
        let k = spot_of(&s, self.start);
        proof {
            lemma_char_spot(text@, self.start);
            lemma_offset_bounded(text@, self.start);
        }
        let start = byte_offset(s.as_slice(), k, total);
        let end0 = offset_of(text, self.end);
        let end = if end0 > start {
            end0
        } else {
            start
        };
        if start == end {
            let stop = if k < s.len() {
                proof {
                    lemma_utf8_len_take(text@, k as int);
                    lemma_utf8_len_prefix_grows(text@, k + 1, k + 1);
                }
                start + width_utf8(s[k])
            } else {
                total
            };
            start..stop
        } else {
            start..end
        }
    }
}


// --------------------------------------------------------------------- URIs

/// The bytes a URI keeps as they are.
pub open spec fn unreserved(b: u8) -> bool {
    ||| 65 <= b <= 90
    ||| 97 <= b <= 122
    ||| 48 <= b <= 57
    ||| b == 47
    ||| b == 45
    ||| b == 95
    ||| b == 46
    ||| b == 126
}

/// An upper case hexadecimal digit for `d < 16`.
pub open spec fn hex_byte(d: u8) -> u8 {
    if d < 10 {
        (48 + d) as u8
    } else {
        (55 + d) as u8
    }
}

/// How a URI writes one byte of a path: as itself, or as `%XX`.
pub open spec fn escape_bytes(b: u8) -> Seq<u8> {
    if unreserved(b) {
        seq![b]
    } else {
        seq![37u8, hex_byte(b / 16), hex_byte(b % 16)]
    }
}

pub open spec fn uri_bytes(bs: Seq<u8>) -> Seq<u8>
    decreases bs.len(),
{
    if bs.len() == 0 {
        seq![]
    } else {
        escape_bytes(bs[0]) + uri_bytes(bs.drop_first())
    }
}

/// `file://`, as bytes.
pub open spec fn scheme_bytes() -> Seq<u8> {
    seq![102u8, 105u8, 108u8, 101u8, 58u8, 47u8, 47u8]
}

/// The `file://` URI of a path: its UTF-8 bytes, escaped.
pub open spec fn uri_spec(path: Text) -> Text {
    (scheme_bytes() + uri_bytes(vstd::utf8::encode_utf8(path))).map_values(|b: u8| b as char)
}

proof fn lemma_uri_bytes_concat(a: Seq<u8>, b: Seq<u8>)
    ensures
        uri_bytes(a + b) == uri_bytes(a) + uri_bytes(b),
    decreases a.len(),
{
    if a.len() == 0 {
        assert(a + b =~= b);
    } else {
        assert((a + b).drop_first() =~= a.drop_first() + b);
        lemma_uri_bytes_concat(a.drop_first(), b);
    }
}

proof fn lemma_uri_bytes_push(a: Seq<u8>, b: u8)
    ensures
        uri_bytes(a.push(b)) == uri_bytes(a) + escape_bytes(b),
{
    lemma_uri_bytes_concat(a, seq![b]);
    assert(a + seq![b] =~= a.push(b));
    assert(seq![b].drop_first() =~= Seq::<u8>::empty());
    assert(uri_bytes(Seq::<u8>::empty()) == Seq::<u8>::empty());
    assert(uri_bytes(seq![b]) == escape_bytes(b) + uri_bytes(Seq::<u8>::empty()));
    assert(uri_bytes(seq![b]) =~= escape_bytes(b));
}

fn push_byte_char(out: &mut String, b: u8)
    requires
        b < 128,
    ensures
        final(out)@ == old(out)@.push(b as char),
{
    crate::text::push_char(out, b as char);
}

fn hex_digit_byte(d: u8) -> (r: u8)
    requires
        d < 16,
    ensures
        r == hex_byte(d),
        r < 128,
{
    if d < 10 {
        48 + d
    } else {
        55 + d
    }
}

/// A `file://` URI for a path.
pub fn uri(path: &str) -> (r: String)
    ensures
        r@ == uri_spec(path@),
{
    let bytes = path.as_bytes();
    let ghost bs = bytes@;
    assert(bs == vstd::utf8::encode_utf8(path@));
    let mut out = String::new();
    push_byte_char(&mut out, 102);
    push_byte_char(&mut out, 105);
    push_byte_char(&mut out, 108);
    push_byte_char(&mut out, 101);
    push_byte_char(&mut out, 58);
    push_byte_char(&mut out, 47);
    push_byte_char(&mut out, 47);
    assert(bs.take(0) =~= Seq::<u8>::empty());
    assert(out@ =~= (scheme_bytes() + uri_bytes(bs.take(0))).map_values(|b: u8| b as char));
    let mut i: usize = 0;
    while i < bytes.len()
        invariant
            i <= bs.len(),
            bytes@ == bs,
            out@ == (scheme_bytes() + uri_bytes(bs.take(i as int))).map_values(|b: u8| b as char),
        decreases bs.len() - i,
    {
        let b = bytes[i];
        let ghost before = scheme_bytes() + uri_bytes(bs.take(i as int));
        proof {
            assert(bs.take(i + 1) =~= bs.take(i as int).push(b));
            lemma_uri_bytes_push(bs.take(i as int), b);
            assert(scheme_bytes() + uri_bytes(bs.take(i + 1)) =~= before + escape_bytes(b));
        }
        let unres = (65 <= b && b <= 90) || (97 <= b && b <= 122) || (48 <= b && b <= 57) || b == 47
            || b == 45 || b == 95 || b == 46 || b == 126;
        if unres {
            push_byte_char(&mut out, b);
            assert(out@ =~= (before + escape_bytes(b)).map_values(|b: u8| b as char));
        } else {
            push_byte_char(&mut out, 37);
            let hi = hex_digit_byte(b / 16);
            let lo = hex_digit_byte(b % 16);
            push_byte_char(&mut out, hi);
            push_byte_char(&mut out, lo);
            assert(out@ =~= (before + escape_bytes(b)).map_values(|b: u8| b as char));
        }
        i += 1;
    }
    assert(bs.take(bs.len() as int) =~= bs);
    out
}

/// Whether a byte is a hexadecimal digit.
pub open spec fn is_hex(b: u8) -> bool {
    (48 <= b <= 57) || (97 <= b <= 102) || (65 <= b <= 70)
}

pub open spec fn hex_value(b: u8) -> int {
    if 48 <= b <= 57 {
        b - 48
    } else if 97 <= b <= 102 {
        b - 87
    } else {
        b - 55
    }
}

/// What `u8::from_str_radix(_, 16)` makes of the (at most two) characters
/// after a `%`, each byte read as the character with that code: nothing for
/// an empty text or a lone sign, a leading `+` skipped, and every other
/// character a hexadecimal digit.
pub open spec fn hex_pair_value(h: Seq<u8>) -> Option<u8> {
    let d = if h.len() > 1 && h[0] == 43 {
        h.drop_first()
    } else {
        h
    };
    if h.len() == 0 || h.len() > 2 {
        None
    } else if d.len() == 1 && is_hex(d[0]) {
        Some(hex_value(d[0]) as u8)
    } else if d.len() == 2 && is_hex(d[0]) && is_hex(d[1]) {
        Some((hex_value(d[0]) * 16 + hex_value(d[1])) as u8)
    } else {
        None
    }
}

/// The bytes a URI stands for, read from position `i` on: `%XX` turned back
/// into the byte it escapes, anything else kept.
pub open spec fn decode_from(bs: Seq<u8>, i: int) -> Option<Seq<u8>>
    decreases bs.len() - i,
{
    if i < 0 || i >= bs.len() {
        Some(seq![])
    } else if bs[i] == 37 {
        let stop = if i + 3 < bs.len() {
            i + 3
        } else {
            bs.len() as int
        };
        match hex_pair_value(bs.subrange(i + 1, stop)) {
            None => None,
            Some(v) => match decode_from(bs, stop) {
                Some(t) => Some(seq![v] + t),
                None => None,
            },
        }
    } else {
        match decode_from(bs, i + 1) {
            Some(t) => Some(seq![bs[i]] + t),
            None => None,
        }
    }
}

/// The path a `file://` URI points at, when its escapes stand for valid UTF-8.
pub open spec fn path_spec(u: Text) -> Option<Text> {
    let bs = vstd::utf8::encode_utf8(u);
    if bs.len() >= 7 && bs.take(7) == scheme_bytes() {
        match decode_from(bs, 7) {
            Some(out) => if vstd::utf8::valid_utf8(out) {
                Some(vstd::utf8::decode_utf8(out))
            } else {
                None
            },
            None => None,
        }
    } else {
        None
    }
}

/// `String::from_utf8`: the text the bytes encode, when they are valid UTF-8.
#[verifier::external_body]
fn string_from_utf8(bytes: Vec<u8>) -> (r: Option<String>)
    ensures
        r is Some <==> vstd::utf8::valid_utf8(bytes@),
        r matches Some(s) ==> s@ == vstd::utf8::decode_utf8(bytes@),
{
    String::from_utf8(bytes).ok()
}

fn hex_pair(bs: &[u8], from: usize, to: usize) -> (r: Option<u8>)
    requires
        from <= to <= bs@.len(),
    ensures
        r == hex_pair_value(bs@.subrange(from as int, to as int)),
{
    let ghost h = bs@.subrange(from as int, to as int);
    let n = to - from;
    if n == 0 || n > 2 {
        return None;
    }
    let mut a = from;
    if n > 1 && bs[from] == 43 {
        a = from + 1;
    }
    assert(bs@.subrange(a as int, to as int) == (if h.len() > 1 && h[0] == 43 {
        h.drop_first()
    } else {
        h
    }));
    let m = to - a;
    let d0 = bs[a];
    let ok0 = (48 <= d0 && d0 <= 57) || (97 <= d0 && d0 <= 102) || (65 <= d0 && d0 <= 70);
    if !ok0 {
        return None;
    }
    let v0: u8 = if 48 <= d0 && d0 <= 57 {
        d0 - 48
    } else if 97 <= d0 && d0 <= 102 {
        d0 - 87
    } else {
        d0 - 55
    };
    if m == 1 {
        return Some(v0);
    }
    let d1 = bs[a + 1];
    let ok1 = (48 <= d1 && d1 <= 57) || (97 <= d1 && d1 <= 102) || (65 <= d1 && d1 <= 70);
    if !ok1 {
        return None;
    }
    let v1: u8 = if 48 <= d1 && d1 <= 57 {
        d1 - 48
    } else if 97 <= d1 && d1 <= 102 {
        d1 - 87
    } else {
        d1 - 55
    };
    Some(v0 * 16 + v1)
}

/// The path a `file://` URI points at.
pub fn path_of(uri: &str) -> (r: Option<String>)
    ensures
        match r {
            Some(p) => path_spec(uri@) == Some(p@),
            None => path_spec(uri@) is None,
        },
{
    let bytes = uri.as_bytes();
    let ghost bs = bytes@;
    if bytes.len() < 7 || bytes[0] != 102 || bytes[1] != 105 || bytes[2] != 108 || bytes[3] != 101
        || bytes[4] != 58 || bytes[5] != 47 || bytes[6] != 47 {
        proof {
            if bs.len() >= 7 && bs.take(7) == scheme_bytes() {
                assert(bs.take(7)[0] == bs[0]);
                assert(bs.take(7)[1] == bs[1]);
                assert(bs.take(7)[2] == bs[2]);
                assert(bs.take(7)[3] == bs[3]);
                assert(bs.take(7)[4] == bs[4]);
                assert(bs.take(7)[5] == bs[5]);
                assert(bs.take(7)[6] == bs[6]);
            }
        }
        return None;
    }
    assert(bs.take(7) =~= scheme_bytes());
    let mut out: Vec<u8> = Vec::new();
    let mut i: usize = 7;
    while i < bytes.len()
        invariant
            7 <= i <= bs.len(),
            bytes@ == bs,
            bs == vstd::utf8::encode_utf8(uri@),
            bs.take(7) == scheme_bytes(),
            decode_from(bs, 7) == match decode_from(bs, i as int) {
                Some(t) => Some(out@ + t),
                None => None::<Seq<u8>>,
            },
        decreases bs.len() - i,
    {
        if bytes[i] == 37 {
            let stop = if bytes.len() - i > 3 {
                i + 3
            } else {
                bytes.len()
            };
            match hex_pair(bytes, i + 1, stop) {
                Some(v) => {
                    let ghost before = out@;
                    out.push(v);
                    proof {
                        match decode_from(bs, stop as int) {
                            Some(t) => {
                                assert(before + (seq![v] + t) =~= out@ + t);
                            },
                            None => {},
                        }
                    }
                    i = stop;
                },
                None => {
                    assert(decode_from(bs, i as int) is None);
                    return None;
                },
            }
        } else {
            let ghost before = out@;
            out.push(bytes[i]);
            proof {
                match decode_from(bs, i + 1) {
                    Some(t) => {
                        assert(before + (seq![bs[i as int]] + t) =~= out@ + t);
                    },
                    None => {},
                }
            }
            i += 1;
        }
    }
    assert(out@ + seq![] =~= out@);
    string_from_utf8(out)
}


proof fn lemma_escape_ascii(b: u8)
    ensures
        forall|k: int| 0 <= k < escape_bytes(b).len() ==> #[trigger] escape_bytes(b)[k] < 128,
{
}

proof fn lemma_uri_bytes_ascii(q: Seq<u8>)
    ensures
        forall|k: int| 0 <= k < uri_bytes(q).len() ==> #[trigger] uri_bytes(q)[k] < 128,
    decreases q.len(),
{
    if q.len() > 0 {
        lemma_escape_ascii(q[0]);
        lemma_uri_bytes_ascii(q.drop_first());
        let e = escape_bytes(q[0]);
        let r = uri_bytes(q.drop_first());
        assert forall|k: int| 0 <= k < uri_bytes(q).len() implies #[trigger] uri_bytes(q)[k] < 128 by {
            if k < e.len() {
                assert(uri_bytes(q)[k] == e[k]);
            } else {
                assert(uri_bytes(q)[k] == r[k - e.len()]);
            }
        }
    }
}

proof fn lemma_decode_uri_bytes(x: Seq<u8>, q: Seq<u8>)
    ensures
        decode_from(x + uri_bytes(q), x.len() as int) == Some(q),
    decreases q.len(),
{
    let bs = x + uri_bytes(q);
    let i = x.len() as int;
    if q.len() == 0 {
        assert(bs =~= x);
        assert(q =~= Seq::<u8>::empty());
    } else {
        let b = q[0];
        let rest = q.drop_first();
        let e = escape_bytes(b);
        let x2 = x + e;
        assert(bs =~= x2 + uri_bytes(rest));
        lemma_decode_uri_bytes(x2, rest);
        assert(seq![b] + rest =~= q);
        if unreserved(b) {
            assert(bs[i] == b);
            assert(x2.len() == i + 1);
        } else {
            assert(bs[i] == 37);
            assert(bs[i + 1] == hex_byte(b / 16));
            assert(bs[i + 2] == hex_byte(b % 16));
            let stop = if i + 3 < bs.len() {
                i + 3
            } else {
                bs.len() as int
            };
            assert(stop == i + 3);
            let h = bs.subrange(i + 1, stop);
            assert(h =~= seq![hex_byte(b / 16), hex_byte(b % 16)]);
            assert(hex_pair_value(h) == Some(b));
        }
    }
}

/// A path written as a `file://` URI reads back as the same path:
/// `path_of(&uri(path)) == Some(path)`, for every path.
pub proof fn law_uri_round_trip(p: Text)
    ensures
        path_spec(uri_spec(p)) == Some(p),
{
    let q = vstd::utf8::encode_utf8(p);
    let bs = scheme_bytes() + uri_bytes(q);
    let u = uri_spec(p);
    lemma_uri_bytes_ascii(q);
    assert forall|k: int| 0 <= k < bs.len() implies #[trigger] bs[k] < 128 by {
        if k >= 7 {
            assert(bs[k] == uri_bytes(q)[k - 7]);
        }
    }
    assert(vstd::utf8::is_ascii_chars(u));
    vstd::utf8::is_ascii_chars_encode_utf8(u);
    assert(vstd::utf8::encode_utf8(u) =~= bs);
    assert(bs.take(7) =~= scheme_bytes());
    lemma_decode_uri_bytes(scheme_bytes(), q);
    vstd::utf8::encode_utf8_valid_utf8(p);
    vstd::utf8::encode_utf8_decode_utf8(p);
}


// ---------------------------------------------------------------- hover text

/// `replace("**", "")`: every `**`, read left to right, taken out.
pub open spec fn drop_bold(s: Text) -> Text
    decreases s.len(),
{
    if s.len() >= 2 && s[0] == '*' && s[1] == '*' {
        drop_bold(s.skip(2))
    } else if s.len() == 0 {
        seq![]
    } else {
        seq![s[0]] + drop_bold(s.drop_first())
    }
}

/// `replace('`', "")`.
pub open spec fn drop_ticks(s: Text) -> Text {
    s.filter(|c: char| c != '`')
}

/// A line that opens or closes a fenced code block.
pub open spec fn is_fence(line: Text) -> bool {
    let t = crate::text::trim_start(line);
    t.len() >= 3 && t[0] == '`' && t[1] == '`' && t[2] == '`'
}

pub open spec fn plain_fold(ls: Seq<Text>, n: nat) -> Text
    decreases n,
{
    if n == 0 || n > ls.len() {
        seq![]
    } else if is_fence(ls[n - 1]) {
        plain_fold(ls, (n - 1) as nat)
    } else {
        plain_fold(ls, (n - 1) as nat) + crate::text::trim_end(drop_ticks(drop_bold(ls[n - 1]))).push(
            '\n',
        )
    }
}

/// Markdown as a tooltip reads it: fences gone, `**` and backticks gone,
/// every line trimmed at its end, and the whole trimmed.
pub open spec fn plain_spec(markdown: Text) -> Text {
    let ls = crate::text::lines(markdown);
    crate::text::trim(plain_fold(ls, ls.len()))
}

fn without_bold(s: &[char]) -> (r: Vec<char>)
    ensures
        r@ == drop_bold(s@),
{
    let mut r: Vec<char> = Vec::new();
    let mut i: usize = 0;
    assert(s@.skip(0) =~= s@);
    assert(r@ + drop_bold(s@) =~= drop_bold(s@));
    while i < s.len()
        invariant
            i <= s@.len(),
            drop_bold(s@) == r@ + drop_bold(s@.skip(i as int)),
        decreases s@.len() - i,
    {
        let ghost t = s@.skip(i as int);
        if i + 1 < s.len() && s[i] == '*' && s[i + 1] == '*' {
            assert(t.skip(2) =~= s@.skip(i + 2));
            i += 2;
        } else {
            assert(t.drop_first() =~= s@.skip(i + 1));
            let ghost before = r@;
            r.push(s[i]);
            assert(before + (seq![s@[i as int]] + drop_bold(s@.skip(i + 1))) =~= r@ + drop_bold(
                s@.skip(i + 1),
            ));
            i += 1;
        }
    }
    assert(s@.skip(i as int) =~= Seq::<char>::empty());
    assert(r@ + Seq::<char>::empty() =~= r@);
    r
}

fn without_ticks(s: &[char]) -> (r: Vec<char>)
    ensures
        r@ == drop_ticks(s@),
{
    let mut r: Vec<char> = Vec::new();
    let mut i: usize = 0;
    while i < s.len()
        invariant
            i <= s@.len(),
            r@ == drop_ticks(s@.take(i as int)),
        decreases s@.len() - i,
    {
        assert(s@.take(i + 1) =~= s@.take(i as int).push(s@[i as int]));
        reveal(Seq::filter);
        assert(s@.take(i + 1).drop_last() =~= s@.take(i as int));
        if s[i] != '`' {
            r.push(s[i]);
        }
        i += 1;
    }
    assert(s@.take(s@.len() as int) =~= s@);
    r
}

/// Markdown as a tooltip reads it: the words, without the marks around them.
pub fn plain_text(markdown: &str) -> (r: String)
    ensures
        r@ == plain_spec(markdown@),
{
    let chars = chars_of(markdown);
    let ls = crate::text::split_lines(chars.as_slice());
    let ghost lv = crate::text::texts(ls@);
    let mut out: Vec<char> = Vec::new();
    let mut n: usize = 0;
    while n < ls.len()
        invariant
            n <= ls@.len(),
            lv == crate::text::texts(ls@),
            lv == crate::text::lines(markdown@),
            out@ == plain_fold(lv, n as nat),
        decreases ls@.len() - n,
    {
        assert(lv[n as int] == ls@[n as int]@);
        let t = crate::text::trimmed_start(ls[n].as_slice());
        let fence = t.len() >= 3 && t[0] == '`' && t[1] == '`' && t[2] == '`';
        if !fence {
            let a = without_bold(ls[n].as_slice());
            let b = without_ticks(a.as_slice());
            let c = crate::text::trimmed_end(b.as_slice());
            let mut k: usize = 0;
            let ghost base = out@;
            while k < c.len()
                invariant
                    k <= c@.len(),
                    out@ == base + c@.take(k as int),
                decreases c@.len() - k,
            {
                out.push(c[k]);
                assert(c@.take(k + 1) =~= c@.take(k as int).push(c@[k as int]));
                k += 1;
            }
            out.push('\n');
            assert(c@.take(c@.len() as int) =~= c@);
            assert(out@ =~= base + c@.push('\n'));
        }
        n += 1;
    }
    let t = crate::text::trimmed(out.as_slice());
    crate::text::string_of(t.as_slice())
}

// ------------------------------------------------------------ plain text

/// `s` holds no `**`.
pub open spec fn no_double_star(s: Text) -> bool {
    forall|i: int| 0 <= i < s.len() - 1 ==> !(#[trigger] s[i] == '*' && s[i + 1] == '*')
}

/// `s` holds no backtick.
pub open spec fn no_tick(s: Text) -> bool {
    forall|i: int| 0 <= i < s.len() ==> #[trigger] s[i] != '`'
}

proof fn lemma_drop_bold_clean(s: Text)
    ensures
        no_double_star(drop_bold(s)),
        no_tick(s) ==> no_tick(drop_bold(s)),
        s.len() > 0 && s[0] != '*' ==> drop_bold(s).len() > 0 && drop_bold(s)[0] == s[0],
    decreases s.len(),
{
    if s.len() >= 2 && s[0] == '*' && s[1] == '*' {
        lemma_drop_bold_clean(s.skip(2));
        if no_tick(s) {
            assert forall|i: int| 0 <= i < s.skip(2).len() implies #[trigger] s.skip(2)[i] != '`' by {
                assert(s.skip(2)[i] == s[i + 2]);
            }
        }
    } else if s.len() > 0 {
        let rest = s.drop_first();
        lemma_drop_bold_clean(rest);
        let x = drop_bold(rest);
        let d = drop_bold(s);
        assert(d == seq![s[0]] + x);
        if s[0] == '*' && s.len() >= 2 {
            assert(rest[0] == s[1]);
        }
        assert forall|i: int| 0 <= i < d.len() - 1 implies !(#[trigger] d[i] == '*' && d[i + 1] == '*') by {
            if i > 0 {
                assert(d[i] == x[i - 1] && d[i + 1] == x[i]);
            } else {
                assert(d[1] == x[0]);
            }
        }
        if no_tick(s) {
            assert forall|i: int| 0 <= i < rest.len() implies #[trigger] rest[i] != '`' by {
                assert(rest[i] == s[i + 1]);
            }
            assert forall|i: int| 0 <= i < d.len() implies #[trigger] d[i] != '`' by {
                if i > 0 {
                    assert(d[i] == x[i - 1]);
                }
            }
        }
    }
}

proof fn lemma_untouched_filter(s: Text)
    requires
        no_tick(s),
    ensures
        drop_ticks(s) == s,
    decreases s.len(),
{
    let f = |c: char| c != '`';
    if s.len() == 0 {
        assert(s.filter(f) =~= s) by {
            reveal(Seq::filter);
        }
    } else {
        let front = s.drop_last();
        assert forall|i: int| 0 <= i < front.len() implies #[trigger] front[i] != '`' by {
            assert(front[i] == s[i]);
        }
        lemma_untouched_filter(front);
        assert(s =~= front.push(s.last()));
        front.lemma_filter_push(s.last(), f);
    }
}

proof fn lemma_piece_clean(line: Text)
    ensures
        ({
            let piece = crate::text::trim_end(drop_ticks(drop_bold(line)));
            &&& no_tick(piece)
            &&& no_tick(line) ==> no_double_star(piece)
        }),
{
    let b = drop_bold(line);
    lemma_drop_bold_clean(line);
    let t = drop_ticks(b);
    b.filter_lemma(|c: char| c != '`');
    crate::text::lemma_trailing_spaces(t);
    let piece = crate::text::trim_end(t);
    assert forall|i: int| 0 <= i < piece.len() implies #[trigger] piece[i] != '`' by {
        assert(piece[i] == t[i]);
    }
    if no_tick(line) {
        lemma_untouched_filter(b);
        assert forall|i: int| 0 <= i < piece.len() - 1 implies !(#[trigger] piece[i] == '*' && piece[i + 1] == '*') by {
            assert(piece[i] == b[i] && piece[i + 1] == b[i + 1]);
        }
    }
}

proof fn lemma_fold_clean(ls: Seq<Text>, n: nat)
    ensures
        no_tick(plain_fold(ls, n)),
        (forall|k: int| 0 <= k < ls.len() ==> no_tick(#[trigger] ls[k])) ==> no_double_star(plain_fold(ls, n)),
        plain_fold(ls, n).len() == 0 || plain_fold(ls, n).last() == '\n',
    decreases n,
{
    if n > 0 && n <= ls.len() {
        lemma_fold_clean(ls, (n - 1) as nat);
        if !is_fence(ls[n - 1]) {
            let prev = plain_fold(ls, (n - 1) as nat);
            let piece = crate::text::trim_end(drop_ticks(drop_bold(ls[n - 1])));
            lemma_piece_clean(ls[n - 1]);
            let tail = piece.push('\n');
            let all = prev + tail;
            assert(all == plain_fold(ls, n));
            assert forall|i: int| 0 <= i < all.len() implies #[trigger] all[i] != '`' by {
                if i < prev.len() {
                    assert(all[i] == prev[i]);
                } else if i < prev.len() + piece.len() {
                    assert(all[i] == piece[i - prev.len()]);
                }
            }
            if forall|k: int| 0 <= k < ls.len() ==> no_tick(#[trigger] ls[k]) {
                assert(no_tick(ls[n - 1]));
                assert forall|i: int| 0 <= i < all.len() - 1 implies !(#[trigger] all[i] == '*' && all[i + 1] == '*') by {
                    if i + 1 < prev.len() {
                        assert(all[i] == prev[i] && all[i + 1] == prev[i + 1]);
                    } else if i + 1 == prev.len() {
                        assert(all[i] == prev.last());
                    } else if i + 1 < prev.len() + piece.len() {
                        assert(all[i] == piece[i - prev.len()] && all[i + 1] == piece[i + 1 - prev.len()]);
                    } else {
                        assert(all[i + 1] == '\n');
                    }
                }
            }
            assert(all.last() == '\n');
        }
    }
}

proof fn lemma_lines_clean(s: Text, from: int)
    requires
        no_tick(s),
        0 <= from,
    ensures
        forall|k: int| 0 <= k < crate::text::lines_from(s, from).len() ==> no_tick(#[trigger] crate::text::lines_from(s, from)[k]),
    decreases s.len() - from,
{
    if from < s.len() {
        lemma_find_from(s, from, '\n');
        let e = find_from(s, from, '\n');
        let piece = s.subrange(from, e);
        let ls = crate::text::lines_from(s, from);
        assert(no_tick(piece)) by {
            assert forall|i: int| 0 <= i < piece.len() implies #[trigger] piece[i] != '`' by {
                assert(piece[i] == s[from + i]);
            }
        }
        assert(no_tick(ls[0])) by {
            assert forall|i: int| 0 <= i < ls[0].len() implies #[trigger] ls[0][i] != '`' by {
                assert(ls[0][i] == piece[i]);
            }
        }
        if e < s.len() {
            lemma_lines_clean(s, e + 1);
            assert forall|k: int| 0 <= k < ls.len() implies no_tick(#[trigger] ls[k]) by {
                if k > 0 {
                    assert(ls[k] == crate::text::lines_from(s, e + 1)[k - 1]);
                }
            }
        }
    }
}

/// A hover shown as plain text holds no backtick, and, where the markdown
/// holds none, no `**` either: bold marks are taken away, not shown.
pub proof fn law_plain_text_holds_no_marks(markdown: Text)
    ensures
        no_tick(plain_spec(markdown)),
        no_tick(markdown) ==> no_double_star(plain_spec(markdown)),
{
    let ls = crate::text::lines(markdown);
    lemma_fold_clean(ls, ls.len());
    let f = plain_fold(ls, ls.len());
    if no_tick(markdown) {
        lemma_lines_clean(markdown, 0);
    }
    crate::text::lemma_leading_spaces(f);
    let a = crate::text::trim_start(f);
    crate::text::lemma_trailing_spaces(a);
    let p = plain_spec(markdown);
    assert(p == a.subrange(0, a.len() - crate::text::trailing_spaces(a)));
    assert forall|i: int| 0 <= i < p.len() implies #[trigger] p[i] != '`' by {
        assert(p[i] == a[i]);
        assert(a[i] == f[i + crate::text::leading_spaces(f)]);
    }
    if no_tick(markdown) {
        assert forall|i: int| 0 <= i < p.len() - 1 implies !(#[trigger] p[i] == '*' && p[i + 1] == '*') by {
            let o = crate::text::leading_spaces(f) as int;
            assert(p[i] == a[i] && p[i + 1] == a[i + 1]);
            assert(a[i] == f[i + o] && a[i + 1] == f[i + 1 + o]);
        }
    }
}

// ------------------------------------------------------------ URI letters

/// A character a `file://` URI holds after its scheme: a letter, a digit,
/// one of `/ - _ . ~`, or the `%` that starts an escape.
pub open spec fn uri_char(c: char) -> bool {
    ||| ('A' <= c && c <= 'Z')
    ||| ('a' <= c && c <= 'z')
    ||| ('0' <= c && c <= '9')
    ||| c == '/'
    ||| c == '-'
    ||| c == '_'
    ||| c == '.'
    ||| c == '~'
    ||| c == '%'
}

/// An upper case hexadecimal digit.
pub open spec fn upper_hex(c: char) -> bool {
    ('0' <= c && c <= '9') || ('A' <= c && c <= 'F')
}

pub open spec fn hex_b(b: u8) -> bool {
    (48 <= b && b <= 57) || (65 <= b && b <= 70)
}

proof fn lemma_uri_bytes_letters(bs: Seq<u8>)
    ensures
        forall|i: int| 0 <= i < uri_bytes(bs).len() ==> unreserved(#[trigger] uri_bytes(bs)[i]) || uri_bytes(bs)[i] == 37,
        forall|i: int| 0 <= i < uri_bytes(bs).len() && #[trigger] uri_bytes(bs)[i] == 37 ==> i + 2 < uri_bytes(bs).len()
            && hex_b(uri_bytes(bs)[i + 1]) && hex_b(uri_bytes(bs)[i + 2]),
    decreases bs.len(),
{
    if bs.len() > 0 {
        let b = bs[0];
        let g = escape_bytes(b);
        let rest = uri_bytes(bs.drop_first());
        lemma_uri_bytes_letters(bs.drop_first());
        let all = uri_bytes(bs);
        assert(all == g + rest);
        assert(b / 16 < 16) by (nonlinear_arith);
        assert(b % 16 < 16);
        assert forall|i: int| 0 <= i < all.len() implies unreserved(#[trigger] all[i]) || all[i] == 37 by {
            if i >= g.len() {
                assert(all[i] == rest[i - g.len()]);
            }
        }
        assert forall|i: int| 0 <= i < all.len() && #[trigger] all[i] == 37 implies i + 2 < all.len()
            && hex_b(all[i + 1]) && hex_b(all[i + 2]) by {
            if i >= g.len() {
                assert(all[i] == rest[i - g.len()]);
                assert(all[i + 1] == rest[i + 1 - g.len()]);
                assert(all[i + 2] == rest[i + 2 - g.len()]);
            } else if unreserved(b) {
                assert(all[i] == b);
            } else if i == 0 {
                assert(all[1] == hex_byte(b / 16));
                assert(all[2] == hex_byte(b % 16));
            } else {
                assert(all[i] == hex_byte(b / 16) || all[i] == hex_byte(b % 16));
            }
        }
    }
}

/// The `file://` URI of a path writes, after its scheme, only letters,
/// digits, `/ - _ . ~` and escapes: every `%` is followed by two upper case
/// hexadecimal digits.
pub proof fn law_uri_holds_only_plain_letters_and_escapes(p: Text)
    ensures
        ({
            let u = uri_spec(p);
            &&& u.len() >= 7
            &&& u.take(7) == seq!['f', 'i', 'l', 'e', ':', '/', '/']
            &&& forall|i: int| 7 <= i < u.len() ==> uri_char(#[trigger] u[i])
            &&& forall|i: int| 7 <= i < u.len() && #[trigger] u[i] == '%' ==> i + 2 < u.len() && upper_hex(u[i + 1])
                && upper_hex(u[i + 2])
        }),
{
    let q = vstd::utf8::encode_utf8(p);
    let ub = uri_bytes(q);
    lemma_uri_bytes_letters(q);
    let bs = scheme_bytes() + ub;
    let u = uri_spec(p);
    assert(u == bs.map_values(|b: u8| b as char));
    assert(u.take(7) =~= seq!['f', 'i', 'l', 'e', ':', '/', '/']);
    assert forall|i: int| 7 <= i < u.len() implies uri_char(#[trigger] u[i]) by {
        assert(bs[i] == ub[i - 7]);
        assert(u[i] == bs[i] as char);
    }
    assert forall|i: int| 7 <= i < u.len() && #[trigger] u[i] == '%' implies i + 2 < u.len() && upper_hex(u[i + 1])
        && upper_hex(u[i + 2]) by {
        assert(bs[i] == ub[i - 7]);
        assert(u[i] == bs[i] as char);
        assert(ub[i - 7] == 37);
        assert(bs[i + 1] == ub[i - 6]);
        assert(bs[i + 2] == ub[i - 5]);
        assert(u[i + 1] == bs[i + 1] as char);
        assert(u[i + 2] == bs[i + 2] as char);
    }
}

/// A character a path may hold that a URI writes as it is.
pub open spec fn plain_path_char(c: char) -> bool {
    uri_char(c) && c != '%'
}

proof fn lemma_plain_bytes(p: Text)
    requires
        forall|i: int| 0 <= i < p.len() ==> plain_path_char(#[trigger] p[i]),
    ensures
        uri_bytes(vstd::utf8::encode_utf8(p)) == p.map_values(|c: char| c as u8),
        forall|i: int| 0 <= i < p.len() ==> ((#[trigger] p[i]) as u8) as char == p[i],
    decreases p.len(),
{
    if p.len() > 0 {
        let rest = p.drop_first();
        assert forall|i: int| 0 <= i < rest.len() implies plain_path_char(#[trigger] rest[i]) by {
            assert(rest[i] == p[i + 1]);
        }
        lemma_plain_bytes(rest);
        let c = p[0];
        assert(plain_path_char(c));
        let v = c as u32;
        assert(v <= 0x7F);
        assert(v & 0x7F == v) by (bit_vector)
            requires
                v <= 0x7F,
        ;
        let b = c as u8;
        assert(vstd::utf8::encode_scalar(v) == seq![b]);
        assert(unreserved(b));
        lemma_uri_bytes_concat(seq![b], vstd::utf8::encode_utf8(rest));
        assert(uri_bytes(seq![b]) =~= seq![b]) by {
            assert(seq![b].drop_first() =~= Seq::<u8>::empty());
            assert(seq![b][0] == b);
            assert(escape_bytes(b) == seq![b]);
            assert(uri_bytes(Seq::<u8>::empty()) == Seq::<u8>::empty());
            assert(uri_bytes(seq![b]) == escape_bytes(b) + uri_bytes(Seq::<u8>::empty()));
        }
        assert(p.map_values(|c: char| c as u8) =~= seq![b] + rest.map_values(|c: char| c as u8));
        assert forall|i: int| 0 <= i < p.len() implies ((#[trigger] p[i]) as u8) as char == p[i] by {
            if i > 0 {
                assert(p[i] == rest[i - 1]);
            }
        }
    }
}

/// A path of letters, digits and `/ - _ . ~` alone is written in its URI as
/// it is, after `file://`.
pub proof fn law_plain_paths_are_written_as_they_are(p: Text)
    requires
        forall|i: int| 0 <= i < p.len() ==> plain_path_char(#[trigger] p[i]),
    ensures
        uri_spec(p) == seq!['f', 'i', 'l', 'e', ':', '/', '/'] + p,
{
    lemma_plain_bytes(p);
    let bs = scheme_bytes() + p.map_values(|c: char| c as u8);
    assert(uri_spec(p) =~= seq!['f', 'i', 'l', 'e', ':', '/', '/'] + p) by {
        assert forall|i: int| 7 <= i < bs.len() implies (#[trigger] bs[i]) as char == p[i - 7] by {
            assert(bs[i] == p[i - 7] as u8);
        }
    }
}

} // verus!
