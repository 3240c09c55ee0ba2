//! Text as sequences of characters, and the standard operations on it that
//! the parser and the language client rely on: whitespace, trimming, lines,
//! words and separators, each stated over `Seq<char>`.

use vstd::prelude::*;

verus! {

/// Characters as the library reads them.
pub type Text = Seq<char>;

/// Appends one character to a `String` (`String::push`).
#[verifier::external_body]
pub(crate) fn push_char(s: &mut String, c: char)
    ensures
        final(s)@ == old(s)@.push(c),
{
    s.push(c);
}

/// The characters of a string slice, in order.
pub fn chars_of(s: &str) -> (v: Vec<char>)
    ensures
        v@ == s@,
{
    let mut v: Vec<char> = Vec::new();
    for c in iter: s.chars()
        invariant
            v@ == iter.seq().take(iter.index()),
            iter.seq() == s@,
    {
        v.push(c);
    }
    v
}

/// A `String` holding exactly the given characters.
pub fn string_of(s: &[char]) -> (r: String)
    ensures
        r@ == s@,
{
    let mut r = String::new();
    let mut i: usize = 0;
    while i < s.len()
        invariant
            i <= s@.len(),
            r@ == s@.take(i as int),
        decreases s@.len() - i,
    {
        push_char(&mut r, s[i]);
        assert(s@.take(i + 1) =~= s@.take(i as int).push(s@[i as int]));
        i += 1;
    }
    assert(s@.take(s@.len() as int) =~= s@);
    r
}

/// The texts of a list of character vectors.
pub open spec fn texts(v: Seq<Vec<char>>) -> Seq<Text> {
    v.map_values(|x: Vec<char>| x@)
}

/// The texts of a list of strings.
pub open spec fn string_texts(v: Seq<String>) -> Seq<Text> {
    v.map_values(|x: String| x@)
}

/// Strings for a list of character sequences.
pub fn strings_of(v: &Vec<Vec<char>>) -> (r: Vec<String>)
    ensures
        string_texts(r@) == texts(v@),
{
    let mut r: Vec<String> = Vec::new();
    let mut i: usize = 0;
    while i < v.len()
        invariant
            i <= v@.len(),
            string_texts(r@) == texts(v@).take(i as int),
        decreases v@.len() - i,
    {
        let s = string_of(v[i].as_slice());
        let ghost before = string_texts(r@);
        r.push(s);
        assert(string_texts(r@) =~= before.push(v@[i as int]@));
        assert(texts(v@).take(i + 1) =~= texts(v@).take(i as int).push(v@[i as int]@));
        i += 1;
    }
    assert(texts(v@).take(v@.len() as int) =~= texts(v@));
    r
}

/// The characters `char::is_whitespace` accepts: those with the Unicode
/// `White_Space` property.
pub open spec fn is_space(c: char) -> bool {
    let u = c as u32;
    ||| 0x09 <= u <= 0x0D
    ||| u == 0x20
    ||| u == 0x85
    ||| u == 0xA0
    ||| u == 0x1680
    ||| 0x2000 <= u <= 0x200A
    ||| u == 0x2028
    ||| u == 0x2029
    ||| u == 0x202F
    ||| u == 0x205F
    ||| u == 0x3000
}

pub fn space(c: char) -> (r: bool)
    ensures
        r == is_space(c),
{
    let u = c as u32;
    (0x09 <= u && u <= 0x0D) || u == 0x20 || u == 0x85 || u == 0xA0 || u == 0x1680 || (0x2000
        <= u && u <= 0x200A) || u == 0x2028 || u == 0x2029 || u == 0x202F || u == 0x205F || u
        == 0x3000
}

/// How many whitespace characters `s` starts with.
pub open spec fn leading_spaces(s: Text) -> nat
    decreases s.len(),
{
    if s.len() > 0 && is_space(s[0]) {
        1 + leading_spaces(s.drop_first())
    } else {
        0
    }
}

/// How many whitespace characters `s` ends with.
pub open spec fn trailing_spaces(s: Text) -> nat
    decreases s.len(),
{
    if s.len() > 0 && is_space(s.last()) {
        1 + trailing_spaces(s.drop_last())
    } else {
        0
    }
}

/// `str::trim_start`.
pub open spec fn trim_start(s: Text) -> Text {
    s.subrange(leading_spaces(s) as int, s.len() as int)
}

/// `str::trim_end`.
pub open spec fn trim_end(s: Text) -> Text {
    s.subrange(0, s.len() - trailing_spaces(s))
}

/// `str::trim`.
pub open spec fn trim(s: Text) -> Text {
    trim_end(trim_start(s))
}

pub proof fn lemma_leading_spaces(s: Text)
    ensures
        leading_spaces(s) <= s.len(),
        forall|j: int| 0 <= j < leading_spaces(s) ==> is_space(#[trigger] s[j]),
        leading_spaces(s) < s.len() ==> !is_space(s[leading_spaces(s) as int]),
    decreases s.len(),
{
    if s.len() > 0 && is_space(s[0]) {
        lemma_leading_spaces(s.drop_first());
        assert forall|j: int| 0 <= j < leading_spaces(s) implies is_space(#[trigger] s[j]) by {
            if j > 0 {
                assert(s[j] == s.drop_first()[j - 1]);
            }
        }
        if leading_spaces(s) < s.len() {
            assert(s[leading_spaces(s) as int] == s.drop_first()[leading_spaces(s) - 1]);
        }
    }
}

pub proof fn lemma_trailing_spaces(s: Text)
    ensures
        trailing_spaces(s) <= s.len(),
        forall|j: int| s.len() - trailing_spaces(s) <= j < s.len() ==> is_space(#[trigger] s[j]),
        trailing_spaces(s) < s.len() ==> !is_space(s[s.len() - trailing_spaces(s) - 1]),
    decreases s.len(),
{
    if s.len() > 0 && is_space(s.last()) {
        lemma_trailing_spaces(s.drop_last());
        assert forall|j: int| s.len() - trailing_spaces(s) <= j < s.len() implies is_space(
            #[trigger] s[j],
        ) by {
            if j < s.len() - 1 {
                assert(s[j] == s.drop_last()[j]);
            }
        }
        if trailing_spaces(s) < s.len() {
            assert(s[s.len() - trailing_spaces(s) - 1] == s.drop_last()[s.len()
                - trailing_spaces(s) - 1]);
        }
    }
}

/// The number of whitespace characters at the start of `s[from..to]`.
pub fn count_leading_spaces(s: &[char], from: usize, to: usize) -> (n: usize)
    requires
        from <= to <= s@.len(),
    ensures
        n == leading_spaces(s@.subrange(from as int, to as int)),
        from + n <= to,
{
    let ghost t = s@.subrange(from as int, to as int);
    let mut i = from;
    while i < to && space(s[i])
        invariant
            from <= i <= to <= s@.len(),
            leading_spaces(t) == (i - from) + leading_spaces(s@.subrange(i as int, to as int)),
        decreases to - i,
    {
        assert(s@.subrange(i as int, to as int).drop_first() =~= s@.subrange(i + 1, to as int));
        i += 1;
    }
    i - from
}

/// The number of whitespace characters at the end of `s[from..to]`.
pub fn count_trailing_spaces(s: &[char], from: usize, to: usize) -> (n: usize)
    requires
        from <= to <= s@.len(),
    ensures
        n == trailing_spaces(s@.subrange(from as int, to as int)),
        from + n <= to,
{
    let ghost t = s@.subrange(from as int, to as int);
    let mut i = to;
    while i > from && space(s[i - 1])
        invariant
            from <= i <= to <= s@.len(),
            trailing_spaces(t) == (to - i) + trailing_spaces(s@.subrange(from as int, i as int)),
        decreases i - from,
    {
        assert(s@.subrange(from as int, i as int).drop_last() =~= s@.subrange(
            from as int,
            i - 1,
        ));
        i -= 1;
    }
    to - i
}

/// A copy of `s[from..to]`.
pub fn slice_of(s: &[char], from: usize, to: usize) -> (r: Vec<char>)
    requires
        from <= to <= s@.len(),
    ensures
        r@ == s@.subrange(from as int, to as int),
{
    let mut r: Vec<char> = Vec::new();
    let mut i = from;
    while i < to
        invariant
            from <= i <= to <= s@.len(),
            r@ == s@.subrange(from as int, i as int),
        decreases to - i,
    {
        r.push(s[i]);
        assert(r@ =~= s@.subrange(from as int, i + 1));
        i += 1;
    }
    r
}

/// The bounds of `trim(s[from..to])` inside `s`.
pub fn trim_bounds(s: &[char], from: usize, to: usize) -> (r: (usize, usize))
    requires
        from <= to <= s@.len(),
    ensures
        from <= r.0 <= r.1 <= to,
        s@.subrange(r.0 as int, r.1 as int) == trim(s@.subrange(from as int, to as int)),
        r.0 == from + leading_spaces(s@.subrange(from as int, to as int)),
{
    let a = count_leading_spaces(s, from, to);
    let b = count_trailing_spaces(s, from + a, to);
    assert(s@.subrange(from as int, to as int).subrange(a as int, (to - from) as int) =~= s@.subrange(
        from + a,
        to as int,
    ));
    let ghost u = s@.subrange(from + a, to as int);
    assert(u.subrange(0, u.len() - b) =~= s@.subrange(from + a, to - b));
    (from + a, to - b)
}

/// `trim`, on a whole sequence.
pub fn trimmed(s: &[char]) -> (r: Vec<char>)
    ensures
        r@ == trim(s@),
{
    let (a, b) = trim_bounds(s, 0, s.len());
    assert(s@.subrange(0, s@.len() as int) =~= s@);
    slice_of(s, a, b)
}

/// `trim_start`, on a whole sequence.
pub fn trimmed_start(s: &[char]) -> (r: Vec<char>)
    ensures
        r@ == trim_start(s@),
{
    let a = count_leading_spaces(s, 0, s.len());
    assert(s@.subrange(0, s@.len() as int) =~= s@);
    slice_of(s, a, s.len())
}

/// `trim_end`, on a whole sequence.
pub fn trimmed_end(s: &[char]) -> (r: Vec<char>)
    ensures
        r@ == trim_end(s@),
{
    let b = count_trailing_spaces(s, 0, s.len());
    assert(s@.subrange(0, s@.len() as int) =~= s@);
    slice_of(s, 0, s.len() - b)
}

/// Whether two character sequences hold the same text.
pub fn same(a: &[char], b: &[char]) -> (r: bool)
    ensures
        r == (a@ == b@),
{
    if a.len() != b.len() {
        return false;
    }
    let mut i: usize = 0;
    while i < a.len()
        invariant
            a@.len() == b@.len(),
            i <= a@.len(),
            forall|j: int| 0 <= j < i ==> a@[j] == b@[j],
        decreases a@.len() - i,
    {
        if a[i] != b[i] {
            return false;
        }
        i += 1;
    }
    assert(a@ =~= b@);
    true
}

/// Whether a character sequence holds the text of a string slice.
pub fn same_as(a: &[char], b: &str) -> (r: bool)
    ensures
        r == (a@ == b@),
{
    let v = chars_of(b);
    same(a, v.as_slice())
}

/// The first position at or after `from` holding `c`, or `s.len()`.
pub open spec fn find_from(s: Text, from: int, c: char) -> int
    decreases s.len() - from,
{
    if from >= s.len() {
        s.len() as int
    } else if s[from] == c {
        from
    } else {
        find_from(s, from + 1, c)
    }
}

pub proof fn lemma_find_from(s: Text, from: int, c: char)
    requires
        0 <= from <= s.len(),
    ensures
        from <= find_from(s, from, c) <= s.len(),
        forall|j: int| from <= j < find_from(s, from, c) ==> #[trigger] s[j] != c,
        find_from(s, from, c) < s.len() ==> s[find_from(s, from, c)] == c,
    decreases s.len() - from,
{
    if from < s.len() && s[from] != c {
        lemma_find_from(s, from + 1, c);
    }
}

pub fn find_char(s: &[char], from: usize, c: char) -> (r: usize)
    requires
        from <= s@.len(),
    ensures
        r == find_from(s@, from as int, c),
        from <= r <= s@.len(),
{
    let mut i = from;
    while i < s.len() && s[i] != c
        invariant
            from <= i <= s@.len(),
            find_from(s@, from as int, c) == find_from(s@, i as int, c),
        decreases s@.len() - i,
    {
        i += 1;
    }
    i
}

/// Whether `s` holds `c` anywhere.
pub open spec fn has_char(s: Text, c: char) -> bool {
    exists|j: int| 0 <= j < s.len() && s[j] == c
}

pub fn contains_char(s: &[char], c: char) -> (r: bool)
    ensures
        r == has_char(s@, c),
{
    let i = find_char(s, 0, c);
    proof {
        lemma_find_from(s@, 0, c);
    }
    i < s.len()
}

// ---------------------------------------------------------------- classes

/// What `char::is_alphabetic` answers: the Unicode `Alphabetic` property.
pub uninterp spec fn char_is_alphabetic(c: char) -> bool;

/// What `char::is_alphanumeric` answers: `Alphabetic` or `Numeric`.
pub uninterp spec fn char_is_alphanumeric(c: char) -> bool;

/// `char::is_alphabetic`; its answer is a function of the character alone.
/// Among ASCII characters the `Alphabetic` ones are the letters `a`-`z` and
/// `A`-`Z`; nothing is claimed past ASCII.
#[verifier::external_body]
pub(crate) fn alphabetic(c: char) -> (r: bool)
    ensures
        r == char_is_alphabetic(c),
        (c as u32) < 0x80 ==> (r <==> (('a' <= c && c <= 'z') || ('A' <= c && c <= 'Z'))),
{
    c.is_alphabetic()
}

/// `char::is_alphanumeric`; its answer is a function of the character
/// alone. Among ASCII characters the `Alphabetic` or `Numeric` ones are the
/// letters and the digits `0`-`9`; nothing is claimed past ASCII.
#[verifier::external_body]
pub(crate) fn alphanumeric(c: char) -> (r: bool)
    ensures
        r == char_is_alphanumeric(c),
        (c as u32) < 0x80 ==> (r <==> (('a' <= c && c <= 'z') || ('A' <= c && c <= 'Z') || ('0' <= c && c <= '9'))),
{
    c.is_alphanumeric()
}

pub open spec fn is_ascii_lower(c: char) -> bool {
    'a' <= c <= 'z'
}

pub open spec fn is_ascii_digit(c: char) -> bool {
    '0' <= c <= '9'
}

/// The number of bytes `c` takes in UTF-8 (`char::len_utf8`).
pub open spec fn utf8_width(c: char) -> nat {
    let u = c as u32;
    if u < 0x80 {
        1
    } else if u < 0x800 {
        2
    } else if u < 0x10000 {
        3
    } else {
        4
    }
}

/// The number of bytes `s` takes in UTF-8.
pub open spec fn utf8_len(s: Text) -> nat {
    vstd::utf8::encode_utf8(s).len()
}

pub proof fn lemma_utf8_width(c: char)
    ensures
        vstd::utf8::encode_scalar(c as u32).len() == utf8_width(c),
        1 <= utf8_width(c) <= 4,
{
    vstd::utf8::char_is_scalar(c);
}

pub proof fn lemma_utf8_len_push(s: Text, c: char)
    ensures
        utf8_len(s.push(c)) == utf8_len(s) + utf8_width(c),
    decreases s.len(),
{
    lemma_utf8_width(c);
    if s.len() == 0 {
        assert(s.push(c).drop_first() =~= Seq::<char>::empty());
        assert(vstd::utf8::encode_utf8(Seq::<char>::empty()) =~= Seq::<u8>::empty());
    } else {
        assert(s.push(c).drop_first() =~= s.drop_first().push(c));
        lemma_utf8_len_push(s.drop_first(), c);
    }
}

pub proof fn lemma_utf8_len_take(s: Text, i: int)
    requires
        0 <= i < s.len(),
    ensures
        utf8_len(s.take(i + 1)) == utf8_len(s.take(i)) + utf8_width(s[i]),
{
    assert(s.take(i + 1) =~= s.take(i).push(s[i]));
    lemma_utf8_len_push(s.take(i), s[i]);
}

pub proof fn lemma_utf8_len_grows(s: Text, a: int, b: int)
    requires
        0 <= a <= b <= s.len(),
    ensures
        utf8_len(s.take(a)) + (b - a) <= utf8_len(s.take(b)),
    decreases b - a,
{
    if a < b {
        lemma_utf8_len_grows(s, a, b - 1);
        lemma_utf8_len_take(s, b - 1);
    }
}

pub proof fn lemma_utf8_len_prefix_grows(s: Text, a: int, b: int)
    requires
        0 <= a <= b <= s.len(),
    ensures
        utf8_len(s.take(a)) + (b - a) <= utf8_len(s.take(b)),
        utf8_len(s.take(b)) <= utf8_len(s),
{
    lemma_utf8_len_grows(s, a, b);
    lemma_utf8_len_grows(s, b, s.len() as int);
    assert(s.take(s.len() as int) =~= s);
}

pub fn width_utf8(c: char) -> (r: usize)
    ensures
        r == utf8_width(c),
{
    let u = c as u32;
    if u < 0x80 {
        1
    } else if u < 0x800 {
        2
    } else if u < 0x10000 {
        3
    } else {
        4
    }
}

// ------------------------------------------------------------------ lines

/// `str::lines`, read from position `from` on: pieces split at `\n`, with a
/// `\r` directly before a `\n` dropped, and no empty piece after a final `\n`.
pub open spec fn lines_from(s: Text, from: int) -> Seq<Text>
    decreases s.len() - from,
{
    if from < 0 || from >= s.len() {
        seq![]
    } else {
        let e = find_from(s, from, '\n');
        let piece = s.subrange(from, e);
        let line = if e < s.len() && piece.len() > 0 && piece.last() == '\r' {
            piece.drop_last()
        } else {
            piece
        };
        proof {
            lemma_find_from(s, from, '\n');
        }
        if e >= s.len() {
            seq![line]
        } else {
            seq![line] + lines_from(s, e + 1)
        }
    }
}

pub open spec fn lines(s: Text) -> Seq<Text> {
    lines_from(s, 0)
}

/// The lines of `s`.
pub fn split_lines(s: &[char]) -> (r: Vec<Vec<char>>)
    ensures
        texts(r@) == lines(s@),
{
    let mut r: Vec<Vec<char>> = Vec::new();
    let mut i: usize = 0;
    while i < s.len()
        invariant
            i <= s@.len(),
            lines(s@) == texts(r@) + lines_from(s@, i as int),
        decreases s@.len() - i,
    {
        let e = find_char(s, i, '\n');
        proof {
            lemma_find_from(s@, i as int, '\n');
        }
        let mut piece = slice_of(s, i, e);
        if e < s.len() && piece.len() > 0 && piece[piece.len() - 1] == '\r' {
            piece.pop();
        }
        let ghost before = texts(r@);
        r.push(piece);
        assert(texts(r@) =~= before.push(piece@));
        if e >= s.len() {
            assert(lines_from(s@, i as int) =~= seq![piece@]);
            assert(lines(s@) =~= texts(r@));
            return r;
        }
        assert(lines_from(s@, i as int) =~= seq![piece@] + lines_from(s@, e + 1));
        assert(lines(s@) =~= texts(r@) + lines_from(s@, e + 1));
        i = e + 1;
    }
    assert(lines_from(s@, i as int) =~= Seq::<Text>::empty());
    assert(lines(s@) =~= texts(r@));
    r
}

// ------------------------------------------------------------------ words

/// The end of the run of non-whitespace characters starting at `from`.
pub open spec fn word_end(s: Text, from: int) -> int
    decreases s.len() - from,
{
    if from < 0 || from >= s.len() || is_space(s[from]) {
        from
    } else {
        word_end(s, from + 1)
    }
}

pub proof fn lemma_word_end(s: Text, from: int)
    requires
        0 <= from <= s.len(),
    ensures
        from <= word_end(s, from) <= s.len(),
        forall|j: int| from <= j < word_end(s, from) ==> !is_space(#[trigger] s[j]),
        word_end(s, from) < s.len() ==> is_space(s[word_end(s, from)]),
    decreases s.len() - from,
{
    if from < s.len() && !is_space(s[from]) {
        lemma_word_end(s, from + 1);
    }
}

/// `str::split_whitespace`, read from position `from` on.
pub open spec fn words_from(s: Text, from: int) -> Seq<Text>
    decreases s.len() - from,
{
    if from < 0 || from >= s.len() {
        seq![]
    } else if is_space(s[from]) {
        words_from(s, from + 1)
    } else {
        let e = word_end(s, from);
        proof {
            lemma_word_end(s, from + 1);
        }
        seq![s.subrange(from, e)] + words_from(s, e)
    }
}

pub open spec fn words(s: Text) -> Seq<Text> {
    words_from(s, 0)
}

/// The words of `s`, as `split_whitespace` gives them.
pub fn split_words(s: &[char]) -> (r: Vec<Vec<char>>)
    ensures
        texts(r@) == words(s@),
        forall|k: int| 0 <= k < r@.len() ==> r@[k]@.len() > 0,
{
    let mut r: Vec<Vec<char>> = Vec::new();
    let mut i: usize = 0;
    while i < s.len()
        invariant
            i <= s@.len(),
            words(s@) == texts(r@) + words_from(s@, i as int),
            forall|k: int| 0 <= k < r@.len() ==> r@[k]@.len() > 0,
        decreases s@.len() - i,
    {
        if space(s[i]) {
            i += 1;
        } else {
            let mut e = i + 1;
            proof {
                lemma_word_end(s@, i + 1);
            }
            while e < s.len() && !space(s[e])
                invariant
                    i < e <= s@.len(),
                    word_end(s@, i as int) == word_end(s@, e as int),
                decreases s@.len() - e,
            {
                e += 1;
            }
            let w = slice_of(s, i, e);
            let ghost before = texts(r@);
            r.push(w);
            assert(texts(r@) =~= before.push(w@));
            assert(words_from(s@, i as int) =~= seq![w@] + words_from(s@, e as int));
            assert(words(s@) =~= texts(r@) + words_from(s@, e as int));
            i = e;
        }
    }
    assert(words(s@) =~= texts(r@));
    r
}

// -------------------------------------------------------------- separators

/// `str::split` at a character, read from position `from` on. There is
/// always at least one piece.
pub open spec fn split_from(s: Text, from: int, c: char) -> Seq<Text>
    decreases s.len() - from,
{
    if from < 0 || from > s.len() {
        seq![]
    } else {
        let e = find_from(s, from, c);
        proof {
            lemma_find_from(s, from, c);
        }
        if e >= s.len() {
            seq![s.subrange(from, s.len() as int)]
        } else {
            seq![s.subrange(from, e)] + split_from(s, e + 1, c)
        }
    }
}

pub open spec fn split_at_char(s: Text, c: char) -> Seq<Text> {
    split_from(s, 0, c)
}

pub fn split_char(s: &[char], c: char) -> (r: Vec<Vec<char>>)
    ensures
        texts(r@) == split_at_char(s@, c),
{
    let mut r: Vec<Vec<char>> = Vec::new();
    let mut i: usize = 0;
    loop
        invariant
            i <= s@.len(),
            split_at_char(s@, c) == texts(r@) + split_from(s@, i as int, c),
        decreases s@.len() - i,
    {
        let e = find_char(s, i, c);
        proof {
            lemma_find_from(s@, i as int, c);
        }
        let piece = slice_of(s, i, e);
        let ghost before = texts(r@);
        r.push(piece);
        assert(texts(r@) =~= before.push(piece@));
        if e >= s.len() {
            assert(split_from(s@, i as int, c) =~= seq![piece@]);
            assert(split_at_char(s@, c) =~= texts(r@));
            return r;
        }
        assert(split_from(s@, i as int, c) =~= seq![piece@] + split_from(s@, e + 1, c));
        assert(split_at_char(s@, c) =~= texts(r@) + split_from(s@, e + 1, c));
        i = e + 1;
    }
}

/// Words joined by single spaces (`join(" ")`).
pub open spec fn join_spaced(ws: Seq<Text>) -> Text
    decreases ws.len(),
{
    if ws.len() == 0 {
        seq![]
    } else if ws.len() == 1 {
        ws[0]
    } else {
        join_spaced(ws.drop_last()) + seq![' '] + ws.last()
    }
}

pub fn join_with_spaces(ws: &Vec<Vec<char>>, from: usize) -> (r: Vec<char>)
    requires
        from <= ws@.len(),
    ensures
        r@ == join_spaced(texts(ws@).subrange(from as int, ws@.len() as int)),
{
    let mut r: Vec<char> = Vec::new();
    let mut i = from;
    while i < ws.len()
        invariant
            from <= i <= ws@.len(),
            r@ == join_spaced(texts(ws@).subrange(from as int, i as int)),
        decreases ws@.len() - i,
    {
        let ghost prev = texts(ws@).subrange(from as int, i as int);
        let ghost next = texts(ws@).subrange(from as int, i + 1);
        assert(next.drop_last() =~= prev);
        if i > from {
            r.push(' ');
        }
        let mut j: usize = 0;
        let ghost base = r@;
        while j < ws[i].len()
            invariant
                i < ws@.len(),
                j <= ws@[i as int]@.len(),
                r@ == base + ws@[i as int]@.take(j as int),
            decreases ws@[i as int]@.len() - j,
        {
            r.push(ws[i][j]);
            assert(ws@[i as int]@.take(j + 1) =~= ws@[i as int]@.take(j as int).push(
                ws@[i as int]@[j as int],
            ));
            assert(r@ =~= base + ws@[i as int]@.take(j + 1));
            j += 1;
        }
        assert(ws@[i as int]@.take(j as int) =~= ws@[i as int]@);
        assert(next.last() == ws@[i as int]@);
        if i > from {
            assert(r@ =~= join_spaced(prev) + seq![' '] + next.last());
        } else {
            assert(r@ =~= next.last());
        }
        i += 1;
    }
    r
}

} // verus!

verus! {

// ---------------------------------------------------------------- ordering

/// The order `String`'s `Ord` gives: lexicographic, by code point.
pub open spec fn lt_from(a: Text, b: Text, i: int) -> bool
    decreases a.len() - i,
{
    if i < 0 {
        false
    } else if i >= a.len() {
        i < b.len()
    } else if i >= b.len() {
        false
    } else if a[i] != b[i] {
        a[i] < b[i]
    } else {
        lt_from(a, b, i + 1)
    }
}

pub open spec fn text_lt(a: Text, b: Text) -> bool {
    lt_from(a, b, 0)
}

/// Strictly increasing, hence without repeats.
pub open spec fn strictly_sorted(s: Seq<Text>) -> bool {
    forall|i: int, j: int| 0 <= i < j < s.len() ==> text_lt(#[trigger] s[i], #[trigger] s[j])
}

pub proof fn lemma_lt_from_irreflexive(a: Text, i: int)
    requires
        0 <= i,
    ensures
        !lt_from(a, a, i),
    decreases a.len() - i,
{
    if i < a.len() {
        lemma_lt_from_irreflexive(a, i + 1);
    }
}

pub proof fn lemma_lt_from_transitive(a: Text, b: Text, c: Text, i: int)
    requires
        0 <= i,
        lt_from(a, b, i),
        lt_from(b, c, i),
    ensures
        lt_from(a, c, i),
    decreases a.len() - i,
{
    if i < a.len() && i < b.len() && i < c.len() && a[i] == b[i] && b[i] == c[i] {
        lemma_lt_from_transitive(a, b, c, i + 1);
    }
}

pub proof fn lemma_lt_from_total(a: Text, b: Text, i: int)
    requires
        0 <= i <= a.len(),
        0 <= i <= b.len(),
        a.subrange(i, a.len() as int) != b.subrange(i, b.len() as int),
    ensures
        lt_from(a, b, i) || lt_from(b, a, i),
    decreases a.len() - i,
{
    if i < a.len() && i < b.len() && a[i] == b[i] {
        if a.subrange(i + 1, a.len() as int) == b.subrange(i + 1, b.len() as int) {
            let ta = a.subrange(i + 1, a.len() as int);
            let tb = b.subrange(i + 1, b.len() as int);
            assert(ta.len() == tb.len());
            assert(a.len() == b.len());
            assert forall|k: int| 0 <= k < a.len() - i implies a.subrange(i, a.len() as int)[k]
                == b.subrange(i, b.len() as int)[k] by {
                if k > 0 {
                    assert(ta[k - 1] == tb[k - 1]);
                    assert(ta[k - 1] == a[i + k]);
                    assert(tb[k - 1] == b[i + k]);
                }
            }
            assert(a.subrange(i, a.len() as int) =~= b.subrange(i, b.len() as int));
        }
        lemma_lt_from_total(a, b, i + 1);
    } else if i >= a.len() && i >= b.len() {
        assert(a.subrange(i, a.len() as int) =~= b.subrange(i, b.len() as int));
    }
}

pub proof fn lemma_text_lt_facts()
    ensures
        forall|a: Text| !text_lt(a, a),
        forall|a: Text, b: Text, c: Text| #[trigger] text_lt(a, b) && #[trigger] text_lt(b, c) ==> text_lt(a, c),
        forall|a: Text, b: Text| a != b ==> #[trigger] text_lt(a, b) || #[trigger] text_lt(b, a),
{
    assert forall|a: Text| !text_lt(a, a) by {
        lemma_lt_from_irreflexive(a, 0);
    }
    assert forall|a: Text, b: Text, c: Text| #[trigger] text_lt(a, b) && #[trigger] text_lt(b, c) implies text_lt(a, c) by {
        lemma_lt_from_transitive(a, b, c, 0);
    }
    assert forall|a: Text, b: Text| a != b implies #[trigger] text_lt(a, b) || #[trigger] text_lt(b, a) by {
        assert(a.subrange(0, a.len() as int) =~= a);
        assert(b.subrange(0, b.len() as int) =~= b);
        lemma_lt_from_total(a, b, 0);
    }
}

/// Whether `a` sorts before `b`.
pub fn text_less(a: &[char], b: &[char]) -> (r: bool)
    ensures
        r == text_lt(a@, b@),
{
    let mut i: usize = 0;
    loop
        invariant
            i <= a@.len(),
            i <= b@.len(),
            text_lt(a@, b@) == lt_from(a@, b@, i as int),
        decreases a@.len() - i,
    {
        if i >= a.len() {
            return i < b.len();
        }
        if i >= b.len() {
            return false;
        }
        if a[i] != b[i] {
            return a[i] < b[i];
        }
        i += 1;
    }
}

/// `sort` followed by `dedup`: the distinct texts of `v`, in order.
pub fn sorted_distinct(v: &Vec<Vec<char>>) -> (r: Vec<Vec<char>>)
    ensures
        strictly_sorted(texts(r@)),
        forall|t: Text| texts(r@).contains(t) <==> texts(v@).contains(t),
{
    proof {
        lemma_text_lt_facts();
    }
    let mut r: Vec<Vec<char>> = Vec::new();
    let mut i: usize = 0;
    while i < v.len()
        invariant
            i <= v@.len(),
            strictly_sorted(texts(r@)),
            forall|t: Text| texts(r@).contains(t) <==> texts(v@).take(i as int).contains(t),
            forall|a: Text| !text_lt(a, a),
            forall|a: Text, b: Text, c: Text| #[trigger] text_lt(a, b) && #[trigger] text_lt(b, c) ==> text_lt(a, c),
            forall|a: Text, b: Text| a != b ==> #[trigger] text_lt(a, b) || #[trigger] text_lt(b, a),
        decreases v@.len() - i,
    {
        let x = &v[i];
        let ghost old_r = texts(r@);
        let mut p: usize = 0;
        while p < r.len() && text_less(r[p].as_slice(), x.as_slice())
            invariant
                p <= r@.len(),
                texts(r@) == old_r,
                forall|j: int| 0 <= j < p ==> text_lt(#[trigger] texts(r@)[j], x@),
            decreases r@.len() - p,
        {
            p += 1;
        }
        let ghost next = texts(v@).take(i + 1);
        let ghost prev = texts(v@).take(i as int);
        assert(next =~= prev.push(x@));
        if p < r.len() && same(r[p].as_slice(), x.as_slice()) {
            assert(texts(r@)[p as int] == x@);
            assert forall|t: Text| texts(r@).contains(t) <==> next.contains(t) by {
                if t == x@ {
                    assert(texts(r@)[p as int] == t);
                    assert(next[i as int] == t);
                }
                if next.contains(t) && t != x@ {
                    let k = choose|k: int| 0 <= k < next.len() && next[k] == t;
                    assert(prev[k] == t);
                }
                if prev.contains(t) {
                    let k = choose|k: int| 0 <= k < prev.len() && prev[k] == t;
                    assert(next[k] == t);
                }
            }
        } else {
            let ghost xs = x@;
            r.insert(p, x.clone());
            assert(texts(r@) =~= old_r.insert(p as int, xs));
            assert forall|a: int, b: int| 0 <= a < b < texts(r@).len() implies text_lt(#[trigger] texts(r@)[a], #[trigger] texts(r@)[b]) by {
                if b < p {
                    assert(texts(r@)[a] == old_r[a] && texts(r@)[b] == old_r[b]);
                } else if a > p {
                    assert(texts(r@)[a] == old_r[a - 1] && texts(r@)[b] == old_r[b - 1]);
                } else if a == p {
                    assert(texts(r@)[b] == old_r[b - 1]);
                    assert(!text_lt(old_r[p as int], xs));
                    assert(old_r[p as int] != xs);
                    assert(text_lt(xs, old_r[p as int]));
                    if b - 1 > p {
                        assert(text_lt(old_r[p as int], old_r[b - 1]));
                    }
                } else if b == p {
                    assert(texts(r@)[a] == old_r[a]);
                } else {
                    assert(texts(r@)[a] == old_r[a] && texts(r@)[b] == old_r[b - 1]);
                    assert(text_lt(old_r[a], xs));
                }
            }
            assert forall|t: Text| texts(r@).contains(t) <==> next.contains(t) by {
                if t == xs {
                    assert(texts(r@)[p as int] == t);
                    assert(next[i as int] == t);
                }
                if next.contains(t) && t != xs {
                    let k = choose|k: int| 0 <= k < next.len() && next[k] == t;
                    assert(prev[k] == t);
                }
                if prev.contains(t) {
                    let k = choose|k: int| 0 <= k < prev.len() && prev[k] == t;
                    assert(next[k] == t);
                }
                if texts(r@).contains(t) && t != xs {
                    let k = choose|k: int| 0 <= k < texts(r@).len() && texts(r@)[k] == t;
                    if k < p {
                        assert(old_r[k] == t);
                    } else {
                        assert(old_r[k - 1] == t);
                    }
                    assert(old_r.contains(t));
                }
                if old_r.contains(t) {
                    let k = choose|k: int| 0 <= k < old_r.len() && old_r[k] == t;
                    if k < p {
                        assert(texts(r@)[k] == t);
                    } else {
                        assert(texts(r@)[k + 1] == t);
                    }
                }
            }
        }
        i += 1;
    }
    assert(texts(v@).take(v@.len() as int) =~= texts(v@));
    r
}

} // verus!
