//! How the editor's colouring is put together once the grammar has classed
//! each token: runs of one class are joined, the gaps between runs are laid
//! out plain, and a run is underlined where a marked range reaches into it.

use vstd::prelude::*;

use std::ops::Range;

verus! {

/// What a token is, in the same terms the language server uses for its
/// semantic tokens.
#[derive(Debug, Clone, Copy, PartialEq, Eq, Structural)]
pub enum Class {
    Keyword,
    Type,
    Declaration,
    Property,
    Name,
    Text,
    Number,
    Operator,
    Comment,
    Path,
    Custom,
    Literal,
    Sigil,
    /// Anything the grammar does not colour.
    Plain,
}

/// One coloured run of the file, as a byte range.
#[derive(Debug)]
pub struct Span {
    pub range: Range<usize>,
    pub class: Class,
}

pub struct RunModel {
    pub start: int,
    pub end: int,
    pub class: Class,
}

pub open spec fn run(start: int, end: int, class: Class) -> RunModel {
    RunModel { start, end, class }
}

pub open spec fn span_views(s: Seq<Span>) -> Seq<RunModel> {
    s.map_values(|x: Span| run(x.range.start as int, x.range.end as int, x.class))
}

/// The runs after a token at `start..end` of class `class` is added: a plain
/// token adds nothing, a token that carries on the last run of its class
/// lengthens it, any other starts a run of its own.
pub open spec fn with_token(runs: Seq<RunModel>, start: int, end: int, class: Class) -> Seq<RunModel> {
    if class == Class::Plain {
        runs
    } else if runs.len() > 0 && runs.last().class == class && runs.last().end == start {
        runs.update(runs.len() - 1, run(runs.last().start, end, class))
    } else {
        runs.push(run(start, end, class))
    }
}

/// Adds a classed token to the runs drawn so far.
pub fn push_token(spans: &mut Vec<Span>, range: Range<usize>, class: Class)
    ensures
        span_views(final(spans)@) == with_token(
            span_views(old(spans)@),
            range.start as int,
            range.end as int,
            class,
        ),
{
    let ghost before = span_views(spans@);
    if class == Class::Plain {
        return;
    }
    let n = spans.len();
    if n > 0 && spans[n - 1].class == class && spans[n - 1].range.end == range.start {
        let start = spans[n - 1].range.start;
        spans.set(n - 1, Span { range: start..range.end, class });
        assert(span_views(spans@) =~= before.update(n - 1, run(start as int, range.end as int, class)));
        return;
    }
    let ghost r = run(range.start as int, range.end as int, class);
    spans.push(Span { range, class });
    assert(span_views(spans@) =~= before.push(r));
}

/// The sections text of length `len` is laid out in: each run, with the
/// gaps before it, and the rest of the text, laid out plain.
pub open spec fn sections_from(runs: Seq<RunModel>, n: nat, len: int) -> (Seq<RunModel>, int)
    decreases n,
{
    if n == 0 || n > runs.len() {
        (seq![], 0)
    } else {
        let (prev, cursor) = sections_from(runs, (n - 1) as nat, len);
        let r = runs[n - 1];
        let gap = if r.start > cursor {
            prev.push(run(cursor, r.start, Class::Plain))
        } else {
            prev
        };
        (gap.push(r), r.end)
    }
}

pub open spec fn sections_spec(runs: Seq<RunModel>, len: int) -> Seq<RunModel> {
    let (secs, cursor) = sections_from(runs, runs.len(), len);
    if cursor < len {
        secs.push(run(cursor, len, Class::Plain))
    } else {
        secs
    }
}

/// Lays the runs out over text of length `len`.
pub fn sections(spans: &Vec<Span>, len: usize) -> (r: Vec<Span>)
    ensures
        span_views(r@) == sections_spec(span_views(spans@), len as int),
{
    let ghost runs = span_views(spans@);
    let mut out: Vec<Span> = Vec::new();
    let mut cursor: usize = 0;
    let mut k: usize = 0;
    while k < spans.len()
        invariant
            k <= spans@.len(),
            runs == span_views(spans@),
            (span_views(out@), cursor as int) == sections_from(runs, k as nat, len as int),
        decreases spans@.len() - k,
    {
        let ghost before = span_views(out@);
        let s = &spans[k];
        assert(runs[k as int] == run(s.range.start as int, s.range.end as int, s.class));
        if s.range.start > cursor {
            out.push(Span { range: cursor..s.range.start, class: Class::Plain });
            assert(span_views(out@) =~= before.push(run(cursor as int, s.range.start as int, Class::Plain)));
        }
        let ghost mid = span_views(out@);
        out.push(Span { range: s.range.start..s.range.end, class: s.class });
        assert(span_views(out@) =~= mid.push(runs[k as int]));
        cursor = s.range.end;
        k += 1;
    }
    if cursor < len {
        let ghost before = span_views(out@);
        out.push(Span { range: cursor..len, class: Class::Plain });
        assert(span_views(out@) =~= before.push(run(cursor as int, len as int, Class::Plain)));
    }
    out
}

/// Range `m` reaches into `r`.
pub open spec fn overlaps(m: Range<usize>, r: Range<usize>) -> bool {
    m.start < r.end && r.start < m.end
}

/// The first of the marked ranges that reaches into `range`.
pub fn first_overlap(marks: &Vec<Range<usize>>, range: &Range<usize>) -> (r: Option<usize>)
    ensures
        match r {
            Some(k) => k < marks@.len() && overlaps(marks@[k as int], *range) && forall|j: int|
                0 <= j < k ==> !overlaps(#[trigger] marks@[j], *range),
            None => forall|j: int| 0 <= j < marks@.len() ==> !overlaps(#[trigger] marks@[j], *range),
        },
{
    let mut k: usize = 0;
    while k < marks.len()
        invariant
            k <= marks@.len(),
            forall|j: int| 0 <= j < k ==> !overlaps(#[trigger] marks@[j], *range),
        decreases marks@.len() - k,
    {
        if marks[k].start < range.end && range.start < marks[k].end {
            return Some(k);
        }
        k += 1;
    }
    None
}

} // verus!
