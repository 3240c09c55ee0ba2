//! Paths as the loader handles them: absolute paths as sequences of
//! components, with `.` and `..` resolved without touching the filesystem.

use vstd::prelude::*;

use crate::text::{find_from, lemma_find_from, push_char, same_as, split_at_char, split_char, split_from, texts, Text};

verus! {

/// A normalised absolute path: its components below the root.
pub type Components = Seq<Text>;

/// One component of a path, read into a normalised path: `.` and empty
/// components change nothing, `..` goes up (never above the root).
pub open spec fn norm_step(comps: Components, part: Text) -> Components {
    if part.len() == 0 || part == "."@ {
        comps
    } else if part == ".."@ {
        if comps.len() > 0 {
            comps.drop_last()
        } else {
            comps
        }
    } else {
        comps.push(part)
    }
}

pub open spec fn norm_fold(start: Components, parts: Seq<Text>, n: nat) -> Components
    decreases n,
{
    if n == 0 || n > parts.len() {
        start
    } else {
        norm_step(norm_fold(start, parts, (n - 1) as nat), parts[n - 1])
    }
}

/// `normalize(base.join(rest))`: an absolute `rest` starts again from the
/// root; otherwise its components are read on from `base`.
pub open spec fn join_normalized(base: Components, rest: Text) -> Components {
    let start = if rest.len() > 0 && rest[0] == '/' {
        seq![]
    } else {
        base
    };
    let parts = split_at_char(rest, '/');
    norm_fold(start, parts, parts.len())
}

/// The text of an absolute path.
pub open spec fn path_text(comps: Components) -> Text
    decreases comps.len(),
{
    if comps.len() == 0 {
        seq!['/']
    } else if comps.len() == 1 {
        seq!['/'] + comps[0]
    } else {
        path_text(comps.drop_last()) + seq!['/'] + comps.last()
    }
}

/// A path below another, `/` separated, each `\\` turned into `/`.
pub open spec fn joined_rel(comps: Components) -> Text
    decreases comps.len(),
{
    if comps.len() == 0 {
        seq![]
    } else if comps.len() == 1 {
        unbackslash(comps[0])
    } else {
        joined_rel(comps.drop_last()) + seq!['/'] + unbackslash(comps.last())
    }
}

pub open spec fn unbackslash(t: Text) -> Text {
    t.map_values(|c: char| if c == '\\' { '/' } else { c })
}

/// The position of the last `.` in a name, or -1.
pub open spec fn last_dot(t: Text) -> int
    decreases t.len(),
{
    if t.len() == 0 {
        -1
    } else if t.last() == '.' {
        t.len() - 1
    } else {
        last_dot(t.drop_last())
    }
}

/// `Path::with_extension("pi")`: the last component's extension (what follows
/// its last `.`, when that `.` is not its first character) replaced by `pi`,
/// or `.pi` added; the root stays as it is.
pub open spec fn with_pi_extension(comps: Components) -> Components {
    if comps.len() == 0 {
        comps
    } else {
        let name = comps.last();
        let d = last_dot(name);
        let stem = if d > 0 {
            name.take(d)
        } else {
            name
        };
        comps.drop_last().push(stem + ".pi"@)
    }
}

/// Whether a directory entry name is that of a `.pi` file: it has the
/// extension `pi`.
pub open spec fn is_pi_name(name: Text) -> bool {
    last_dot(name) > 0 && name.skip(last_dot(name) + 1) == "pi"@
}

/// A well formed component: not empty, not `.` or `..`, without `/`.
pub open spec fn good_component(t: Text) -> bool {
    &&& t.len() > 0
    &&& t != "."@
    &&& t != ".."@
    &&& forall|i: int| 0 <= i < t.len() ==> #[trigger] t[i] != '/'
}

/// A canonical absolute path, as `canonicalize` gives it.
pub open spec fn canonical(p: Text) -> bool {
    &&& p.len() >= 1
    &&& p[0] == '/'
    &&& p.len() == 1 || forall|k: int|
        0 <= k < split_at_char(p.skip(1), '/').len() ==> good_component(
            #[trigger] split_at_char(p.skip(1), '/')[k],
        )
}

/// The components of a canonical absolute path.
pub open spec fn canonical_components(p: Text) -> Components {
    if p.len() <= 1 {
        seq![]
    } else {
        split_at_char(p.skip(1), '/')
    }
}

// ------------------------------------------------------------------ lemmas

pub proof fn lemma_last_dot(t: Text)
    ensures
        -1 <= last_dot(t) < t.len(),
        last_dot(t) >= 0 ==> t[last_dot(t)] == '.',
        forall|j: int| last_dot(t) < j < t.len() ==> #[trigger] t[j] != '.',
    decreases t.len(),
{
    if t.len() > 0 && t.last() != '.' {
        lemma_last_dot(t.drop_last());
        assert forall|j: int| last_dot(t) < j < t.len() implies #[trigger] t[j] != '.' by {
            if j < t.len() - 1 {
                assert(t[j] == t.drop_last()[j]);
            }
        }
    }
}

// -------------------------------------------------------------------- exec

pub fn find_last_dot(t: &[char]) -> (r: Option<usize>)
    ensures
        match r {
            Some(d) => last_dot(t@) == d,
            None => last_dot(t@) == -1,
        },
{
    let mut i = t.len();
    assert(t@.take(i as int) =~= t@);
    while i > 0 && t[i - 1] != '.'
        invariant
            i <= t@.len(),
            last_dot(t@) == last_dot(t@.take(i as int)),
        decreases i,
    {
        assert(t@.take(i as int).drop_last() =~= t@.take(i - 1));
        i -= 1;
    }
    if i == 0 {
        assert(t@.take(0) =~= Seq::<char>::empty());
        None
    } else {
        Some(i - 1)
    }
}

/// `norm_step`, in place.
pub fn apply_component(comps: &mut Vec<Vec<char>>, part: Vec<char>)
    ensures
        texts(final(comps)@) == norm_step(texts(old(comps)@), part@),
{
    let ghost before = texts(comps@);
    if part.len() == 0 || same_as(part.as_slice(), ".") {
        return;
    }
    if same_as(part.as_slice(), "..") {
        if comps.len() > 0 {
            comps.pop();
            assert(texts(comps@) =~= before.drop_last());
        }
        return;
    }
    let ghost pv = part@;
    comps.push(part);
    assert(texts(comps@) =~= before.push(pv));
}

/// `join_normalized`.
pub fn join_norm(base: &Vec<Vec<char>>, rest: &[char]) -> (r: Vec<Vec<char>>)
    ensures
        texts(r@) == join_normalized(texts(base@), rest@),
{
    let mut comps: Vec<Vec<char>> = if rest.len() > 0 && rest[0] == '/' {
        Vec::new()
    } else {
        base.clone()
    };
    proof {
        if !(rest@.len() > 0 && rest@[0] == '/') {
            assert(texts(comps@) =~= texts(base@));
        } else {
            assert(texts(comps@) =~= Seq::<Text>::empty());
        }
    }
    let ghost start = texts(comps@);
    let parts = split_char(rest, '/');
    let ghost pv = texts(parts@);
    let mut k: usize = 0;
    while k < parts.len()
        invariant
            k <= parts@.len(),
            pv == texts(parts@),
            texts(comps@) == norm_fold(start, pv, k as nat),
        decreases parts@.len() - k,
    {
        assert(pv[k as int] == parts@[k as int]@);
        apply_component(&mut comps, parts[k].clone());
        k += 1;
    }
    comps
}

/// `with_pi_extension`.
pub fn with_extension_pi(comps: &Vec<Vec<char>>) -> (r: Vec<Vec<char>>)
    ensures
        texts(r@) == with_pi_extension(texts(comps@)),
{
    if comps.len() == 0 {
        return comps.clone();
    }
    let mut out = comps.clone();
    let last = out.pop().unwrap();
    assert(last@ == texts(comps@).last());
    let d = find_last_dot(last.as_slice());
    proof {
        lemma_last_dot(last@);
    }
    let mut stem = match d {
        Some(k) if k > 0 => crate::text::slice_of(last.as_slice(), 0, k),
        _ => last.clone(),
    };
    let ghost s0 = stem@;
    stem.push('.');
    stem.push('p');
    stem.push('i');
    proof {
        reveal_strlit(".pi");
    }
    assert(stem@ =~= s0 + ".pi"@);
    let ghost before = texts(out@);
    let ghost sv = stem@;
    out.push(stem);
    assert(before =~= texts(comps@).drop_last());
    assert(texts(out@) =~= before.push(sv));
    out
}

/// Whether a name is that of a `.pi` file.
pub fn pi_name(name: &[char]) -> (r: bool)
    ensures
        r == is_pi_name(name@),
{
    let d = match find_last_dot(name) {
        Some(k) if k > 0 => k,
        _ => {
            return false;
        },
    };
    proof {
        lemma_last_dot(name@);
    }
    let n = name.len();
    assert(d < n);
    let ext = crate::text::slice_of(name, d + 1, n);
    assert(ext@ =~= name@.skip(last_dot(name@) + 1));
    same_as(ext.as_slice(), "pi")
}

/// The text of an absolute path given by its components.
pub fn path_string(comps: &Vec<Vec<char>>) -> (r: Vec<char>)
    ensures
        r@ == path_text(texts(comps@)),
{
    let mut out: Vec<char> = Vec::new();
    if comps.len() == 0 {
        out.push('/');
        assert(out@ =~= seq!['/']);
        return out;
    }
    let mut k: usize = 0;
    while k < comps.len()
        invariant
            k <= comps@.len(),
            comps@.len() > 0,
            k == 0 ==> out@.len() == 0,
            k > 0 ==> out@ == path_text(texts(comps@).take(k as int)),
        decreases comps@.len() - k,
    {
        let ghost before = out@;
        out.push('/');
        let c = &comps[k];
        let mut j: usize = 0;
        let ghost mid = out@;
        while j < c.len()
            invariant
                j <= c@.len(),
                out@ == mid + c@.take(j as int),
            decreases c@.len() - j,
        {
            out.push(c[j]);
            assert(c@.take(j + 1) =~= c@.take(j as int).push(c@[j as int]));
            j += 1;
        }
        assert(c@.take(c@.len() as int) =~= c@);
        let ghost t = texts(comps@).take(k + 1);
        assert(t.drop_last() =~= texts(comps@).take(k as int));
        assert(t.last() == c@);
        if k == 0 {
            assert(out@ =~= seq!['/'] + t[0]);
        } else {
            assert(out@ =~= before + seq!['/'] + t.last());
        }
        k += 1;
    }
    assert(texts(comps@).take(comps@.len() as int) =~= texts(comps@));
    out
}

/// The text of a path below the root, given by its components below it.
pub fn rel_string(comps: &Vec<Vec<char>>, from: usize) -> (r: Vec<char>)
    requires
        from <= comps@.len(),
    ensures
        r@ == joined_rel(texts(comps@).skip(from as int)),
{
    let mut out: Vec<char> = Vec::new();
    let mut k = from;
    assert(texts(comps@).skip(from as int).take(0) =~= Seq::<Text>::empty());
    while k < comps.len()
        invariant
            from <= k <= comps@.len(),
            out@ == joined_rel(texts(comps@).skip(from as int).take(k - from)),
        decreases comps@.len() - k,
    {
        let ghost before = out@;
        if k > from {
            out.push('/');
        }
        let c = &comps[k];
        let mut j: usize = 0;
        let ghost mid = out@;
        while j < c.len()
            invariant
                j <= c@.len(),
                out@ == mid + unbackslash(c@.take(j as int)),
            decreases c@.len() - j,
        {
            let ch = if c[j] == '\\' {
                '/'
            } else {
                c[j]
            };
            out.push(ch);
            assert(unbackslash(c@.take(j + 1)) =~= unbackslash(c@.take(j as int)).push(ch));
            j += 1;
        }
        assert(c@.take(c@.len() as int) =~= c@);
        let ghost t = texts(comps@).skip(from as int).take(k + 1 - from);
        assert(t.drop_last() =~= texts(comps@).skip(from as int).take(k - from));
        assert(t.last() == c@);
        if k == from {
            assert(out@ =~= unbackslash(t[0]));
        } else {
            assert(out@ =~= before + seq!['/'] + unbackslash(t.last()));
        }
        k += 1;
    }
    assert(texts(comps@).skip(from as int).take(comps@.len() - from) =~= texts(comps@).skip(
        from as int,
    ));
    out
}

// ---------------------------------------------------------- normal paths

/// Every component is well formed: none is empty, `.` or `..`, and none
/// holds a `/`.
pub open spec fn normal(comps: Components) -> bool {
    forall|i: int| 0 <= i < comps.len() ==> good_component(#[trigger] comps[i])
}

proof fn lemma_find_past(p: Text, t: Text, i: int, c: char)
    requires
        0 <= i <= p.len(),
    ensures
        find_from(p + seq![c] + t, i, c) == find_from(p, i, c),
    decreases p.len() - i,
{
    let s = p + seq![c] + t;
    if i < p.len() {
        assert(s[i] == p[i]);
        if p[i] != c {
            lemma_find_past(p, t, i + 1, c);
        }
    } else {
        assert(s[i] == c);
    }
}

/// Splitting `p`, a separator and a last piece without separators gives the
/// pieces of `p` and then that last piece.
proof fn lemma_split_past(p: Text, t: Text, i: int, c: char)
    requires
        0 <= i <= p.len(),
        forall|j: int| 0 <= j < t.len() ==> #[trigger] t[j] != c,
    ensures
        split_from(p + seq![c] + t, i, c) == split_from(p, i, c) + seq![t],
    decreases p.len() - i,
{
    let s = p + seq![c] + t;
    lemma_find_past(p, t, i, c);
    lemma_find_from(p, i, c);
    let e = find_from(p, i, c);
    assert(s.subrange(i, e) =~= p.subrange(i, e));
    if e < p.len() {
        lemma_split_past(p, t, e + 1, c);
    } else {
        let after: int = p.len() as int + 1;
        lemma_find_from(s, after, c);
        if find_from(s, after, c) < s.len() {
            assert(t[find_from(s, after, c) - after] == s[find_from(s, after, c)]);
        }
        assert(s.subrange(after, s.len() as int) =~= t);
        assert(split_from(s, after, c) =~= seq![t]);
    }
}

proof fn lemma_pieces_without_separator(s: Text, i: int, c: char)
    requires
        0 <= i <= s.len(),
    ensures
        forall|k: int, j: int|
            0 <= k < split_from(s, i, c).len() && 0 <= j < split_from(s, i, c)[k].len()
                ==> #[trigger] split_from(s, i, c)[k][j] != c,
    decreases s.len() - i,
{
    lemma_find_from(s, i, c);
    let e = find_from(s, i, c);
    if e < s.len() {
        lemma_pieces_without_separator(s, e + 1, c);
        assert forall|k: int, j: int|
            0 <= k < split_from(s, i, c).len() && 0 <= j < split_from(s, i, c)[k].len()
                implies #[trigger] split_from(s, i, c)[k][j] != c by {
            if k > 0 {
                assert(split_from(s, i, c)[k] == split_from(s, e + 1, c)[k - 1]);
            } else {
                assert(split_from(s, i, c)[k][j] == s[i + j]);
            }
        }
    } else {
        assert forall|k: int, j: int|
            0 <= k < split_from(s, i, c).len() && 0 <= j < split_from(s, i, c)[k].len()
                implies #[trigger] split_from(s, i, c)[k][j] != c by {
            assert(split_from(s, i, c)[k][j] == s[i + j]);
        }
    }
}

proof fn lemma_path_text_parts(comps: Components)
    requires
        normal(comps),
    ensures
        path_text(comps).len() > 0,
        path_text(comps)[0] == '/',
        comps.len() == 0 ==> split_at_char(path_text(comps), '/') == seq![Seq::<char>::empty(), Seq::<char>::empty()],
        comps.len() > 0 ==> split_at_char(path_text(comps), '/') == seq![Seq::<char>::empty()] + comps,
    decreases comps.len(),
{
    let e = Seq::<char>::empty();
    if comps.len() == 0 {
        assert(seq!['/'] =~= e + seq!['/'] + e);
        lemma_split_past(e, e, 0, '/');
        assert(find_from(e, 0, '/') == 0);
        assert(e.subrange(0, 0) =~= e);
        assert(split_from(e, 0, '/') =~= seq![e]);
    } else if comps.len() == 1 {
        assert(path_text(comps) =~= e + seq!['/'] + comps[0]);
        assert(good_component(comps[0]));
        lemma_split_past(e, comps[0], 0, '/');
        assert(find_from(e, 0, '/') == 0);
        assert(e.subrange(0, 0) =~= e);
        assert(split_from(e, 0, '/') =~= seq![e]);
        assert(seq![e] + seq![comps[0]] =~= seq![e] + comps);
    } else {
        let front = comps.drop_last();
        assert forall|i: int| 0 <= i < front.len() implies good_component(#[trigger] front[i]) by {
            assert(front[i] == comps[i]);
        }
        lemma_path_text_parts(front);
        assert(good_component(comps[comps.len() - 1]));
        lemma_split_past(path_text(front), comps.last(), 0, '/');
        assert(seq![e] + front + seq![comps.last()] =~= seq![e] + comps);
    }
}

proof fn lemma_fold_normal(comps: Components, k: int)
    requires
        normal(comps),
        0 <= k <= comps.len(),
    ensures
        norm_fold(seq![], seq![Seq::<char>::empty()] + comps, (k + 1) as nat) == comps.take(k),
    decreases k,
{
    let parts = seq![Seq::<char>::empty()] + comps;
    if k == 0 {
        assert(norm_fold(seq![], parts, 0) == Seq::<Text>::empty());
        assert(parts[0].len() == 0);
        assert(comps.take(0) =~= Seq::<Text>::empty());
    } else {
        lemma_fold_normal(comps, k - 1);
        assert(parts[k] == comps[k - 1]);
        assert(good_component(comps[k - 1]));
        assert(comps.take(k) =~= comps.take(k - 1).push(comps[k - 1]));
    }
}

/// A normal path is its own normal form: reading the text of one from any
/// base gives it back.
pub proof fn law_normal_paths_stay_as_they_are(base: Components, comps: Components)
    requires
        normal(comps),
    ensures
        join_normalized(base, path_text(comps)) == comps,
{
    lemma_path_text_parts(comps);
    let parts = split_at_char(path_text(comps), '/');
    if comps.len() == 0 {
        let e = Seq::<char>::empty();
        assert(norm_fold(seq![], parts, 0) == Seq::<Text>::empty());
        assert(parts[0] == e);
        assert(parts[1] == e);
        assert(norm_fold(seq![], parts, 1) == Seq::<Text>::empty());
    } else {
        lemma_fold_normal(comps, comps.len() as int);
        assert(comps.take(comps.len() as int) =~= comps);
    }
}

proof fn lemma_fold_keeps_normal(start: Components, parts: Seq<Text>, n: nat)
    requires
        normal(start),
        forall|k: int, j: int| 0 <= k < parts.len() && 0 <= j < parts[k].len() ==> #[trigger] parts[k][j] != '/',
    ensures
        normal(norm_fold(start, parts, n)),
    decreases n,
{
    if n > 0 && n <= parts.len() {
        lemma_fold_keeps_normal(start, parts, (n - 1) as nat);
        let prev = norm_fold(start, parts, (n - 1) as nat);
        let part = parts[n - 1];
        let next = norm_fold(start, parts, n);
        assert forall|i: int| 0 <= i < next.len() implies good_component(#[trigger] next[i]) by {
            if i < prev.len() {
                assert(next[i] == prev[i]);
            } else {
                assert(next[i] == part);
                assert forall|j: int| 0 <= j < part.len() implies #[trigger] part[j] != '/' by {
                    assert(parts[n - 1][j] != '/');
                }
            }
        }
    }
}

/// Normalising from a normal base leaves no `.`, `..` or empty component:
/// each `.` is dropped and each `..` takes the component before it away.
pub proof fn law_normalized_paths_hold_no_dots(base: Components, rest: Text)
    requires
        normal(base),
    ensures
        normal(join_normalized(base, rest)),
{
    let parts = split_at_char(rest, '/');
    lemma_pieces_without_separator(rest, 0, '/');
    let start = if rest.len() > 0 && rest[0] == '/' {
        seq![]
    } else {
        base
    };
    lemma_fold_keeps_normal(start, parts, parts.len());
}

/// Normalising twice changes nothing.
pub proof fn law_normalizing_twice_changes_nothing(base: Components, rest: Text, other: Components)
    requires
        normal(base),
    ensures
        join_normalized(other, path_text(join_normalized(base, rest))) == join_normalized(base, rest),
{
    law_normalized_paths_hold_no_dots(base, rest);
    law_normal_paths_stay_as_they_are(other, join_normalized(base, rest));
}

} // verus!
