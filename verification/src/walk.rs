//! Walking the opened folder: which folders and `.pi` files make up a
//! specbase, and in what order they are numbered.
//!
//! The folder is handed in as a tree of entries read beforehand; the walk
//! visits each folder's entries in name order, skips hidden and build folders,
//! keeps the `.pi` files, and drops folders that end up holding nothing.

use vstd::prelude::*;

use crate::paths::{is_pi_name, path_text, pi_name, path_string, Components};
use crate::text::{chars_of, same_as, string_of, text_less, text_lt, texts, Text};

verus! {

/// One entry of a folder listing, with what was read below it.
#[derive(Debug)]
pub struct FsEntry {
    pub name: String,
    pub is_dir: bool,
    /// The text of a file; empty where it could not be read.
    pub text: String,
    /// Why a folder could not be listed, where it could not.
    pub error: Option<String>,
    /// The entries of a folder.
    pub entries: Vec<FsEntry>,
}

/// Within every folder of the tree, no two entries share a name.
pub open spec fn distinct_names(e: FsEntry) -> bool
    decreases e,
{
    &&& forall|i: int, j: int|
        0 <= i < j < e.entries@.len() ==> (#[trigger] e.entries@[i]).name@ != (
        #[trigger] e.entries@[j]).name@
    &&& forall|i: int|
        0 <= i < e.entries@.len() ==> {
            proof {
                vstd::std_specs::vec::axiom_vec_index_decreases(e.entries, i);
            }
            distinct_names(#[trigger] e.entries@[i])
        }
}

/// Folders the walk never enters.
pub open spec fn skipped_dir(name: Text) -> bool {
    ||| (name.len() > 0 && name[0] == '.')
    ||| name == "target"@
    ||| name == "node_modules"@
    ||| name == "dist"@
    ||| name == "build"@
}

/// A folder as the walk records it.
pub struct DirSeed {
    pub comps: Components,
    pub parent: Option<nat>,
    pub dirs: Seq<nat>,
    pub files: Seq<nat>,
}

/// A `.pi` file as the walk records it.
pub struct FileSeed {
    pub comps: Components,
    pub dir: nat,
    pub text: Text,
}

pub struct Walked {
    pub dirs: Seq<DirSeed>,
    pub files: Seq<FileSeed>,
}

pub open spec fn above(lo: Option<Text>, t: Text) -> bool {
    match lo {
        None => true,
        Some(l) => text_lt(l, t),
    }
}

/// Entry `i` is the first, by name, of those after `lo`.
pub open spec fn least_above(es: Seq<FsEntry>, lo: Option<Text>, i: int) -> bool {
    &&& 0 <= i < es.len()
    &&& above(lo, es[i].name@)
    &&& forall|j: int|
        0 <= j < es.len() && above(lo, #[trigger] es[j].name@) ==> !text_lt(es[j].name@, es[i].name@)
}

/// The entry that comes next, by name, after `lo`.
pub open spec fn next_entry(es: Seq<FsEntry>, lo: Option<Text>) -> Option<int> {
    if exists|i: int| least_above(es, lo, i) {
        Some(choose|i: int| least_above(es, lo, i))
    } else {
        None
    }
}

pub open spec fn with_child_dir(w: Walked, id: nat, c: nat) -> Walked {
    Walked {
        dirs: w.dirs.update(id as int, DirSeed { dirs: w.dirs[id as int].dirs.push(c), ..w.dirs[id as int] }),
        files: w.files,
    }
}

pub open spec fn with_file(w: Walked, id: nat, f: FileSeed) -> Walked {
    Walked {
        dirs: w.dirs.update(
            id as int,
            DirSeed { files: w.dirs[id as int].files.push(w.files.len()), ..w.dirs[id as int] },
        ),
        files: w.files.push(f),
    }
}

pub open spec fn dir_error(comps: Components, msg: Text) -> Text {
    path_text(comps) + ": "@ + msg
}

/// Walks folder `e`, found at `comps`, below folder `parent`: `Ok` with the
/// folder's id where it was kept, `Err` with the message of the first folder
/// that could not be listed.
pub open spec fn walk_dir(e: FsEntry, comps: Components, parent: Option<nat>, w: Walked) -> Result<
    (Walked, Option<nat>),
    Text,
>
    decreases e, 1nat, 0nat,
{
    match e.error {
        Some(msg) => Err(dir_error(comps, msg@)),
        None => {
            let id = w.dirs.len();
            let w1 = Walked {
                dirs: w.dirs.push(DirSeed { comps, parent, dirs: seq![], files: seq![] }),
                files: w.files,
            };
            match walk_entries(e, comps, id, w1, None, e.entries@.len()) {
                Err(m) => Err(m),
                Ok(w2) => {
                    if w2.dirs[id as int].files.len() == 0 && w2.dirs[id as int].dirs.len() == 0
                        && parent is Some {
                        Ok((Walked { dirs: w2.dirs.drop_last(), files: w2.files }, None))
                    } else {
                        Ok((w2, Some(id)))
                    }
                },
            }
        },
    }
}

/// What entry `i` of folder `e` adds to the walk: a kept subfolder, a
/// `.pi` file, or nothing.
pub open spec fn entry_step(e: FsEntry, comps: Components, id: nat, w: Walked, i: int) -> Result<
    Walked,
    Text,
>
    decreases e, 0nat, 0nat,
{
    if 0 <= i < e.entries@.len() {
        proof {
            vstd::std_specs::vec::axiom_vec_index_decreases(e.entries, i);
        }
        let child = e.entries@[i];
        if child.is_dir {
            if skipped_dir(child.name@) {
                Ok(w)
            } else {
                match walk_dir(child, comps.push(child.name@), Some(id), w) {
                    Err(m) => Err(m),
                    Ok((w2, Some(c))) => Ok(with_child_dir(w2, id, c)),
                    Ok((w2, None)) => Ok(w2),
                }
            }
        } else if is_pi_name(child.name@) {
            Ok(
                with_file(
                    w,
                    id,
                    FileSeed { comps: comps.push(child.name@), dir: id, text: child.text@ },
                ),
            )
        } else {
            Ok(w)
        }
    } else {
        Ok(w)
    }
}

/// The rest of folder `e`'s entries, those after `lo` by name, at most
/// `count` of them.
pub open spec fn walk_entries(
    e: FsEntry,
    comps: Components,
    id: nat,
    w: Walked,
    lo: Option<Text>,
    count: nat,
) -> Result<Walked, Text>
    decreases e, 0nat, count,
{
    if count == 0 {
        Ok(w)
    } else {
        match next_entry(e.entries@, lo) {
            None => Ok(w),
            Some(i) => match entry_step(e, comps, id, w, i) {
                Err(m) => Err(m),
                Ok(w3) => walk_entries(e, comps, id, w3, Some(e.entries@[i].name@), (count - 1) as nat),
            },
        }
    }
}

pub proof fn lemma_walk_keeps(e: FsEntry, comps: Components, parent: Option<nat>, w: Walked)
    ensures
        match walk_dir(e, comps, parent, w) {
            Ok((w2, _)) => w2.dirs.len() >= w.dirs.len(),
            Err(_) => true,
        },
    decreases e, 1nat, 0nat,
{
    if e.error is None {
        let id = w.dirs.len();
        let w1 = Walked {
            dirs: w.dirs.push(DirSeed { comps, parent, dirs: seq![], files: seq![] }),
            files: w.files,
        };
        lemma_entries_keep(e, comps, id, w1, None, e.entries@.len());
    }
}

pub proof fn lemma_step_keeps(e: FsEntry, comps: Components, id: nat, w: Walked, i: int)
    requires
        id < w.dirs.len(),
    ensures
        match entry_step(e, comps, id, w, i) {
            Ok(w2) => w2.dirs.len() >= w.dirs.len(),
            Err(_) => true,
        },
    decreases e, 0nat, 0nat,
{
    if 0 <= i < e.entries@.len() {
        vstd::std_specs::vec::axiom_vec_index_decreases(e.entries, i);
        let child = e.entries@[i];
        if child.is_dir && !skipped_dir(child.name@) {
            lemma_walk_keeps(child, comps.push(child.name@), Some(id), w);
        }
    }
}

pub proof fn lemma_entries_keep(
    e: FsEntry,
    comps: Components,
    id: nat,
    w: Walked,
    lo: Option<Text>,
    count: nat,
)
    requires
        id < w.dirs.len(),
    ensures
        match walk_entries(e, comps, id, w, lo, count) {
            Ok(w2) => w2.dirs.len() >= w.dirs.len(),
            Err(_) => true,
        },
    decreases e, 0nat, count,
{
    if count > 0 {
        match next_entry(e.entries@, lo) {
            None => {},
            Some(i) => {
                lemma_step_keeps(e, comps, id, w, i);
                match entry_step(e, comps, id, w, i) {
                    Err(_) => {},
                    Ok(w3) => {
                        lemma_entries_keep(
                            e,
                            comps,
                            id,
                            w3,
                            Some(e.entries@[i].name@),
                            (count - 1) as nat,
                        );
                    },
                }
            },
        }
    }
}

// -------------------------------------------------------------------- exec

/// A folder as the walk records it.
pub struct DirNode {
    pub comps: Vec<Vec<char>>,
    pub parent: Option<usize>,
    pub dirs: Vec<usize>,
    pub files: Vec<usize>,
}

/// A `.pi` file as the walk records it.
pub struct FileNode {
    pub comps: Vec<Vec<char>>,
    pub dir: usize,
    pub text: String,
}

pub struct WalkState {
    pub dirs: Vec<DirNode>,
    pub files: Vec<FileNode>,
}

impl View for DirNode {
    type V = DirSeed;

    open spec fn view(&self) -> DirSeed {
        DirSeed {
            comps: texts(self.comps@),
            parent: crate::model::opt_id(self.parent),
            dirs: crate::model::ids(self.dirs@),
            files: crate::model::ids(self.files@),
        }
    }
}

impl View for FileNode {
    type V = FileSeed;

    open spec fn view(&self) -> FileSeed {
        FileSeed { comps: texts(self.comps@), dir: self.dir as nat, text: self.text@ }
    }
}

impl View for WalkState {
    type V = Walked;

    open spec fn view(&self) -> Walked {
        Walked {
            dirs: self.dirs@.map_values(|d: DirNode| d@),
            files: self.files@.map_values(|f: FileNode| f@),
        }
    }
}

fn is_skipped_dir(name: &[char]) -> (r: bool)
    ensures
        r == skipped_dir(name@),
{
    (name.len() > 0 && name[0] == '.') || same_as(name, "target") || same_as(name, "node_modules")
        || same_as(name, "dist") || same_as(name, "build")
}

fn is_above(lo: &Option<Vec<char>>, t: &[char]) -> (r: bool)
    ensures
        r == above(lo_text(*lo), t@),
{
    match lo {
        None => true,
        Some(l) => text_less(l.as_slice(), t),
    }
}

pub open spec fn lo_text(lo: Option<Vec<char>>) -> Option<Text> {
    match lo {
        None => None,
        Some(l) => Some(l@),
    }
}

/// The index of the entry that comes next, by name, after `lo`.
fn next_index(es: &Vec<FsEntry>, lo: &Option<Vec<char>>) -> (r: Option<usize>)
    requires
        forall|i: int, j: int|
            0 <= i < j < es@.len() ==> (#[trigger] es@[i]).name@ != (#[trigger] es@[j]).name@,
    ensures
        match r {
            Some(i) => next_entry(es@, lo_text(*lo)) == Some(i as int),
            None => next_entry(es@, lo_text(*lo)) is None,
        },
{
    proof {
        crate::text::lemma_text_lt_facts();
    }
    let ghost l = lo_text(*lo);
    let mut best: Option<usize> = None;
    let mut best_name: Vec<char> = Vec::new();
    let mut j: usize = 0;
    while j < es.len()
        invariant
            j <= es@.len(),
            l == lo_text(*lo),
            forall|a: Text| !text_lt(a, a),
            forall|a: Text, b: Text, c: Text| #[trigger] text_lt(a, b) && #[trigger] text_lt(b, c) ==> text_lt(a, c),
            match best {
                None => forall|k: int| 0 <= k < j ==> !above(l, (#[trigger] es@[k]).name@),
                Some(b) => {
                    &&& b < j
                    &&& above(l, es@[b as int].name@)
                    &&& best_name@ == es@[b as int].name@
                    &&& forall|k: int|
                        0 <= k < j && above(l, (#[trigger] es@[k]).name@) ==> !text_lt(
                            es@[k].name@,
                            es@[b as int].name@,
                        )
                },
            },
        decreases es@.len() - j,
    {
        let here = chars_of(es[j].name.as_str());
        if is_above(lo, here.as_slice()) {
            let better = match best {
                None => true,
                Some(_) => text_less(here.as_slice(), best_name.as_slice()),
            };
            if better {
                best = Some(j);
                best_name = here;
            }
        }
        j += 1;
    }
    proof {
        crate::text::lemma_text_lt_facts();
        match best {
            None => {
                assert(!exists|i: int| least_above(es@, l, i));
            },
            Some(b) => {
                assert(least_above(es@, l, b as int));
                let c = choose|i: int| least_above(es@, l, i);
                if c != b {
                    assert(es@[c].name@ != es@[b as int].name@);
                }
            },
        }
    }
    best
}

/// `dir_error`: the message for a folder that could not be listed.
fn error_for(comps: &Vec<Vec<char>>, msg: &String) -> (r: String)
    ensures
        r@ == dir_error(texts(comps@), msg@),
{
    let mut out = path_string(comps);
    out.push(':');
    out.push(' ');
    let m = chars_of(msg.as_str());
    let ghost start = out@;
    let mut k: usize = 0;
    while k < m.len()
        invariant
            k <= m@.len(),
            out@ == start + m@.take(k as int),
        decreases m@.len() - k,
    {
        out.push(m[k]);
        assert(m@.take(k + 1) =~= m@.take(k as int).push(m@[k as int]));
        k += 1;
    }
    proof {
        reveal_strlit(": ");
        assert(m@.take(m@.len() as int) =~= m@);
    }
    assert(out@ =~= dir_error(texts(comps@), msg@));
    string_of(out.as_slice())
}

fn comps_with(comps: &Vec<Vec<char>>, name: Vec<char>) -> (r: Vec<Vec<char>>)
    ensures
        texts(r@) == texts(comps@).push(name@),
{
    let mut out = comps.clone();
    assert(texts(out@) =~= texts(comps@));
    let ghost nv = name@;
    out.push(name);
    assert(texts(out@) =~= texts(comps@).push(nv));
    out
}

/// `walk_dir`: walks folder `e`, found at `comps`, below folder `parent`.
pub fn walk_folder(
    e: &FsEntry,
    comps: &Vec<Vec<char>>,
    parent: Option<usize>,
    w: &mut WalkState,
) -> (r: Result<Option<usize>, String>)
    requires
        distinct_names(*e),
    ensures
        match (r, walk_dir(*e, texts(comps@), crate::model::opt_id(parent), old(w)@)) {
            (Ok(x), Ok((w2, id))) => final(w)@ == w2 && crate::model::opt_id(x) == id,
            (Err(m), Err(t)) => m@ == t,
            _ => false,
        },
    decreases e,
{
    match &e.error {
        Some(msg) => {
            return Err(error_for(comps, msg));
        },
        None => {},
    }
    let ghost tc = texts(comps@);
    let ghost pv = crate::model::opt_id(parent);
    let ghost w0 = w@;
    let id = w.dirs.len();
    let own = comps.clone();
    assert(texts(own@) =~= tc);
    w.dirs.push(DirNode { comps: own, parent, dirs: Vec::new(), files: Vec::new() });
    let ghost w1 = Walked {
        dirs: w0.dirs.push(DirSeed { comps: tc, parent: pv, dirs: seq![], files: seq![] }),
        files: w0.files,
    };
    proof {
        assert(crate::model::ids(Seq::<usize>::empty()) =~= Seq::<nat>::empty());
        assert(w@.dirs =~= w1.dirs);
        assert(w@.files =~= w1.files);
    }
    let ghost target = walk_entries(*e, tc, id as nat, w1, None, e.entries@.len());
    let mut lo: Option<Vec<char>> = None;
    let mut count: usize = e.entries.len();
    while count > 0
        invariant
            distinct_names(*e),
            e.error is None,
            tc == texts(comps@),
            pv == crate::model::opt_id(parent),
            w0 == old(w)@,
            id == w0.dirs.len(),
            w1 == (Walked {
                dirs: w0.dirs.push(DirSeed { comps: tc, parent: pv, dirs: seq![], files: seq![] }),
                files: w0.files,
            }),
            target == walk_entries(*e, tc, id as nat, w1, None, e.entries@.len()),
            id < w@.dirs.len(),
            target == walk_entries(*e, tc, id as nat, w@, lo_text(lo), count as nat),
        decreases count,
    {
        let next = next_index(&e.entries, &lo);
        match next {
            None => {
                count = 0;
            },
            Some(i) => {
                let ghost wb = w@;
                let child = &e.entries[i];
                let name = chars_of(child.name.as_str());
                if child.is_dir {
                    if !is_skipped_dir(name.as_slice()) {
                        let cc = comps_with(comps, name.clone());
                        proof {
                            vstd::std_specs::vec::axiom_vec_index_decreases(e.entries, i as int);
                            lemma_walk_keeps(*child, tc.push(name@), Some(id as nat), wb);
                        }
                        let sub = walk_folder(child, &cc, Some(id), w);
                        match sub {
                            Err(m) => {
                                return Err(m);
                            },
                            Ok(Some(c)) => {
                                let ghost w2 = w@;
                                let mut d = w.dirs.remove(id);
                                d.dirs.push(c);
                                let ghost dv = d@;
                                w.dirs.insert(id, d);
                                proof {
                                    assert(dv.dirs =~= w2.dirs[id as int].dirs.push(c as nat));
                                    assert(w@.dirs =~= with_child_dir(w2, id as nat, c as nat).dirs);
                                    assert(w@.files =~= w2.files);
                                }
                            },
                            Ok(None) => {},
                        }
                    }
                    assert(entry_step(*e, tc, id as nat, wb, i as int) == Ok::<Walked, Text>(w@));
                } else if pi_name(name.as_slice()) {
                    let fid = w.files.len();
                    let fc = comps_with(comps, name.clone());
                    let text = child.text.clone();
                    let ghost fv = FileSeed { comps: tc.push(name@), dir: id as nat, text: child.text@ };
                    w.files.push(FileNode { comps: fc, dir: id, text });
                    let ghost w2 = w@;
                    let mut d = w.dirs.remove(id);
                    d.files.push(fid);
                    let ghost dv = d@;
                    w.dirs.insert(id, d);
                    proof {
                        assert(dv.files =~= wb.dirs[id as int].files.push(wb.files.len()));
                        assert(w@.dirs =~= with_file(wb, id as nat, fv).dirs);
                        assert(w@.files =~= with_file(wb, id as nat, fv).files);
                    }
                    assert(entry_step(*e, tc, id as nat, wb, i as int) == Ok::<Walked, Text>(w@));
                } else {
                    assert(entry_step(*e, tc, id as nat, wb, i as int) == Ok::<Walked, Text>(w@));
                }
                lo = Some(name);
                count -= 1;
            },
        }
    }
    assert(target == Ok::<Walked, Text>(w@));
    if w.dirs[id].files.len() == 0 && w.dirs[id].dirs.len() == 0 && parent.is_some() {
        let ghost wb = w@;
        w.dirs.pop();
        assert(w@.dirs =~= wb.dirs.drop_last());
        return Ok(None);
    }
    Ok(Some(id))
}

/// Every folder the walk recorded lies at least `depth` components down, and
/// every file below that.
pub open spec fn seeds_below(w: Walked, depth: nat) -> bool {
    &&& forall|k: int| 0 <= k < w.dirs.len() ==> (#[trigger] w.dirs[k]).comps.len() >= depth
    &&& forall|k: int| 0 <= k < w.files.len() ==> (#[trigger] w.files[k]).comps.len() >= depth + 1
}

pub proof fn lemma_walk_depth(e: FsEntry, comps: Components, parent: Option<nat>, w: Walked, depth: nat)
    requires
        seeds_below(w, depth),
        comps.len() >= depth,
    ensures
        match walk_dir(e, comps, parent, w) {
            Ok((w2, _)) => seeds_below(w2, depth),
            Err(_) => true,
        },
    decreases e, 1nat, 0nat,
{
    if e.error is None {
        let id = w.dirs.len();
        let w1 = Walked {
            dirs: w.dirs.push(DirSeed { comps, parent, dirs: seq![], files: seq![] }),
            files: w.files,
        };
        assert(seeds_below(w1, depth));
        lemma_entries_depth(e, comps, id, w1, None, e.entries@.len(), depth);
        lemma_entries_keep(e, comps, id, w1, None, e.entries@.len());
        match walk_entries(e, comps, id, w1, None, e.entries@.len()) {
            Ok(w2) => {
                let w3 = Walked { dirs: w2.dirs.drop_last(), files: w2.files };
                assert(seeds_below(w3, depth));
            },
            Err(_) => {},
        }
    }
}

pub proof fn lemma_step_depth(e: FsEntry, comps: Components, id: nat, w: Walked, i: int, depth: nat)
    requires
        seeds_below(w, depth),
        comps.len() >= depth,
        id < w.dirs.len(),
    ensures
        match entry_step(e, comps, id, w, i) {
            Ok(w2) => seeds_below(w2, depth),
            Err(_) => true,
        },
    decreases e, 0nat, 0nat,
{
    if 0 <= i < e.entries@.len() {
        vstd::std_specs::vec::axiom_vec_index_decreases(e.entries, i);
        let child = e.entries@[i];
        if child.is_dir && !skipped_dir(child.name@) {
            lemma_walk_depth(child, comps.push(child.name@), Some(id), w, depth);
            lemma_walk_keeps(child, comps.push(child.name@), Some(id), w);
            match walk_dir(child, comps.push(child.name@), Some(id), w) {
                Ok((w2, Some(c))) => {
                    let w3 = with_child_dir(w2, id, c);
                    assert forall|k: int| 0 <= k < w3.dirs.len() implies (#[trigger] w3.dirs[k]).comps.len() >= depth by {
                        if k != id {
                            assert(w3.dirs[k] == w2.dirs[k]);
                        }
                    }
                },
                _ => {},
            }
        } else if !child.is_dir && is_pi_name(child.name@) {
            let w3 = with_file(w, id, FileSeed { comps: comps.push(child.name@), dir: id, text: child.text@ });
            assert forall|k: int| 0 <= k < w3.dirs.len() implies (#[trigger] w3.dirs[k]).comps.len() >= depth by {
                if k != id {
                    assert(w3.dirs[k] == w.dirs[k]);
                }
            }
        }
    }
}

pub proof fn lemma_entries_depth(
    e: FsEntry,
    comps: Components,
    id: nat,
    w: Walked,
    lo: Option<Text>,
    count: nat,
    depth: nat,
)
    requires
        seeds_below(w, depth),
        comps.len() >= depth,
        id < w.dirs.len(),
    ensures
        match walk_entries(e, comps, id, w, lo, count) {
            Ok(w2) => seeds_below(w2, depth),
            Err(_) => true,
        },
    decreases e, 0nat, count,
{
    if count > 0 {
        match next_entry(e.entries@, lo) {
            None => {},
            Some(i) => {
                lemma_step_depth(e, comps, id, w, i, depth);
                lemma_step_keeps(e, comps, id, w, i);
                match entry_step(e, comps, id, w, i) {
                    Err(_) => {},
                    Ok(w3) => {
                        lemma_entries_depth(
                            e,
                            comps,
                            id,
                            w3,
                            Some(e.entries@[i].name@),
                            (count - 1) as nat,
                            depth,
                        );
                    },
                }
            },
        }
    }
}

/// A folder that holds a `.pi` file or a kept folder.
pub open spec fn holds_something(d: DirSeed) -> bool {
    d.files.len() > 0 || d.dirs.len() > 0
}

/// What a walk of one folder does to what was recorded before it: the
/// folders recorded before are left as they were, and every folder it adds
/// from `from` on holds something.
pub open spec fn walk_keeps_shape(w: Walked, w2: Walked, from: int) -> bool {
    &&& w2.dirs.len() >= w.dirs.len()
    &&& forall|k: int| 0 <= k < w.dirs.len() ==> #[trigger] w2.dirs[k] == w.dirs[k]
    &&& forall|k: int| from <= k < w2.dirs.len() ==> holds_something(#[trigger] w2.dirs[k])
}

pub proof fn lemma_walk_shape(e: FsEntry, comps: Components, parent: Option<nat>, w: Walked)
    ensures
        match walk_dir(e, comps, parent, w) {
            Ok((w2, r)) => {
                &&& walk_keeps_shape(w, w2, w.dirs.len() + 1int)
                &&& (r is None ==> w2.dirs.len() == w.dirs.len())
                &&& (r matches Some(c) ==> c == w.dirs.len() && w2.dirs.len() > c && (parent is Some
                    ==> holds_something(w2.dirs[c as int])))
            },
            Err(_) => true,
        },
    decreases e, 1nat, 0nat,
{
    if e.error is None {
        let id = w.dirs.len();
        let w1 = Walked {
            dirs: w.dirs.push(DirSeed { comps, parent, dirs: seq![], files: seq![] }),
            files: w.files,
        };
        lemma_entries_shape(e, comps, id, w1, None, e.entries@.len());
        match walk_entries(e, comps, id, w1, None, e.entries@.len()) {
            Ok(w2) => {
                if w2.dirs[id as int].files.len() == 0 && w2.dirs[id as int].dirs.len() == 0
                    && parent is Some {
                    let w3 = Walked { dirs: w2.dirs.drop_last(), files: w2.files };
                    assert(w2.dirs.len() == w1.dirs.len());
                    assert forall|k: int| 0 <= k < w.dirs.len() implies #[trigger] w3.dirs[k] == w.dirs[k] by {
                        assert(w2.dirs[k] == w1.dirs[k]);
                    }
                } else {
                    assert forall|k: int| 0 <= k < w.dirs.len() implies #[trigger] w2.dirs[k] == w.dirs[k] by {
                        assert(w2.dirs[k] == w1.dirs[k]);
                    }
                }
            },
            Err(_) => {},
        }
    }
}

/// Every folder recorded after folder `id` holds something.
pub open spec fn after_hold(w: Walked, id: nat) -> bool {
    &&& id < w.dirs.len()
    &&& forall|k: int| id < k < w.dirs.len() ==> holds_something(#[trigger] w.dirs[k])
}

/// What walking entries of folder `id` does: the folders before it stay as
/// they were, it only gains, and where it gains no folder, no folder is
/// recorded at all.
pub open spec fn step_shape(w: Walked, w2: Walked, id: nat) -> bool {
    &&& w2.dirs.len() >= w.dirs.len()
    &&& forall|k: int| 0 <= k < id ==> #[trigger] w2.dirs[k] == w.dirs[k]
    &&& w2.dirs[id as int].dirs.len() >= w.dirs[id as int].dirs.len()
    &&& w2.dirs[id as int].files.len() >= w.dirs[id as int].files.len()
    &&& (w2.dirs.len() == w.dirs.len() || w2.dirs[id as int].dirs.len() > w.dirs[id as int].dirs.len())
}

pub proof fn lemma_step_shape(e: FsEntry, comps: Components, id: nat, w: Walked, i: int)
    requires
        after_hold(w, id),
    ensures
        match entry_step(e, comps, id, w, i) {
            Ok(w2) => step_shape(w, w2, id) && after_hold(w2, id),
            Err(_) => true,
        },
    decreases e, 0nat, 0nat,
{
    if 0 <= i < e.entries@.len() {
        vstd::std_specs::vec::axiom_vec_index_decreases(e.entries, i);
        let child = e.entries@[i];
        if child.is_dir && !skipped_dir(child.name@) {
            lemma_walk_shape(child, comps.push(child.name@), Some(id), w);
            match walk_dir(child, comps.push(child.name@), Some(id), w) {
                Ok((w2, Some(c))) => {
                    let w3 = with_child_dir(w2, id, c);
                    assert(w2.dirs[id as int] == w.dirs[id as int]);
                    assert forall|k: int| id < k < w3.dirs.len() implies holds_something(#[trigger] w3.dirs[k]) by {
                        if k < w.dirs.len() {
                            assert(w2.dirs[k] == w.dirs[k]);
                        }
                    }
                    assert forall|k: int| 0 <= k < id implies #[trigger] w3.dirs[k] == w.dirs[k] by {
                        assert(w2.dirs[k] == w.dirs[k]);
                    }
                },
                Ok((w2, None)) => {
                    assert(w2.dirs =~= w.dirs);
                },
                Err(_) => {},
            }
        }
    }
}

pub proof fn lemma_entries_shape(
    e: FsEntry,
    comps: Components,
    id: nat,
    w: Walked,
    lo: Option<Text>,
    count: nat,
)
    requires
        after_hold(w, id),
    ensures
        match walk_entries(e, comps, id, w, lo, count) {
            Ok(w2) => step_shape(w, w2, id) && after_hold(w2, id),
            Err(_) => true,
        },
    decreases e, 0nat, count,
{
    if count > 0 {
        match next_entry(e.entries@, lo) {
            None => {},
            Some(i) => {
                lemma_step_shape(e, comps, id, w, i);
                match entry_step(e, comps, id, w, i) {
                    Err(_) => {},
                    Ok(w3) => {
                        lemma_entries_shape(e, comps, id, w3, Some(e.entries@[i].name@), (count - 1) as nat);
                    },
                }
            },
        }
    }
}

/// Only folders that hold a `.pi` file, there or below, are kept: every
/// folder the walk records but the root holds a file or a kept folder.
pub proof fn law_only_folders_with_files_are_kept(e: FsEntry, comps: Components)
    ensures
        match walk_dir(e, comps, None, Walked { dirs: seq![], files: seq![] }) {
            Ok((w, _)) => forall|k: int| 1 <= k < w.dirs.len() ==> holds_something(#[trigger] w.dirs[k]),
            Err(_) => true,
        },
{
    lemma_walk_shape(e, comps, None, Walked { dirs: seq![], files: seq![] });
}

/// Whether the walk leaves a folder of this name alone: hidden folders and
/// build output.
pub fn skipped_folder(name: &str) -> (r: bool)
    ensures
        r == skipped_dir(name@),
{
    let cs = chars_of(name);
    is_skipped_dir(cs.as_slice())
}

/// Whether a file of this name is a `.pi` file the walk keeps.
pub fn spec_file(name: &str) -> (r: bool)
    ensures
        r == is_pi_name(name@),
{
    let cs = chars_of(name);
    pi_name(cs.as_slice())
}

// ------------------------------------------------------- folders left out

/// A folder the loader never enters: a hidden one, or one of the build and
/// package folders `target`, `node_modules`, `dist` and `build`.
pub open spec fn never_entered(name: Text) -> bool {
    ||| (name.len() > 0 && name[0] == '.')
    ||| name == "target"@
    ||| name == "node_modules"@
    ||| name == "dist"@
    ||| name == "build"@
}

/// No component of `comps` from `depth` up to `upto` names a folder the
/// loader never enters.
pub open spec fn clear_from(comps: Components, depth: nat, upto: int) -> bool {
    forall|j: int| depth <= j < upto ==> !never_entered(#[trigger] comps[j])
}

/// Every folder recorded, and every folder a recorded file lies in, is one
/// the loader enters, below `depth`.
pub open spec fn walk_clear(w: Walked, depth: nat) -> bool {
    &&& forall|k: int| 0 <= k < w.dirs.len() ==> clear_from((#[trigger] w.dirs[k]).comps, depth, w.dirs[k].comps.len() as int)
    &&& forall|k: int| 0 <= k < w.files.len() ==> clear_from((#[trigger] w.files[k]).comps, depth, w.files[k].comps.len() - 1)
}

pub proof fn lemma_walk_clear(e: FsEntry, comps: Components, parent: Option<nat>, w: Walked, depth: nat)
    requires
        walk_clear(w, depth),
        clear_from(comps, depth, comps.len() as int),
    ensures
        match walk_dir(e, comps, parent, w) {
            Ok((w2, _)) => walk_clear(w2, depth),
            Err(_) => true,
        },
    decreases e, 1nat, 0nat,
{
    if e.error is None {
        let id = w.dirs.len();
        let w1 = Walked {
            dirs: w.dirs.push(DirSeed { comps, parent, dirs: seq![], files: seq![] }),
            files: w.files,
        };
        assert(walk_clear(w1, depth));
        lemma_entries_clear(e, comps, id, w1, None, e.entries@.len(), depth);
        lemma_entries_keep(e, comps, id, w1, None, e.entries@.len());
        match walk_entries(e, comps, id, w1, None, e.entries@.len()) {
            Ok(w2) => {
                let w3 = Walked { dirs: w2.dirs.drop_last(), files: w2.files };
                assert forall|k: int| 0 <= k < w3.dirs.len() implies clear_from((#[trigger] w3.dirs[k]).comps, depth, w3.dirs[k].comps.len() as int) by {
                    assert(w3.dirs[k] == w2.dirs[k]);
                }
            },
            Err(_) => {},
        }
    }
}

pub proof fn lemma_step_clear(e: FsEntry, comps: Components, id: nat, w: Walked, i: int, depth: nat)
    requires
        walk_clear(w, depth),
        clear_from(comps, depth, comps.len() as int),
        id < w.dirs.len(),
    ensures
        match entry_step(e, comps, id, w, i) {
            Ok(w2) => walk_clear(w2, depth),
            Err(_) => true,
        },
    decreases e, 0nat, 0nat,
{
    if 0 <= i < e.entries@.len() {
        vstd::std_specs::vec::axiom_vec_index_decreases(e.entries, i);
        let child = e.entries@[i];
        let inner = comps.push(child.name@);
        if child.is_dir && !skipped_dir(child.name@) {
            assert(!never_entered(child.name@));
            assert forall|j: int| depth <= j < inner.len() implies !never_entered(#[trigger] inner[j]) by {
                if j < comps.len() {
                    assert(inner[j] == comps[j]);
                }
            }
            lemma_walk_clear(child, inner, Some(id), w, depth);
            lemma_walk_keeps(child, inner, Some(id), w);
            match walk_dir(child, inner, Some(id), w) {
                Ok((w2, Some(c))) => {
                    let w3 = with_child_dir(w2, id, c);
                    assert forall|k: int| 0 <= k < w3.dirs.len() implies clear_from((#[trigger] w3.dirs[k]).comps, depth, w3.dirs[k].comps.len() as int) by {
                        if k != id {
                            assert(w3.dirs[k] == w2.dirs[k]);
                        } else {
                            assert(w3.dirs[k].comps == w2.dirs[k].comps);
                        }
                    }
                },
                _ => {},
            }
        } else if !child.is_dir && is_pi_name(child.name@) {
            let w3 = with_file(w, id, FileSeed { comps: inner, dir: id, text: child.text@ });
            assert forall|k: int| 0 <= k < w3.dirs.len() implies clear_from((#[trigger] w3.dirs[k]).comps, depth, w3.dirs[k].comps.len() as int) by {
                if k != id {
                    assert(w3.dirs[k] == w.dirs[k]);
                } else {
                    assert(w3.dirs[k].comps == w.dirs[k].comps);
                }
            }
            assert forall|k: int| 0 <= k < w3.files.len() implies clear_from((#[trigger] w3.files[k]).comps, depth, w3.files[k].comps.len() - 1) by {
                if k < w.files.len() {
                    assert(w3.files[k] == w.files[k]);
                } else {
                    assert forall|j: int| depth <= j < inner.len() - 1 implies !never_entered(#[trigger] inner[j]) by {
                        assert(inner[j] == comps[j]);
                    }
                }
            }
        }
    }
}

pub proof fn lemma_entries_clear(
    e: FsEntry,
    comps: Components,
    id: nat,
    w: Walked,
    lo: Option<Text>,
    count: nat,
    depth: nat,
)
    requires
        walk_clear(w, depth),
        clear_from(comps, depth, comps.len() as int),
        id < w.dirs.len(),
    ensures
        match walk_entries(e, comps, id, w, lo, count) {
            Ok(w2) => walk_clear(w2, depth),
            Err(_) => true,
        },
    decreases e, 0nat, count,
{
    if count > 0 {
        match next_entry(e.entries@, lo) {
            None => {},
            Some(i) => {
                lemma_step_clear(e, comps, id, w, i, depth);
                lemma_step_keeps(e, comps, id, w, i);
                match entry_step(e, comps, id, w, i) {
                    Err(_) => {},
                    Ok(w3) => {
                        lemma_entries_clear(e, comps, id, w3, Some(e.entries@[i].name@), (count - 1) as nat, depth);
                    },
                }
            },
        }
    }
}

} // verus!
