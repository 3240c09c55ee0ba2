//! Which files and declarations are reached from the project's roots.
//!
//! A module that is demanded needs everything it exports; a file that is
//! reached needs the files its statements name and the declarations it
//! imports; a declaration that is reached needs what its body and its keyword
//! point at. What is reached is the least that meets all of these.

use vstd::prelude::*;

use crate::graph::{resolve_export_spec, symbol_targets_spec, targets_valid, views, PointModel};
use crate::model::{EndPoint, FileModel, SpecFile, StatementKind};
use crate::text::Text;

verus! {

/// What has been marked: files reached, declarations reached, and modules
/// whose exports are all needed.
pub struct Marks {
    pub files: Set<nat>,
    pub symbols: Set<(nat, nat)>,
    pub modules: Set<nat>,
}

/// Module `f` is demanded: it is reached, its exported declarations are, and
/// so are the modules it re-exports whole.
pub open spec fn module_closed(files: Seq<FileModel>, f: nat, m: Marks) -> bool {
    f < files.len() ==> {
        &&& m.files.contains(f)
        &&& forall|i: int|
            0 <= i < files[f as int].symbols.len() && (#[trigger] files[f as int].symbols[i]).exported
                ==> m.symbols.contains((f, i as nat))
        &&& forall|k: int|
            0 <= k < files[f as int].statements.len() ==> match (
            #[trigger] files[f as int].statements[k]).target {
                Some(t) => files[f as int].statements[k].kind == StatementKind::Export
                    && files[f as int].statements[k].wildcard ==> m.modules.contains(t),
                None => true,
            }
    }
}

/// Declaration `name` of module `t` is reached where it is found.
pub open spec fn item_closed(files: Seq<FileModel>, t: nat, name: Text, m: Marks) -> bool {
    match resolve_export_spec(files, t, name) {
        Some((g, q)) => m.symbols.contains((g, q)),
        None => true,
    }
}

/// Statement `k` of file `f` is followed: the file it names is reached;
/// through an import or export it also demands a module brought in whole,
/// and reaches the declarations it brings in by name.
pub open spec fn statement_closed(files: Seq<FileModel>, f: nat, k: int, m: Marks) -> bool {
    let s = files[f as int].statements[k];
    match s.target {
        Some(t) => {
            &&& m.files.contains(t)
            &&& s.kind != StatementKind::Use ==> {
                &&& s.wildcard ==> m.modules.contains(t)
                &&& forall|j: int|
                    0 <= j < s.items.len() ==> item_closed(files, t, #[trigger] s.items[j].name, m)
            }
        },
        None => true,
    }
}

/// File `f` is reached: each of its statements is followed.
pub open spec fn file_closed(files: Seq<FileModel>, f: nat, m: Marks) -> bool {
    f < files.len() ==> forall|k: int|
        0 <= k < files[f as int].statements.len() ==> #[trigger] statement_closed(files, f, k, m)
}

/// Declaration `i` of file `f` is reached: so is its file, and what its
/// references and its keyword point at.
pub open spec fn symbol_closed(files: Seq<FileModel>, f: nat, i: nat, m: Marks) -> bool {
    &&& m.files.contains(f)
    &&& (f < files.len() && i < files[f as int].symbols.len()) ==> forall|p: int|
        0 <= p < symbol_targets_spec(files, f, i).len() ==> point_marked(
            #[trigger] symbol_targets_spec(files, f, i)[p],
            m,
        )
}

pub open spec fn point_marked(p: PointModel, m: Marks) -> bool {
    match p.symbol {
        Some(j) => m.symbols.contains((p.file, j)),
        None => m.files.contains(p.file),
    }
}

/// The marks meet every rule, starting from the demanded roots.
pub open spec fn closed(files: Seq<FileModel>, roots: Seq<nat>, m: Marks) -> bool {
    &&& forall|k: int| 0 <= k < roots.len() ==> m.modules.contains(#[trigger] roots[k])
    &&& forall|f: nat| #[trigger] m.modules.contains(f) ==> module_closed(files, f, m)
    &&& forall|f: nat| #[trigger] m.files.contains(f) ==> file_closed(files, f, m)
    &&& forall|f: nat, i: nat| #[trigger] m.symbols.contains((f, i)) ==> symbol_closed(files, f, i, m)
}

pub open spec fn within(a: Marks, b: Marks) -> bool {
    &&& a.files.subset_of(b.files)
    &&& a.symbols.subset_of(b.symbols)
    &&& a.modules.subset_of(b.modules)
}

/// `m` is what is reached: it meets every rule, and any marks that meet them
/// hold it.
pub open spec fn least_closed(files: Seq<FileModel>, roots: Seq<nat>, m: Marks) -> bool {
    &&& closed(files, roots, m)
    &&& forall|m2: Marks| #[trigger] closed(files, roots, m2) ==> within(m, m2)
}

pub proof fn lemma_closed_grows(files: Seq<FileModel>, m1: Marks, m2: Marks)
    requires
        within(m1, m2),
    ensures
        forall|f: nat| file_closed(files, f, m1) ==> #[trigger] file_closed(files, f, m2),
        forall|f: nat| module_closed(files, f, m1) ==> #[trigger] module_closed(files, f, m2),
        forall|f: nat, i: nat| symbol_closed(files, f, i, m1) ==> #[trigger] symbol_closed(files, f, i, m2),
{
    assert forall|f: nat| file_closed(files, f, m1) implies #[trigger] file_closed(files, f, m2) by {
        if f < files.len() {
            assert forall|k: int| 0 <= k < files[f as int].statements.len() implies #[trigger] statement_closed(files, f, k, m2) by {
                assert(statement_closed(files, f, k, m1));
                let s = files[f as int].statements[k];
                match s.target {
                    Some(t) => {
                        if s.kind != StatementKind::Use {
                            assert forall|j: int| 0 <= j < s.items.len() implies item_closed(files, t, #[trigger] s.items[j].name, m2) by {
                                assert(item_closed(files, t, s.items[j].name, m1));
                                match resolve_export_spec(files, t, s.items[j].name) {
                                    Some((g, q)) => {
                                        assert(m1.symbols.contains((g, q)));
                                    },
                                    None => {},
                                }
                            }
                        }
                    },
                    None => {},
                }
            }
        }
    }
    assert forall|f: nat, i: nat| symbol_closed(files, f, i, m1) implies #[trigger] symbol_closed(files, f, i, m2) by {
        if f < files.len() && i < files[f as int].symbols.len() {
            assert forall|p: int| 0 <= p < symbol_targets_spec(files, f, i).len() implies point_marked(
                #[trigger] symbol_targets_spec(files, f, i)[p],
                m2,
            ) by {
                let q = symbol_targets_spec(files, f, i)[p];
                assert(point_marked(q, m1));
                match q.symbol {
                    Some(j) => {
                        assert(m1.symbols.contains((q.file, j)));
                    },
                    None => {},
                }
            }
        }
    }
    assert forall|f: nat| module_closed(files, f, m1) implies #[trigger] module_closed(files, f, m2) by {
        if f < files.len() {
            assert forall|i: int|
                0 <= i < files[f as int].symbols.len() && (#[trigger] files[f as int].symbols[i]).exported
                    implies m2.symbols.contains((f, i as nat)) by {
                assert(m1.symbols.contains((f, i as nat)));
            }
        }
    }
}

// -------------------------------------------------------------------- exec

/// Work still to be done: a file to follow, a module to demand, a
/// declaration to follow.
#[derive(Debug, Clone, Copy, PartialEq, Eq, Structural)]
pub enum Task {
    File(usize),
    Module(usize),
    Symbol(usize, usize),
}

/// The marks as flags, with the work still to be done.
pub struct Marker {
    pub files: Vec<bool>,
    pub modules: Vec<bool>,
    pub symbols: Vec<Vec<bool>>,
    pub stack: Vec<Task>,
}

pub open spec fn marks_of(mk: Marker) -> Marks {
    Marks {
        files: crate::graph::flag_set(mk.files@),
        modules: crate::graph::flag_set(mk.modules@),
        symbols: Set::new(
            |p: (nat, nat)|
                p.0 < mk.symbols@.len() && p.1 < mk.symbols@[p.0 as int]@.len()
                    && mk.symbols@[p.0 as int]@[p.1 as int],
        ),
    }
}

pub open spec fn shaped(files: Seq<FileModel>, mk: Marker) -> bool {
    &&& mk.files@.len() == files.len()
    &&& mk.modules@.len() == files.len()
    &&& mk.symbols@.len() == files.len()
    &&& forall|f: int| 0 <= f < files.len() ==> (#[trigger] mk.symbols@[f])@.len() == files[f].symbols.len()
}

/// Whatever is marked, every set of marks that meets the rules holds.
pub open spec fn sound(files: Seq<FileModel>, roots: Seq<nat>, m: Marks) -> bool {
    forall|m2: Marks| #[trigger] closed(files, roots, m2) ==> within(m, m2)
}

pub open spec fn task_marked(files: Seq<FileModel>, mk: Marker, t: Task) -> bool {
    match t {
        Task::File(f) => f < files.len() && mk.files@[f as int],
        Task::Module(f) => f < files.len() && mk.modules@[f as int],
        Task::Symbol(f, i) => f < files.len() && i < files[f as int].symbols.len()
            && mk.symbols@[f as int]@[i as int],
    }
}

pub open spec fn stack_marked(files: Seq<FileModel>, mk: Marker) -> bool {
    forall|k: int| 0 <= k < mk.stack@.len() ==> task_marked(files, mk, #[trigger] mk.stack@[k])
}

pub open spec fn settled(mk: Marker, except: Option<Task>, t: Task) -> bool {
    !mk.stack@.contains(t) && except != Some(t)
}

/// Every marked thing that is not waiting, other than `except`, meets its
/// rule.
pub open spec fn done_except(files: Seq<FileModel>, mk: Marker, except: Option<Task>) -> bool {
    let m = marks_of(mk);
    &&& forall|f: nat|
        #[trigger] m.files.contains(f) && settled(mk, except, Task::File(f as usize))
            ==> file_closed(files, f, m)
    &&& forall|f: nat|
        #[trigger] m.modules.contains(f) && settled(mk, except, Task::Module(f as usize))
            ==> module_closed(files, f, m)
    &&& forall|f: nat, i: nat|
        #[trigger] m.symbols.contains((f, i)) && settled(mk, except, Task::Symbol(f as usize, i as usize))
            ==> symbol_closed(files, f, i, m)
}

pub open spec fn falses(v: Seq<bool>) -> nat
    decreases v.len(),
{
    if v.len() == 0 {
        0
    } else {
        falses(v.drop_last()) + if v.last() {
            0nat
        } else {
            1nat
        }
    }
}

pub open spec fn falses_rows(rows: Seq<Vec<bool>>) -> nat
    decreases rows.len(),
{
    if rows.len() == 0 {
        0
    } else {
        falses_rows(rows.drop_last()) + falses(rows.last()@)
    }
}

/// How many things are left to mark.
pub open spec fn unmarked(mk: Marker) -> nat {
    falses(mk.files@) + falses(mk.modules@) + falses_rows(mk.symbols@)
}

pub proof fn lemma_falses_set(v: Seq<bool>, i: int)
    requires
        0 <= i < v.len(),
        !v[i],
    ensures
        falses(v.update(i, true)) + 1 == falses(v),
    decreases v.len(),
{
    if i < v.len() - 1 {
        assert(v.update(i, true).drop_last() =~= v.drop_last().update(i, true));
        lemma_falses_set(v.drop_last(), i);
    } else {
        assert(v.update(i, true).drop_last() =~= v.drop_last());
    }
}

pub proof fn lemma_falses_rows_set(rows: Seq<Vec<bool>>, f: int, row: Vec<bool>, i: int)
    requires
        0 <= f < rows.len(),
        0 <= i < rows[f]@.len(),
        !rows[f]@[i],
        row@ == rows[f]@.update(i, true),
    ensures
        falses_rows(rows.update(f, row)) + 1 == falses_rows(rows),
    decreases rows.len(),
{
    lemma_falses_set(rows[f]@, i);
    if f < rows.len() - 1 {
        assert(rows.update(f, row).drop_last() =~= rows.drop_last().update(f, row));
        lemma_falses_rows_set(rows.drop_last(), f, row, i);
    } else {
        assert(rows.update(f, row).drop_last() =~= rows.drop_last());
    }
}

/// What every marking step keeps.
pub open spec fn step_ok(
    files: Seq<FileModel>,
    roots: Seq<nat>,
    except: Option<Task>,
    old_mk: Marker,
    new_mk: Marker,
) -> bool {
    &&& shaped(files, new_mk)
    &&& sound(files, roots, marks_of(new_mk))
    &&& done_except(files, new_mk, except)
    &&& stack_marked(files, new_mk)
    &&& within(marks_of(old_mk), marks_of(new_mk))
    &&& (unmarked(new_mk) < unmarked(old_mk) || new_mk.stack@ == old_mk.stack@)
    &&& unmarked(new_mk) <= unmarked(old_mk)
    &&& forall|t: Task| old_mk.stack@.contains(t) ==> new_mk.stack@.contains(t)
}

pub open spec fn marker_ok(files: Seq<FileModel>, roots: Seq<nat>, except: Option<Task>, mk: Marker) -> bool {
    &&& shaped(files, mk)
    &&& sound(files, roots, marks_of(mk))
    &&& done_except(files, mk, except)
    &&& stack_marked(files, mk)
}

proof fn lemma_push_keeps(s: Seq<Task>, t: Task)
    ensures
        forall|x: Task| s.contains(x) ==> s.push(t).contains(x),
        s.push(t).contains(t),
{
    assert forall|x: Task| s.contains(x) implies s.push(t).contains(x) by {
        let k = choose|k: int| 0 <= k < s.len() && s[k] == x;
        assert(s.push(t)[k] == x);
    }
    assert(s.push(t)[s.len() as int] == t);
}

/// Marks file `g` as reached, to be followed where it is new.
fn mark_file(
    mk: &mut Marker,
    g: usize,
    Ghost(files): Ghost<Seq<FileModel>>,
    Ghost(roots): Ghost<Seq<nat>>,
    Ghost(except): Ghost<Option<Task>>,
)
    requires
        marker_ok(files, roots, except, *old(mk)),
        g < files.len(),
        forall|m2: Marks| #[trigger] closed(files, roots, m2) ==> m2.files.contains(g as nat),
    ensures
        step_ok(files, roots, except, *old(mk), *final(mk)),
        marks_of(*final(mk)).files.contains(g as nat),
{
    let ghost m0 = marks_of(*mk);
    if mk.files[g] {
        assert(m0.files.contains(g as nat));
        return;
    }
    let ghost old_mk = *mk;
    mk.files.set(g, true);
    mk.stack.push(Task::File(g));
    proof {
        let m1 = marks_of(*mk);
        assert(m1.files =~= m0.files.insert(g as nat));
        assert(m1.modules =~= m0.modules);
        assert(m1.symbols =~= m0.symbols);
        lemma_closed_grows(files, m0, m1);
        lemma_push_keeps(old_mk.stack@, Task::File(g));
        lemma_falses_set(old_mk.files@, g as int);
        assert(mk.files@ =~= old_mk.files@.update(g as int, true));
        assert forall|k: int| 0 <= k < mk.stack@.len() implies task_marked(files, *mk, #[trigger] mk.stack@[k]) by {
            if k < old_mk.stack@.len() {
                assert(mk.stack@[k] == old_mk.stack@[k]);
                assert(task_marked(files, old_mk, old_mk.stack@[k]));
            }
        }
    }
}

/// Marks module `g` as demanded, to be followed where it is new.
fn mark_module(
    mk: &mut Marker,
    g: usize,
    Ghost(files): Ghost<Seq<FileModel>>,
    Ghost(roots): Ghost<Seq<nat>>,
    Ghost(except): Ghost<Option<Task>>,
)
    requires
        marker_ok(files, roots, except, *old(mk)),
        g < files.len(),
        forall|m2: Marks| #[trigger] closed(files, roots, m2) ==> m2.modules.contains(g as nat),
    ensures
        step_ok(files, roots, except, *old(mk), *final(mk)),
        marks_of(*final(mk)).modules.contains(g as nat),
{
    let ghost m0 = marks_of(*mk);
    if mk.modules[g] {
        assert(m0.modules.contains(g as nat));
        return;
    }
    let ghost old_mk = *mk;
    mk.modules.set(g, true);
    mk.stack.push(Task::Module(g));
    proof {
        let m1 = marks_of(*mk);
        assert(m1.modules =~= m0.modules.insert(g as nat));
        assert(m1.files =~= m0.files);
        assert(m1.symbols =~= m0.symbols);
        lemma_closed_grows(files, m0, m1);
        lemma_push_keeps(old_mk.stack@, Task::Module(g));
        lemma_falses_set(old_mk.modules@, g as int);
        assert(mk.modules@ =~= old_mk.modules@.update(g as int, true));
        assert forall|k: int| 0 <= k < mk.stack@.len() implies task_marked(files, *mk, #[trigger] mk.stack@[k]) by {
            if k < old_mk.stack@.len() {
                assert(mk.stack@[k] == old_mk.stack@[k]);
                assert(task_marked(files, old_mk, old_mk.stack@[k]));
            }
        }
    }
}

/// Marks declaration `i` of file `g` as reached, to be followed where it is
/// new.
fn mark_symbol(
    mk: &mut Marker,
    g: usize,
    i: usize,
    Ghost(files): Ghost<Seq<FileModel>>,
    Ghost(roots): Ghost<Seq<nat>>,
    Ghost(except): Ghost<Option<Task>>,
)
    requires
        marker_ok(files, roots, except, *old(mk)),
        g < files.len(),
        i < files[g as int].symbols.len(),
        forall|m2: Marks| #[trigger] closed(files, roots, m2) ==> m2.symbols.contains((g as nat, i as nat)),
    ensures
        step_ok(files, roots, except, *old(mk), *final(mk)),
        marks_of(*final(mk)).symbols.contains((g as nat, i as nat)),
{
    let ghost m0 = marks_of(*mk);
    if mk.symbols[g][i] {
        assert(m0.symbols.contains((g as nat, i as nat)));
        return;
    }
    let ghost old_mk = *mk;
    mk.symbols[g].set(i, true);
    mk.stack.push(Task::Symbol(g, i));
    proof {
        let m1 = marks_of(*mk);
        assert(mk.symbols@ =~= old_mk.symbols@.update(g as int, mk.symbols@[g as int]));
        assert(mk.symbols@[g as int]@ =~= old_mk.symbols@[g as int]@.update(i as int, true));
        assert(m1.symbols =~= m0.symbols.insert((g as nat, i as nat)));
        assert(m1.files =~= m0.files);
        assert(m1.modules =~= m0.modules);
        lemma_closed_grows(files, m0, m1);
        lemma_push_keeps(old_mk.stack@, Task::Symbol(g, i));
        lemma_falses_rows_set(old_mk.symbols@, g as int, mk.symbols@[g as int], i as int);
        assert forall|k: int| 0 <= k < mk.stack@.len() implies task_marked(files, *mk, #[trigger] mk.stack@[k]) by {
            if k < old_mk.stack@.len() {
                assert(mk.stack@[k] == old_mk.stack@[k]);
                assert(task_marked(files, old_mk, old_mk.stack@[k]));
            }
        }
        assert forall|f: int| 0 <= f < files.len() implies (#[trigger] mk.symbols@[f])@.len() == files[f].symbols.len() by {
            if f != g {
                assert(mk.symbols@[f] == old_mk.symbols@[f]);
            }
        }
    }
}

proof fn lemma_step_trans(
    files: Seq<FileModel>,
    roots: Seq<nat>,
    except: Option<Task>,
    a: Marker,
    b: Marker,
    c: Marker,
)
    requires
        step_ok(files, roots, except, a, b),
        step_ok(files, roots, except, b, c),
    ensures
        step_ok(files, roots, except, a, c),
{
}

/// Demands module `f`: its file, its exported declarations, and the modules
/// it re-exports whole.
fn demand_module(
    files: &Vec<SpecFile>,
    mk: &mut Marker,
    f: usize,
    Ghost(roots): Ghost<Seq<nat>>,
)
    requires
        marker_ok(views(files@), roots, Some(Task::Module(f)), *old(mk)),
        task_marked(views(files@), *old(mk), Task::Module(f)),
        targets_valid(views(files@)),
    ensures
        step_ok(views(files@), roots, Some(Task::Module(f)), *old(mk), *final(mk)),
        module_closed(views(files@), f as nat, marks_of(*final(mk))),
{
    let ghost fs = views(files@);
    let ghost ex = Some(Task::Module(f));
    let ghost start = *mk;
    assert(marks_of(*mk).modules.contains(f as nat));
    mark_file(mk, f, Ghost(fs), Ghost(roots), Ghost(ex));
    assert(fs[f as int] == files@[f as int]@);
    let file = &files[f];
    let mut i: usize = 0;
    while i < file.symbols.len()
        invariant
            fs == views(files@),
            f < files@.len(),
            *file == files@[f as int],
            fs[f as int] == file@,
            i <= file.symbols@.len(),
            ex == Some(Task::Module(f)),
            marker_ok(fs, roots, ex, *mk),
            step_ok(fs, roots, ex, start, *mk),
            marks_of(start).modules.contains(f as nat),
            marks_of(*mk).files.contains(f as nat),
            forall|j: int|
                0 <= j < i && (#[trigger] fs[f as int].symbols[j]).exported ==> marks_of(
                    *mk,
                ).symbols.contains((f as nat, j as nat)),
        decreases file.symbols@.len() - i,
    {
        assert(fs[f as int].symbols[i as int] == file.symbols@[i as int]@);
        if file.symbols[i].exported {
            let ghost before = *mk;
            mark_symbol(mk, f, i, Ghost(fs), Ghost(roots), Ghost(ex));
            proof {
                lemma_step_trans(fs, roots, ex, start, before, *mk);
            }
        }
        i += 1;
    }
    let mut k: usize = 0;
    while k < file.statements.len()
        invariant
            fs == views(files@),
            f < files@.len(),
            *file == files@[f as int],
            fs[f as int] == file@,
            k <= file.statements@.len(),
            ex == Some(Task::Module(f)),
            targets_valid(fs),
            marker_ok(fs, roots, ex, *mk),
            step_ok(fs, roots, ex, start, *mk),
            marks_of(start).modules.contains(f as nat),
            marks_of(*mk).files.contains(f as nat),
            forall|j: int|
                0 <= j < fs[f as int].symbols.len() && (#[trigger] fs[f as int].symbols[j]).exported
                    ==> marks_of(*mk).symbols.contains((f as nat, j as nat)),
            forall|j: int|
                0 <= j < k ==> match (#[trigger] fs[f as int].statements[j]).target {
                    Some(t) => fs[f as int].statements[j].kind == StatementKind::Export
                        && fs[f as int].statements[j].wildcard ==> marks_of(*mk).modules.contains(t),
                    None => true,
                },
        decreases file.statements@.len() - k,
    {
        let s = &file.statements[k];
        assert(fs[f as int].statements[k as int] == s@);
        let is_export = match s.kind {
            StatementKind::Export => true,
            _ => false,
        };
        if let Some(t) = s.target {
            if is_export && s.wildcard {
                assert(t < files@.len());
                let ghost before = *mk;
                mark_module(mk, t, Ghost(fs), Ghost(roots), Ghost(ex));
                proof {
                    lemma_step_trans(fs, roots, ex, start, before, *mk);
                }
            }
        }
        k += 1;
    }
}

pub proof fn lemma_statements_grow(files: Seq<FileModel>, f: nat, upto: int, m1: Marks, m2: Marks)
    requires
        within(m1, m2),
        f < files.len(),
        forall|k: int| 0 <= k < upto ==> #[trigger] statement_closed(files, f, k, m1),
    ensures
        forall|k: int| 0 <= k < upto ==> #[trigger] statement_closed(files, f, k, m2),
{
    assert forall|k: int| 0 <= k < upto implies #[trigger] statement_closed(files, f, k, m2) by {
        assert(statement_closed(files, f, k, m1));
        let s = files[f as int].statements[k];
        match s.target {
            Some(t) => {
                if s.kind != StatementKind::Use {
                    assert forall|j: int| 0 <= j < s.items.len() implies item_closed(files, t, #[trigger] s.items[j].name, m2) by {
                        assert(item_closed(files, t, s.items[j].name, m1));
                        match resolve_export_spec(files, t, s.items[j].name) {
                            Some((g, q)) => {
                                assert(m1.symbols.contains((g, q)));
                            },
                            None => {},
                        }
                    }
                }
            },
            None => {},
        }
    }
}

/// Follows file `f`: the files its statements name, and what its imports
/// and exports bring in.
fn reach_file(
    files: &Vec<SpecFile>,
    mk: &mut Marker,
    f: usize,
    Ghost(roots): Ghost<Seq<nat>>,
)
    requires
        marker_ok(views(files@), roots, Some(Task::File(f)), *old(mk)),
        task_marked(views(files@), *old(mk), Task::File(f)),
        targets_valid(views(files@)),
    ensures
        step_ok(views(files@), roots, Some(Task::File(f)), *old(mk), *final(mk)),
        file_closed(views(files@), f as nat, marks_of(*final(mk))),
{
    let ghost fs = views(files@);
    let ghost ex = Some(Task::File(f));
    let ghost start = *mk;
    assert(marks_of(*mk).files.contains(f as nat));
    assert(fs[f as int] == files@[f as int]@);
    let file = &files[f];
    let mut k: usize = 0;
    while k < file.statements.len()
        invariant
            fs == views(files@),
            f < files@.len(),
            *file == files@[f as int],
            fs[f as int] == file@,
            k <= file.statements@.len(),
            ex == Some(Task::File(f)),
            targets_valid(fs),
            marker_ok(fs, roots, ex, *mk),
            step_ok(fs, roots, ex, start, *mk) || *mk == start,
            marks_of(*mk).files.contains(f as nat),
            forall|j: int| 0 <= j < k ==> #[trigger] statement_closed(fs, f as nat, j, marks_of(*mk)),
        decreases file.statements@.len() - k,
    {
        let s = &file.statements[k];
        assert(fs[f as int].statements[k as int] == s@);
        let ghost base = *mk;
        if let Some(t) = s.target {
            assert(t < files@.len());
            assert forall|m2: Marks| #[trigger] closed(fs, roots, m2) implies m2.files.contains(t as nat) by {
                assert(within(marks_of(*mk), m2));
                assert(file_closed(fs, f as nat, m2));
                assert(statement_closed(fs, f as nat, k as int, m2));
            }
            mark_file(mk, t, Ghost(fs), Ghost(roots), Ghost(ex));
            let ghost after_file = *mk;
            let is_use = match s.kind {
                StatementKind::Use => true,
                _ => false,
            };
            if !is_use {
                if s.wildcard {
                    assert forall|m2: Marks| #[trigger] closed(fs, roots, m2) implies m2.modules.contains(t as nat) by {
                        assert(within(marks_of(*mk), m2));
                        assert(file_closed(fs, f as nat, m2));
                        assert(statement_closed(fs, f as nat, k as int, m2));
                    }
                    let ghost before = *mk;
                    mark_module(mk, t, Ghost(fs), Ghost(roots), Ghost(ex));
                    proof {
                        lemma_step_trans(fs, roots, ex, base, before, *mk);
                    }
                }
                let ghost after_module = *mk;
                let mut j: usize = 0;
                while j < s.items.len()
                    invariant
                        fs == views(files@),
                        f < files@.len(),
                        t < files@.len(),
                        *file == files@[f as int],
                        fs[f as int] == file@,
                        k < file.statements@.len(),
                        *s == file.statements@[k as int],
                        fs[f as int].statements[k as int] == s@,
                        s@.target == Some(t as nat),
                        s@.kind != StatementKind::Use,
                        j <= s.items@.len(),
                        ex == Some(Task::File(f)),
                        targets_valid(fs),
                        marker_ok(fs, roots, ex, *mk),
                        step_ok(fs, roots, ex, base, *mk),
                        marks_of(*mk).files.contains(f as nat),
                        marks_of(*mk).files.contains(t as nat),
                        s@.wildcard ==> marks_of(*mk).modules.contains(t as nat),
                        forall|jj: int| 0 <= jj < j ==> item_closed(fs, t as nat, #[trigger] s@.items[jj].name, marks_of(*mk)),
                    decreases s.items@.len() - j,
                {
                    assert(s@.items[j as int] == s.items@[j as int]@);
                    let found = crate::graph::resolve_export(files, t, &s.items[j].name);
                    proof {
                        crate::graph::lemma_export_valid(fs, t as nat, s@.items[j as int].name, Set::empty(), fs.len());
                    }
                    if let Some((g, q)) = found {
                        assert forall|m2: Marks| #[trigger] closed(fs, roots, m2) implies m2.symbols.contains((g as nat, q as nat)) by {
                            assert(within(marks_of(*mk), m2));
                            assert(file_closed(fs, f as nat, m2));
                            assert(statement_closed(fs, f as nat, k as int, m2));
                            assert(item_closed(fs, t as nat, s@.items[j as int].name, m2));
                        }
                        let ghost before = *mk;
                        mark_symbol(mk, g, q, Ghost(fs), Ghost(roots), Ghost(ex));
                        proof {
                            lemma_step_trans(fs, roots, ex, base, before, *mk);
                            assert forall|jj: int| 0 <= jj < j implies item_closed(fs, t as nat, #[trigger] s@.items[jj].name, marks_of(*mk)) by {
                                assert(item_closed(fs, t as nat, s@.items[jj].name, marks_of(before)));
                                match resolve_export_spec(fs, t as nat, s@.items[jj].name) {
                                    Some((g2, q2)) => {
                                        assert(marks_of(before).symbols.contains((g2, q2)));
                                    },
                                    None => {},
                                }
                            }
                        }
                    }
                    j += 1;
                }
            }
            proof {
                lemma_statements_grow(fs, f as nat, k as int, marks_of(base), marks_of(*mk));
                assert(statement_closed(fs, f as nat, k as int, marks_of(*mk)));
            }
        }
        proof {
            if *mk != base {
                if base == start {
                } else {
                    lemma_step_trans(fs, roots, ex, start, base, *mk);
                }
            }
        }
        k += 1;
    }
}

/// Follows declaration `i` of file `f`: its file, and what its references
/// and its keyword point at.
fn reach_symbol(
    files: &Vec<SpecFile>,
    mk: &mut Marker,
    f: usize,
    i: usize,
    Ghost(roots): Ghost<Seq<nat>>,
)
    requires
        marker_ok(views(files@), roots, Some(Task::Symbol(f, i)), *old(mk)),
        task_marked(views(files@), *old(mk), Task::Symbol(f, i)),
        targets_valid(views(files@)),
    ensures
        step_ok(views(files@), roots, Some(Task::Symbol(f, i)), *old(mk), *final(mk)),
        symbol_closed(views(files@), f as nat, i as nat, marks_of(*final(mk))),
{
    let ghost fs = views(files@);
    let ghost ex = Some(Task::Symbol(f, i));
    let ghost start = *mk;
    assert(marks_of(*mk).symbols.contains((f as nat, i as nat)));
    assert(fs[f as int] == files@[f as int]@);
    assert forall|m2: Marks| #[trigger] closed(fs, roots, m2) implies m2.files.contains(f as nat) by {
        assert(within(marks_of(*mk), m2));
        assert(m2.symbols.contains((f as nat, i as nat)));
        assert(symbol_closed(fs, f as nat, i as nat, m2));
    }
    mark_file(mk, f, Ghost(fs), Ghost(roots), Ghost(ex));
    let targets = crate::graph::symbol_targets(files, f, i);
    let ghost tv = crate::graph::symbol_targets_spec(fs, f as nat, i as nat);
    proof {
        crate::graph::lemma_symbol_targets_valid(fs, f as nat, i as nat);
    }
    let mut p: usize = 0;
    while p < targets.len()
        invariant
            fs == views(files@),
            f < files@.len(),
            i < fs[f as int].symbols.len(),
            ex == Some(Task::Symbol(f, i)),
            targets_valid(fs),
            tv == crate::graph::symbol_targets_spec(fs, f as nat, i as nat),
            targets@.map_values(|q: EndPoint| q@) == tv,
            forall|q: int| 0 <= q < tv.len() ==> crate::graph::point_valid(fs, #[trigger] tv[q]),
            p <= targets@.len(),
            marker_ok(fs, roots, ex, *mk),
            step_ok(fs, roots, ex, start, *mk),
            marks_of(*mk).files.contains(f as nat),
            marks_of(start).symbols.contains((f as nat, i as nat)),
            forall|q: int| 0 <= q < p ==> point_marked(#[trigger] tv[q], marks_of(*mk)),
        decreases targets@.len() - p,
    {
        let point = targets[p];
        assert(tv[p as int] == point@);
        assert(crate::graph::point_valid(fs, tv[p as int]));
        let ghost before = *mk;
        match point.symbol {
            Some(j) => {
                assert forall|m2: Marks| #[trigger] closed(fs, roots, m2) implies m2.symbols.contains((point.file as nat, j as nat)) by {
                    assert(within(marks_of(*mk), m2));
                    assert(m2.symbols.contains((f as nat, i as nat)));
                    assert(symbol_closed(fs, f as nat, i as nat, m2));
                    assert(point_marked(tv[p as int], m2));
                }
                mark_symbol(mk, point.file, j, Ghost(fs), Ghost(roots), Ghost(ex));
            },
            None => {
                assert forall|m2: Marks| #[trigger] closed(fs, roots, m2) implies m2.files.contains(point.file as nat) by {
                    assert(within(marks_of(*mk), m2));
                    assert(m2.symbols.contains((f as nat, i as nat)));
                    assert(symbol_closed(fs, f as nat, i as nat, m2));
                    assert(point_marked(tv[p as int], m2));
                }
                mark_file(mk, point.file, Ghost(fs), Ghost(roots), Ghost(ex));
            },
        }
        proof {
            lemma_step_trans(fs, roots, ex, start, before, *mk);
            assert forall|q: int| 0 <= q < p + 1 implies point_marked(#[trigger] tv[q], marks_of(*mk)) by {
                if q < p {
                    assert(point_marked(tv[q], marks_of(before)));
                    match tv[q].symbol {
                        Some(j2) => {
                            assert(marks_of(before).symbols.contains((tv[q].file, j2)));
                        },
                        None => {},
                    }
                }
            }
        }
        p += 1;
    }
}

/// Marks everything reached from the modules `roots`.
pub fn mark_reachable(files: &Vec<SpecFile>, roots: &Vec<usize>) -> (r: Marker)
    requires
        targets_valid(views(files@)),
        forall|k: int| 0 <= k < roots@.len() ==> #[trigger] roots@[k] < files@.len(),
    ensures
        shaped(views(files@), r),
        least_closed(views(files@), crate::model::ids(roots@), marks_of(r)),
{
    let ghost fs = views(files@);
    let ghost rv = crate::model::ids(roots@);
    let mut mk = Marker { files: Vec::new(), modules: Vec::new(), symbols: Vec::new(), stack: Vec::new() };
    let mut f: usize = 0;
    while f < files.len()
        invariant
            fs == views(files@),
            f <= files@.len(),
            mk.files@.len() == f,
            mk.modules@.len() == f,
            mk.symbols@.len() == f,
            mk.stack@.len() == 0,
            forall|g: int| 0 <= g < f ==> !mk.files@[g] && !mk.modules@[g],
            forall|g: int| 0 <= g < f ==> (#[trigger] mk.symbols@[g])@.len() == fs[g].symbols.len(),
            forall|g: int, j: int| 0 <= g < f && 0 <= j < mk.symbols@[g]@.len() ==> !mk.symbols@[g]@[j],
        decreases files@.len() - f,
    {
        let mut row: Vec<bool> = Vec::new();
        let mut j: usize = 0;
        assert(fs[f as int] == files@[f as int]@);
        while j < files[f].symbols.len()
            invariant
                f < files@.len(),
                j <= files@[f as int].symbols@.len(),
                row@.len() == j,
                forall|q: int| 0 <= q < j ==> !row@[q],
            decreases files@[f as int].symbols@.len() - j,
        {
            row.push(false);
            j += 1;
        }
        mk.files.push(false);
        mk.modules.push(false);
        mk.symbols.push(row);
        f += 1;
    }
    proof {
        let m0 = marks_of(mk);
        assert(m0.files =~= Set::<nat>::empty());
        assert(m0.modules =~= Set::<nat>::empty());
        assert(m0.symbols =~= Set::<(nat, nat)>::empty());
        assert forall|m2: Marks| #[trigger] closed(fs, rv, m2) implies within(m0, m2) by {}
    }
    let mut k: usize = 0;
    while k < roots.len()
        invariant
            fs == views(files@),
            rv == crate::model::ids(roots@),
            targets_valid(fs),
            forall|q: int| 0 <= q < roots@.len() ==> #[trigger] roots@[q] < files@.len(),
            k <= roots@.len(),
            marker_ok(fs, rv, None, mk),
            forall|q: int| 0 <= q < k ==> marks_of(mk).modules.contains(#[trigger] rv[q]),
        decreases roots@.len() - k,
    {
        let root = roots[k];
        assert(rv[k as int] == root as nat);
        assert forall|m2: Marks| #[trigger] closed(fs, rv, m2) implies m2.modules.contains(root as nat) by {
            assert(m2.modules.contains(rv[k as int]));
        }
        mark_module(&mut mk, root, Ghost(fs), Ghost(rv), Ghost(None));
        k += 1;
    }
    let count = files.len();
    while mk.stack.len() > 0
        invariant
            fs == views(files@),
            fs.len() == count,
            rv == crate::model::ids(roots@),
            targets_valid(fs),
            marker_ok(fs, rv, None, mk),
            forall|q: int| 0 <= q < rv.len() ==> marks_of(mk).modules.contains(#[trigger] rv[q]),
        decreases unmarked(mk), mk.stack@.len(),
    {
        let ghost full = mk;
        let task = mk.stack.pop().unwrap();
        proof {
            assert(full.stack@ =~= mk.stack@.push(task));
            assert(task_marked(fs, full, full.stack@[full.stack@.len() - 1]));
            assert forall|x: Task| full.stack@.contains(x) && x != task implies mk.stack@.contains(x) by {
                let q = choose|q: int| 0 <= q < full.stack@.len() && full.stack@[q] == x;
                assert(q < mk.stack@.len());
                assert(mk.stack@[q] == x);
            }
            assert(marks_of(mk) == marks_of(full));
            assert forall|q: int| 0 <= q < mk.stack@.len() implies task_marked(fs, mk, #[trigger] mk.stack@[q]) by {
                assert(mk.stack@[q] == full.stack@[q]);
                assert(task_marked(fs, full, full.stack@[q]));
            }
        }
        let ghost popped = mk;
        match task {
            Task::File(f) => {
                reach_file(files, &mut mk, f, Ghost(rv));
            },
            Task::Module(f) => {
                demand_module(files, &mut mk, f, Ghost(rv));
            },
            Task::Symbol(f, i) => {
                reach_symbol(files, &mut mk, f, i, Ghost(rv));
            },
        }
        proof {
            let m = marks_of(mk);
            assert(shaped(fs, mk));
            assert forall|f: nat| #[trigger] m.files.contains(f) && settled(mk, None, Task::File(f as usize)) implies file_closed(fs, f, m) by {
                assert(f < count);
                if task != Task::File(f as usize) {
                    assert(settled(mk, Some(task), Task::File(f as usize)));
                }
            }
            assert forall|f: nat| #[trigger] m.modules.contains(f) && settled(mk, None, Task::Module(f as usize)) implies module_closed(fs, f, m) by {
                assert(f < count);
                if task != Task::Module(f as usize) {
                    assert(settled(mk, Some(task), Task::Module(f as usize)));
                }
            }
            assert forall|f: nat, i: nat| #[trigger] m.symbols.contains((f, i)) && settled(mk, None, Task::Symbol(f as usize, i as usize)) implies symbol_closed(fs, f, i, m) by {
                assert(f < count);
                assert(i < mk.symbols@[f as int]@.len());
                assert(mk.symbols@[f as int]@.len() == mk.symbols@[f as int].len());
                if task != Task::Symbol(f as usize, i as usize) {
                    assert(settled(mk, Some(task), Task::Symbol(f as usize, i as usize)));
                }
            }
        }
    }
    proof {
        let m = marks_of(mk);
        assert forall|f: nat| #[trigger] m.files.contains(f) implies file_closed(fs, f, m) by {
            assert(settled(mk, None, Task::File(f as usize)));
        }
        assert forall|f: nat| #[trigger] m.modules.contains(f) implies module_closed(fs, f, m) by {
            assert(settled(mk, None, Task::Module(f as usize)));
        }
        assert forall|f: nat, i: nat| #[trigger] m.symbols.contains((f, i)) implies symbol_closed(fs, f, i, m) by {
            assert(settled(mk, None, Task::Symbol(f as usize, i as usize)));
        }
    }
    mk
}

// --------------------------------------------------------------------- laws

/// The roots are reached, and so is every declaration they export.
pub proof fn law_roots_are_reached(files: Seq<FileModel>, roots: Seq<nat>, m: Marks, k: int)
    requires
        least_closed(files, roots, m),
        0 <= k < roots.len(),
        roots[k] < files.len(),
    ensures
        m.files.contains(roots[k]),
        forall|i: int|
            0 <= i < files[roots[k] as int].symbols.len() && (#[trigger] files[roots[k] as int].symbols[i]).exported
                ==> m.symbols.contains((roots[k], i as nat)),
{
    assert(m.modules.contains(roots[k]));
    assert(module_closed(files, roots[k], m));
}

/// A declaration that is reached lies in a file that is reached.
pub proof fn law_reached_declarations_lie_in_reached_files(
    files: Seq<FileModel>,
    roots: Seq<nat>,
    m: Marks,
    f: nat,
    i: nat,
)
    requires
        least_closed(files, roots, m),
        m.symbols.contains((f, i)),
    ensures
        m.files.contains(f),
{
    assert(symbol_closed(files, f, i, m));
}

/// Nothing is reached that the rules do not ask for: whatever meets them
/// holds everything that is reached.
pub proof fn law_only_what_is_needed_is_reached(files: Seq<FileModel>, roots: Seq<nat>, m: Marks, other: Marks)
    requires
        least_closed(files, roots, m),
        closed(files, roots, other),
    ensures
        m.files.subset_of(other.files),
        m.symbols.subset_of(other.symbols),
{
    assert(within(m, other));
}

// ------------------------------------------------------- whole re-exports

/// File `f` re-exports module `t` whole: `from t export *`.
pub open spec fn reexports_whole(files: Seq<FileModel>, f: nat, t: nat) -> bool {
    &&& f < files.len()
    &&& exists|k: int|
        0 <= k < files[f as int].statements.len() && #[trigger] files[f as int].statements[k].target == Some(t)
            && files[f as int].statements[k].kind == StatementKind::Export
            && files[f as int].statements[k].wildcard
}

/// Each module of `c` re-exports the next one whole.
pub open spec fn whole_chain(files: Seq<FileModel>, c: Seq<nat>) -> bool {
    forall|i: int| 0 <= i < c.len() - 1 ==> reexports_whole(files, #[trigger] c[i], c[i + 1])
}

/// A chain of whole re-exports leads from `f` to `t`, one step or more.
pub open spec fn leads_to(files: Seq<FileModel>, f: nat, t: nat) -> bool {
    exists|c: Seq<nat>| c.len() >= 2 && c[0] == f && c.last() == t && #[trigger] whole_chain(files, c)
}

/// Module `f` re-exports itself whole, through other modules or directly.
pub open spec fn on_whole_cycle(files: Seq<FileModel>, f: nat) -> bool {
    leads_to(files, f, f)
}

/// A demanded module re-exports itself whole. Demanding it demands the
/// modules it re-exports whole, each time anew, so the demand never ends.
pub open spec fn demand_loops(files: Seq<FileModel>, m: Marks) -> bool {
    exists|f: nat| m.modules.contains(f) && #[trigger] on_whole_cycle(files, f)
}

/// What `seen` holds is led to from `f`.
pub open spec fn led_from(files: Seq<FileModel>, f: nat, seen: Seq<bool>) -> bool {
    forall|v: int| 0 <= v < seen.len() && #[trigger] seen[v] ==> leads_to(files, f, v as nat)
}

/// Marks in `seen` the modules `v` re-exports whole, and says whether any
/// was not marked yet.
fn mark_reexported(files: &Vec<SpecFile>, v: usize, f: Ghost<nat>, seen: &mut Vec<bool>) -> (changed: bool)
    requires
        targets_valid(views(files@)),
        v < files@.len(),
        old(seen)@.len() == files@.len(),
        v == f@ || leads_to(views(files@), f@, v as nat),
        led_from(views(files@), f@, old(seen)@),
    ensures
        final(seen)@.len() == old(seen)@.len(),
        led_from(views(files@), f@, final(seen)@),
        forall|u: int| 0 <= u < old(seen)@.len() && old(seen)@[u] ==> #[trigger] final(seen)@[u],
        forall|t: nat| reexports_whole(views(files@), v as nat, t) ==> t < final(seen)@.len() && final(seen)@[t as int],
        changed ==> falses(final(seen)@) < falses(old(seen)@),
        !changed ==> final(seen)@ == old(seen)@,
{
    let ghost fs = views(files@);
    let ghost start = seen@;
    assert(fs[v as int] == files@[v as int]@);
    let mut changed = false;
    let mut k: usize = 0;
    while k < files[v].statements.len()
        invariant
            fs == views(files@),
            targets_valid(fs),
            v < files@.len(),
            fs[v as int] == files@[v as int]@,
            v == f@ || leads_to(fs, f@, v as nat),
            k <= files@[v as int].statements@.len(),
            seen@.len() == start.len(),
            start.len() == files@.len(),
            led_from(fs, f@, seen@),
            forall|u: int| 0 <= u < start.len() && start[u] ==> #[trigger] seen@[u],
            forall|j: int|
                0 <= j < k && (#[trigger] fs[v as int].statements[j]).kind == StatementKind::Export
                    && fs[v as int].statements[j].wildcard ==> match fs[v as int].statements[j].target {
                    Some(t) => t < seen@.len() && seen@[t as int],
                    None => true,
                },
            changed ==> falses(seen@) < falses(start),
            !changed ==> seen@ == start,
        decreases files@[v as int].statements@.len() - k,
    {
        let st = &files[v].statements[k];
        assert(fs[v as int].statements[k as int] == st@);
        if st.kind == StatementKind::Export && st.wildcard {
            match st.target {
                Some(t) => {
                    assert(t < files@.len());
                    if !seen[t] {
                        let ghost before = seen@;
                        proof {
                            assert(reexports_whole(fs, v as nat, t as nat));
                            if v == f@ {
                                let c = seq![f@, t as nat];
                                assert(whole_chain(fs, c));
                            } else {
                                let c = choose|c: Seq<nat>| c.len() >= 2 && c[0] == f@ && c.last() == v as nat && #[trigger] whole_chain(fs, c);
                                let c2 = c.push(t as nat);
                                assert forall|i: int| 0 <= i < c2.len() - 1 implies reexports_whole(fs, #[trigger] c2[i], c2[i + 1]) by {
                                    if i < c.len() - 1 {
                                        assert(c2[i] == c[i] && c2[i + 1] == c[i + 1]);
                                    }
                                }
                                assert(whole_chain(fs, c2));
                            }
                            lemma_falses_set(before, t as int);
                        }
                        seen.set(t, true);
                        changed = true;
                    }
                },
                None => {},
            }
        }
        k += 1;
    }
    proof {
        assert forall|t: nat| reexports_whole(fs, v as nat, t) implies t < seen@.len() && seen@[t as int] by {
            let j = choose|j: int|
                0 <= j < fs[v as int].statements.len() && #[trigger] fs[v as int].statements[j].target == Some(t)
                    && fs[v as int].statements[j].kind == StatementKind::Export
                    && fs[v as int].statements[j].wildcard;
            assert(fs[v as int].statements[j].kind == StatementKind::Export);
        }
    }
    changed
}

proof fn lemma_closed_chain(files: Seq<FileModel>, f: nat, seen: Seq<bool>, c: Seq<nat>, i: int)
    requires
        forall|t: nat| #[trigger] reexports_whole(files, f, t) ==> t < seen.len() && seen[t as int],
        forall|u: nat, t: nat| u < seen.len() && seen[u as int] && #[trigger] reexports_whole(files, u, t) ==> t < seen.len() && seen[t as int],
        c.len() >= 2,
        c[0] == f,
        whole_chain(files, c),
        1 <= i < c.len(),
    ensures
        c[i] < seen.len() && seen[c[i] as int],
    decreases i,
{
    assert(reexports_whole(files, c[i - 1], c[i]));
    if i > 1 {
        lemma_closed_chain(files, f, seen, c, i - 1);
    }
}

/// Whether module `f` re-exports itself whole.
pub fn whole_cycle_at(files: &Vec<SpecFile>, f: usize) -> (r: bool)
    requires
        targets_valid(views(files@)),
        f < files@.len(),
    ensures
        r == on_whole_cycle(views(files@), f as nat),
{
    let ghost fs = views(files@);
    let n = files.len();
    let mut seen: Vec<bool> = Vec::new();
    while seen.len() < n
        invariant
            seen@.len() <= n,
            n == files@.len(),
            forall|u: int| 0 <= u < seen@.len() ==> !#[trigger] seen@[u],
        decreases n - seen@.len(),
    {
        seen.push(false);
    }
    mark_reexported(files, f, Ghost(f as nat), &mut seen);
    let ghost first = seen@;
    let mut changed = true;
    while changed
        invariant
            fs == views(files@),
            targets_valid(fs),
            f < files@.len(),
            n == files@.len(),
            seen@.len() == files@.len(),
            led_from(fs, f as nat, seen@),
            forall|t: nat| reexports_whole(fs, f as nat, t) ==> t < seen@.len() && seen@[t as int],
            !changed ==> forall|u: nat, t: nat| u < seen@.len() && seen@[u as int] && #[trigger] reexports_whole(fs, u, t) ==> t < seen@.len() && seen@[t as int],
        decreases falses(seen@) + if changed {
            1nat
        } else {
            0nat
        },
    {
        changed = false;
        let ghost pass = seen@;
        let mut v: usize = 0;
        while v < n
            invariant
                fs == views(files@),
                targets_valid(fs),
                f < files@.len(),
                n == files@.len(),
                v <= n,
                seen@.len() == n,
                pass.len() == n,
                led_from(fs, f as nat, seen@),
                forall|u: int| 0 <= u < pass.len() && pass[u] ==> #[trigger] seen@[u],
                forall|t: nat| reexports_whole(fs, f as nat, t) ==> t < seen@.len() && seen@[t as int],
                changed ==> falses(seen@) < falses(pass),
                !changed ==> seen@ == pass,
                !changed ==> forall|u: nat, t: nat| u < v && seen@[u as int] && #[trigger] reexports_whole(fs, u, t) ==> t < seen@.len() && seen@[t as int],
            decreases n - v,
        {
            if seen[v] {
                let ghost before = seen@;
                assert(leads_to(fs, f as nat, v as nat));
                let more = mark_reexported(files, v, Ghost(f as nat), &mut seen);
                if more {
                    changed = true;
                }
                proof {
                    assert forall|u: int| 0 <= u < pass.len() && pass[u] implies #[trigger] seen@[u] by {
                        assert(before[u]);
                    }
                    assert forall|t: nat| reexports_whole(fs, f as nat, t) implies t < seen@.len() && seen@[t as int] by {
                        assert(before[t as int]);
                    }
                }
            }
            v += 1;
        }
    }
    proof {
        if on_whole_cycle(fs, f as nat) {
            let c = choose|c: Seq<nat>| c.len() >= 2 && c[0] == f as nat && c.last() == f as nat && #[trigger] whole_chain(fs, c);
            lemma_closed_chain(fs, f as nat, seen@, c, c.len() - 1);
        }
        if seen@[f as int] {
            assert(leads_to(fs, f as nat, f as nat));
        }
    }
    seen[f]
}

/// Whether a module `mk` demands re-exports itself whole.
pub fn demand_loops_in(files: &Vec<SpecFile>, mk: &Marker) -> (r: bool)
    requires
        targets_valid(views(files@)),
        shaped(views(files@), *mk),
    ensures
        r == demand_loops(views(files@), marks_of(*mk)),
{
    let ghost fs = views(files@);
    let mut f: usize = 0;
    while f < files.len()
        invariant
            fs == views(files@),
            targets_valid(fs),
            shaped(fs, *mk),
            f <= files@.len(),
            forall|g: nat| g < f && #[trigger] marks_of(*mk).modules.contains(g) ==> !on_whole_cycle(fs, g),
        decreases files@.len() - f,
    {
        if mk.modules[f] && whole_cycle_at(files, f) {
            assert(marks_of(*mk).modules.contains(f as nat));
            return true;
        }
        assert(marks_of(*mk).modules.contains(f as nat) ==> mk.modules@[f as int]);
        f += 1;
    }
    proof {
        assert forall|g: nat| #[trigger] marks_of(*mk).modules.contains(g) implies !on_whole_cycle(fs, g) by {
            assert(g < mk.modules@.len());
        }
    }
    false
}

} // verus!
