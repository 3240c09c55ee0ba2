//! The connections of a specbase: what a name used in a file stands for,
//! where a re-exported declaration really lives, and the edges the node map
//! draws.

use vstd::prelude::*;

use crate::model::{
    opt_id, symbol_index_spec, Edge, EdgeKind, EndPoint, FileModel, SpecFile, StatementKind,
    StatementView,
};
use crate::parser::ItemModel;
use crate::text::Text;

verus! {

/// One end of a connection, as the contracts speak of it.
pub struct PointModel {
    pub file: nat,
    pub symbol: Option<nat>,
}

pub struct EdgeModel {
    pub from: PointModel,
    pub to: PointModel,
    pub kind: EdgeKind,
}

impl View for EndPoint {
    type V = PointModel;

    open spec fn view(&self) -> PointModel {
        PointModel { file: self.file as nat, symbol: opt_id(self.symbol) }
    }
}

impl View for Edge {
    type V = EdgeModel;

    open spec fn view(&self) -> EdgeModel {
        EdgeModel { from: self.from@, to: self.to@, kind: self.kind }
    }
}

pub open spec fn point(file: nat, symbol: Option<nat>) -> PointModel {
    PointModel { file, symbol }
}

/// Every statement target names a file of the specbase.
pub open spec fn targets_valid(files: Seq<FileModel>) -> bool {
    forall|f: int, k: int|
        0 <= f < files.len() && 0 <= k < files[f].statements.len() ==> match (
        #[trigger] files[f].statements[k]).target {
            Some(t) => t < files.len(),
            None => true,
        }
}

// ---------------------------------------------------------------- bindings

/// The exported name bound, by the last of the first `n` items, to the local
/// name `name`.
pub open spec fn item_binding(items: Seq<ItemModel>, n: nat, name: Text) -> Option<Text>
    decreases n,
{
    if n == 0 || n > items.len() {
        None
    } else if items[n - 1].local == name {
        Some(items[n - 1].name)
    } else {
        item_binding(items, (n - 1) as nat, name)
    }
}

/// The module and exported name that local name `name` is bound to by the
/// first `n` statements: the last binding counts.
pub open spec fn binding_fold(sts: Seq<StatementView>, n: nat, name: Text) -> Option<(nat, Text)>
    decreases n,
{
    if n == 0 || n > sts.len() {
        None
    } else {
        let prev = binding_fold(sts, (n - 1) as nat, name);
        match sts[n - 1].target {
            None => prev,
            Some(t) => match item_binding(sts[n - 1].items, sts[n - 1].items.len(), name) {
                Some(x) => Some((t, x)),
                None => prev,
            },
        }
    }
}

pub open spec fn binding_of(f: FileModel, name: Text) -> Option<(nat, Text)> {
    binding_fold(f.statements, f.statements.len(), name)
}

// --------------------------------------------------------------- re-exports

/// Follows re-exports from `file` to the declaration of `name`; the files
/// already visited are `seen`. Each level visits a file not seen before, so
/// `fuel`, the number of levels allowed, never runs out when it is the number
/// of files.
pub open spec fn export_from(
    files: Seq<FileModel>,
    file: nat,
    name: Text,
    seen: Set<nat>,
    fuel: nat,
) -> (Option<(nat, nat)>, Set<nat>)
    decreases fuel, 2nat, 0int, 0int,
{
    if fuel == 0 || seen.contains(file) || file >= files.len() {
        (None, seen)
    } else {
        let seen1 = seen.insert(file);
        match symbol_index_spec(files[file as int].symbols, name) {
            Some(i) => (Some((file, i)), seen1),
            None => export_statements(files, file, name, seen1, (fuel - 1) as nat, 0),
        }
    }
}

/// The same, through the export statements of `file` from the `k`-th on.
pub open spec fn export_statements(
    files: Seq<FileModel>,
    file: nat,
    name: Text,
    seen: Set<nat>,
    fuel: nat,
    k: nat,
) -> (Option<(nat, nat)>, Set<nat>)
    decreases fuel + 1, 1nat, files[file as int].statements.len() - k, 0int,
{
    if file >= files.len() || k >= files[file as int].statements.len() {
        (None, seen)
    } else {
        let s = files[file as int].statements[k as int];
        match s.target {
            Some(t) if s.kind == StatementKind::Export => {
                let (r1, seen1) = if s.wildcard {
                    export_from(files, t, name, seen, fuel)
                } else {
                    (None, seen)
                };
                if r1 is Some {
                    (r1, seen1)
                } else {
                    let (r2, seen2) = export_items(files, file, k, t, name, seen1, fuel, 0);
                    if r2 is Some {
                        (r2, seen2)
                    } else {
                        export_statements(files, file, name, seen2, fuel, k + 1)
                    }
                }
            },
            _ => export_statements(files, file, name, seen, fuel, k + 1),
        }
    }
}

/// The same, through the items of export statement `k` of `file` from the
/// `j`-th on: an item whose local name is `name` is followed to module `t`.
pub open spec fn export_items(
    files: Seq<FileModel>,
    file: nat,
    k: nat,
    t: nat,
    name: Text,
    seen: Set<nat>,
    fuel: nat,
    j: nat,
) -> (Option<(nat, nat)>, Set<nat>)
    decreases fuel + 1, 0nat, files[file as int].statements.len() - k,
        files[file as int].statements[k as int].items.len() - j,
{
    if file >= files.len() || k >= files[file as int].statements.len() || j
        >= files[file as int].statements[k as int].items.len() {
        (None, seen)
    } else {
        let item = files[file as int].statements[k as int].items[j as int];
        if item.local == name {
            let (r, seen1) = export_from(files, t, item.name, seen, fuel);
            if r is Some {
                (r, seen1)
            } else {
                export_items(files, file, k, t, name, seen1, fuel, j + 1)
            }
        } else {
            export_items(files, file, k, t, name, seen, fuel, j + 1)
        }
    }
}

/// The declaration `name`, exported by `file`, comes from.
pub open spec fn resolve_export_spec(files: Seq<FileModel>, file: nat, name: Text) -> Option<
    (nat, nat),
> {
    export_from(files, file, name, Set::empty(), files.len()).0
}

// ------------------------------------------------------------------ lookups

/// What name `name`, used in file `f`, stands for: a declaration of `f`, else
/// what the name is bound to, followed through re-exports (the module itself
/// where the declaration is not found).
pub open spec fn lookup_spec(files: Seq<FileModel>, f: nat, name: Text) -> Option<PointModel> {
    match symbol_index_spec(files[f as int].symbols, name) {
        Some(i) => Some(point(f, Some(i))),
        None => match binding_of(files[f as int], name) {
            None => None,
            Some((t, exported)) => match resolve_export_spec(files, t, exported) {
                Some((g, j)) => Some(point(g, Some(j))),
                None => Some(point(t, None)),
            },
        },
    }
}

/// The first `use` statement from the `k`-th on.
pub open spec fn first_use_from(sts: Seq<StatementView>, k: nat) -> Option<nat>
    decreases sts.len() - k,
{
    if k >= sts.len() {
        None
    } else if sts[k as int].kind == StatementKind::Use {
        Some(k)
    } else {
        first_use_from(sts, k + 1)
    }
}

/// The first declaration from the `k`-th on that can be used as `keyword`.
pub open spec fn alias_from(syms: Seq<crate::model::SymbolView>, keyword: Text, k: nat) -> Option<
    nat,
>
    decreases syms.len() - k,
{
    if k >= syms.len() {
        None
    } else if syms[k as int].kind_alias == Some(keyword) {
        Some(k)
    } else {
        alias_from(syms, keyword, k + 1)
    }
}

/// The declaration a keyword of file `f` comes from: only the file's first
/// `use` statement is asked, and only where it names a file of the specbase.
pub open spec fn keyword_spec(files: Seq<FileModel>, f: nat, keyword: Text) -> Option<PointModel> {
    match first_use_from(files[f as int].statements, 0) {
        None => None,
        Some(k) => match files[f as int].statements[k as int].target {
            None => None,
            Some(t) => match alias_from(files[t as int].symbols, keyword, 0) {
                None => None,
                Some(i) => Some(point(t, Some(i))),
            },
        },
    }
}

/// The points reached from declaration `i` of file `f` by its first `n`
/// references.
pub open spec fn ref_points(files: Seq<FileModel>, f: nat, i: nat, n: nat) -> Seq<PointModel>
    decreases n,
{
    let refs = files[f as int].symbols[i as int].refs;
    if n == 0 || n > refs.len() {
        seq![]
    } else {
        let prev = ref_points(files, f, i, (n - 1) as nat);
        match lookup_spec(files, f, refs[n - 1]) {
            Some(p) => prev.push(p),
            None => prev,
        }
    }
}

/// The points declaration `i` of file `f` reaches: through its references,
/// then through its keyword.
pub open spec fn symbol_targets_spec(files: Seq<FileModel>, f: nat, i: nat) -> Seq<PointModel> {
    let refs = ref_points(files, f, i, files[f as int].symbols[i as int].refs.len());
    match keyword_spec(files, f, files[f as int].symbols[i as int].kind) {
        Some(p) => refs.push(p),
        None => refs,
    }
}

// -------------------------------------------------------------------- exec

pub open spec fn views(files: Seq<SpecFile>) -> Seq<FileModel> {
    crate::model::file_views(files)
}

/// The files marked in `flags`.
pub open spec fn flag_set(flags: Seq<bool>) -> Set<nat> {
    Set::new(|i: nat| i < flags.len() && flags[i as int])
}

pub open spec fn opt_pair(r: Option<(usize, usize)>) -> Option<(nat, nat)> {
    match r {
        Some((a, b)) => Some((a as nat, b as nat)),
        None => None,
    }
}

pub open spec fn opt_point(r: Option<EndPoint>) -> Option<PointModel> {
    match r {
        Some(p) => Some(p@),
        None => None,
    }
}

/// Whether two strings are the same.
pub fn same_string(a: &String, b: &String) -> (r: bool)
    ensures
        r == (a@ == b@),
{
    let x = crate::text::chars_of(a.as_str());
    let y = crate::text::chars_of(b.as_str());
    crate::text::same(x.as_slice(), y.as_slice())
}

/// What is left of `export_statements` once items from the `j`-th on are
/// followed.
pub open spec fn after_items(
    files: Seq<FileModel>,
    file: nat,
    k: nat,
    t: nat,
    name: Text,
    seen: Set<nat>,
    fuel: nat,
    j: nat,
) -> (Option<(nat, nat)>, Set<nat>) {
    let (r2, seen2) = export_items(files, file, k, t, name, seen, fuel, j);
    if r2 is Some {
        (r2, seen2)
    } else {
        export_statements(files, file, name, seen2, fuel, k + 1)
    }
}

/// `export_from`, with `seen` kept as flags.
pub fn follow_export(
    files: &Vec<SpecFile>,
    file: usize,
    name: &String,
    seen: &mut Vec<bool>,
    fuel: usize,
) -> (r: Option<(usize, usize)>)
    requires
        old(seen)@.len() == files@.len(),
        targets_valid(views(files@)),
    ensures
        final(seen)@.len() == old(seen)@.len(),
        (opt_pair(r), flag_set(final(seen)@)) == export_from(
            views(files@),
            file as nat,
            name@,
            flag_set(old(seen)@),
            fuel as nat,
        ),
    decreases fuel,
{
    let ghost fs = views(files@);
    if fuel == 0 || file >= files.len() {
        return None;
    }
    if seen[file] {
        assert(flag_set(seen@).contains(file as nat));
        return None;
    }
    assert(!flag_set(seen@).contains(file as nat));
    let ghost s0 = flag_set(seen@);
    seen.set(file, true);
    assert(flag_set(seen@) =~= s0.insert(file as nat));
    assert(fs[file as int] == files@[file as int]@);
    if let Some(i) = files[file].symbol_index(name.as_str()) {
        return Some((file, i));
    }
    let f = &files[file];
    let ghost target = export_statements(fs, file as nat, name@, flag_set(seen@), (fuel - 1) as nat, 0);
    assert(target == export_from(fs, file as nat, name@, flag_set(old(seen)@), fuel as nat));
    let mut k: usize = 0;
    while k < f.statements.len()
        invariant
            k <= f.statements@.len(),
            fs == views(files@),
            file < files@.len(),
            *f == files@[file as int],
            fs[file as int] == f@,
            seen@.len() == files@.len(),
            targets_valid(fs),
            target == export_statements(fs, file as nat, name@, flag_set(seen@), (fuel - 1) as nat, k as nat),
            target == export_from(fs, file as nat, name@, flag_set(old(seen)@), fuel as nat),
            old(seen)@.len() == files@.len(),
            fuel > 0,
        decreases f.statements@.len() - k,
    {
        let s = &f.statements[k];
        assert(fs[file as int].statements[k as int] == s@);
        let is_export = match s.kind {
            StatementKind::Export => true,
            _ => false,
        };
        match s.target {
            Some(t) if is_export => {
                assert(t < files@.len());
                let ghost seen_k = flag_set(seen@);
                if s.wildcard {
                    let r1 = follow_export(files, t, name, seen, fuel - 1);
                    if r1.is_some() {
                        return r1;
                    }
                }
                let ghost cont = after_items(fs, file as nat, k as nat, t as nat, name@, flag_set(seen@), (fuel - 1) as nat, 0);
                assert(target == cont);
                let mut j: usize = 0;
                while j < s.items.len()
                    invariant
                        j <= s.items@.len(),
                        fs == views(files@),
                        file < files@.len(),
                        *f == files@[file as int],
                        fs[file as int] == f@,
                        k < f.statements@.len(),
                        *s == f.statements@[k as int],
                        fs[file as int].statements[k as int] == s@,
                        s.target == Some(t),
                        t < files@.len(),
                        seen@.len() == files@.len(),
                        targets_valid(fs),
                        target == after_items(fs, file as nat, k as nat, t as nat, name@, flag_set(seen@), (fuel - 1) as nat, j as nat),
                        target == export_from(fs, file as nat, name@, flag_set(old(seen)@), fuel as nat),
                        old(seen)@.len() == files@.len(),
                        fuel > 0,
                    decreases s.items@.len() - j,
                {
                    let item = &s.items[j];
                    assert(fs[file as int].statements[k as int].items[j as int] == item@);
                    if same_string(&item.local, name) {
                        let r = follow_export(files, t, &item.name, seen, fuel - 1);
                        if r.is_some() {
                            return r;
                        }
                    }
                    j += 1;
                }
            },
            _ => {},
        }
        k += 1;
    }
    None
}

/// The declaration `name`, exported by `file`, comes from.
pub fn resolve_export(files: &Vec<SpecFile>, file: usize, name: &String) -> (r: Option<(usize, usize)>)
    requires
        targets_valid(views(files@)),
    ensures
        opt_pair(r) == resolve_export_spec(views(files@), file as nat, name@),
{
    let mut seen: Vec<bool> = Vec::new();
    let mut k: usize = 0;
    while k < files.len()
        invariant
            k <= files@.len(),
            seen@.len() == k,
            forall|i: int| 0 <= i < k ==> !seen@[i],
        decreases files@.len() - k,
    {
        seen.push(false);
        k += 1;
    }
    assert(flag_set(seen@) =~= Set::<nat>::empty());
    follow_export(files, file, name, &mut seen, files.len())
}

pub open spec fn opt_binding(r: Option<(usize, String)>) -> Option<(nat, Text)> {
    match r {
        Some((t, x)) => Some((t as nat, x@)),
        None => None,
    }
}

/// `binding_of`: the module and exported name a local name is bound to.
pub fn binding(file: &SpecFile, name: &String) -> (r: Option<(usize, String)>)
    ensures
        opt_binding(r) == binding_of(file@, name@),
{
    let ghost sts = file@.statements;
    let mut found: Option<(usize, String)> = None;
    let mut k: usize = 0;
    while k < file.statements.len()
        invariant
            k <= file.statements@.len(),
            sts == file@.statements,
            opt_binding(found) == binding_fold(sts, k as nat, name@),
        decreases file.statements@.len() - k,
    {
        let s = &file.statements[k];
        assert(sts[k as int] == s@);
        if let Some(t) = s.target {
            let mut last: Option<String> = None;
            let mut j: usize = 0;
            while j < s.items.len()
                invariant
                    j <= s.items@.len(),
                    sts[k as int] == s@,
                    match last {
                        Some(x) => item_binding(s@.items, j as nat, name@) == Some(x@),
                        None => item_binding(s@.items, j as nat, name@) is None,
                    },
                decreases s.items@.len() - j,
            {
                assert(s@.items[j as int] == s.items@[j as int]@);
                if same_string(&s.items[j].local, name) {
                    last = Some(s.items[j].name.clone());
                }
                j += 1;
            }
            if let Some(x) = last {
                found = Some((t, x));
            }
        }
        k += 1;
    }
    found
}

/// `lookup_spec`: what a name used in file `f` stands for.
pub fn lookup(files: &Vec<SpecFile>, f: usize, name: &String) -> (r: Option<EndPoint>)
    requires
        f < files@.len(),
        targets_valid(views(files@)),
    ensures
        opt_point(r) == lookup_spec(views(files@), f as nat, name@),
{
    let ghost fs = views(files@);
    assert(fs[f as int] == files@[f as int]@);
    if let Some(index) = files[f].symbol_index(name.as_str()) {
        return Some(EndPoint { file: f, symbol: Some(index) });
    }
    match binding(&files[f], name) {
        None => None,
        Some((target, exported)) => match resolve_export(files, target, &exported) {
            Some((file, symbol)) => Some(EndPoint { file, symbol: Some(symbol) }),
            None => Some(EndPoint { file: target, symbol: None }),
        },
    }
}

/// `keyword_spec`: the declaration a keyword of file `f` comes from.
pub fn lookup_keyword(files: &Vec<SpecFile>, f: usize, keyword: &String) -> (r: Option<EndPoint>)
    requires
        f < files@.len(),
        targets_valid(views(files@)),
    ensures
        opt_point(r) == keyword_spec(views(files@), f as nat, keyword@),
{
    let ghost fs = views(files@);
    assert(fs[f as int] == files@[f as int]@);
    let ghost sts = fs[f as int].statements;
    let mut k: usize = 0;
    while k < files[f].statements.len()
        invariant
            k <= files@[f as int].statements@.len(),
            f < files@.len(),
            fs == views(files@),
            sts == fs[f as int].statements,
            fs[f as int] == files@[f as int]@,
            targets_valid(fs),
            first_use_from(sts, 0) == first_use_from(sts, k as nat),
        decreases files@[f as int].statements@.len() - k,
    {
        let s = &files[f].statements[k];
        assert(sts[k as int] == s@);
        let is_use = match s.kind {
            StatementKind::Use => true,
            _ => false,
        };
        if is_use {
            let t = match s.target {
                Some(t) => t,
                None => {
                    return None;
                },
            };
            assert(t < files@.len());
            assert(fs[t as int] == files@[t as int]@);
            let ghost syms = fs[t as int].symbols;
            let ghost ks = keyword_spec(fs, f as nat, keyword@);
            assert(first_use_from(sts, k as nat) == Some(k as nat));
            assert(ks == match alias_from(syms, keyword@, 0) {
                None => None,
                Some(j) => Some(point(t as nat, Some(j))),
            });
            let mut i: usize = 0;
            while i < files[t].symbols.len()
                invariant
                    i <= files@[t as int].symbols@.len(),
                    t < files@.len(),
                    fs == views(files@),
                    ks == keyword_spec(fs, f as nat, keyword@),
                    ks == match alias_from(syms, keyword@, 0) {
                        None => None,
                        Some(j) => Some(point(t as nat, Some(j))),
                    },
                    syms == files@[t as int]@.symbols,
                    alias_from(syms, keyword@, 0) == alias_from(syms, keyword@, i as nat),
                decreases files@[t as int].symbols@.len() - i,
            {
                assert(syms[i as int] == files@[t as int].symbols@[i as int]@);
                let matches = match &files[t].symbols[i].kind_alias {
                    Some(a) => same_string(a, keyword),
                    None => false,
                };
                if matches {
                    return Some(EndPoint { file: t, symbol: Some(i) });
                }
                i += 1;
            }
            return None;
        }
        k += 1;
    }
    None
}

/// `symbol_targets_spec`: the points declaration `i` of file `f` reaches.
pub fn symbol_targets(files: &Vec<SpecFile>, f: usize, i: usize) -> (r: Vec<EndPoint>)
    requires
        f < files@.len(),
        i < files@[f as int].symbols@.len(),
        targets_valid(views(files@)),
    ensures
        r@.map_values(|p: EndPoint| p@) == symbol_targets_spec(views(files@), f as nat, i as nat),
{
    let ghost fs = views(files@);
    assert(fs[f as int] == files@[f as int]@);
    assert(fs[f as int].symbols[i as int] == files@[f as int].symbols@[i as int]@);
    let sym = &files[f].symbols[i];
    let mut out: Vec<EndPoint> = Vec::new();
    let mut k: usize = 0;
    while k < sym.refs.len()
        invariant
            k <= sym.refs@.len(),
            f < files@.len(),
            i < files@[f as int].symbols@.len(),
            *sym == files@[f as int].symbols@[i as int],
            fs == views(files@),
            fs[f as int].symbols[i as int] == sym@,
            targets_valid(fs),
            out@.map_values(|p: EndPoint| p@) == ref_points(fs, f as nat, i as nat, k as nat),
        decreases sym.refs@.len() - k,
    {
        let ghost before = out@.map_values(|p: EndPoint| p@);
        assert(fs[f as int].symbols[i as int].refs[k as int] == sym.refs@[k as int]@);
        if let Some(p) = lookup(files, f, &sym.refs[k]) {
            out.push(p);
            assert(out@.map_values(|p: EndPoint| p@) =~= before.push(p@));
        }
        k += 1;
    }
    if let Some(p) = lookup_keyword(files, f, &sym.kind) {
        let ghost before = out@.map_values(|p: EndPoint| p@);
        out.push(p);
        assert(out@.map_values(|p: EndPoint| p@) =~= before.push(p@));
    }
    out
}

// -------------------------------------------------------------------- edges

pub open spec fn edge(from: PointModel, to: PointModel, kind: EdgeKind) -> EdgeModel {
    EdgeModel { from, to, kind }
}

/// The kind of edge a statement draws.
pub open spec fn link_kind(k: StatementKind) -> EdgeKind {
    if k == StatementKind::Use {
        EdgeKind::Use
    } else {
        EdgeKind::Import
    }
}

/// The edges statement `s` of file `f` draws: from the file to the module it
/// names, or to each declaration it brings in; none where it names no file
/// of the specbase or the file itself.
pub open spec fn statement_edges(files: Seq<FileModel>, f: nat, s: StatementView) -> Seq<EdgeModel> {
    match s.target {
        Some(t) if t != f => if s.items.len() == 0 {
            seq![edge(point(f, None), point(t, None), link_kind(s.kind))]
        } else {
            s.items.map_values(
                |it: ItemModel|
                    edge(
                        point(f, None),
                        point(t, symbol_index_spec(files[t as int].symbols, it.name)),
                        link_kind(s.kind),
                    ),
            )
        },
        _ => seq![],
    }
}

pub open spec fn statements_edges(files: Seq<FileModel>, f: nat, n: nat) -> Seq<EdgeModel>
    decreases n,
{
    if n == 0 || n > files[f as int].statements.len() {
        seq![]
    } else {
        statements_edges(files, f, (n - 1) as nat) + statement_edges(
            files,
            f,
            files[f as int].statements[n - 1],
        )
    }
}

/// The edges the first `n` references of declaration `i` of file `f` draw;
/// a reference to the declaration itself draws none.
pub open spec fn ref_edges(files: Seq<FileModel>, f: nat, i: nat, n: nat) -> Seq<EdgeModel>
    decreases n,
{
    let refs = files[f as int].symbols[i as int].refs;
    if n == 0 || n > refs.len() {
        seq![]
    } else {
        let prev = ref_edges(files, f, i, (n - 1) as nat);
        match lookup_spec(files, f, refs[n - 1]) {
            Some(to) => if to == point(f, Some(i)) {
                prev
            } else {
                prev.push(edge(point(f, Some(i)), to, EdgeKind::Reference))
            },
            None => prev,
        }
    }
}

/// The edges declaration `i` of file `f` draws: its references, then the
/// declaration its keyword comes from.
pub open spec fn symbol_edges(files: Seq<FileModel>, f: nat, i: nat) -> Seq<EdgeModel> {
    let refs = ref_edges(files, f, i, files[f as int].symbols[i as int].refs.len());
    match keyword_spec(files, f, files[f as int].symbols[i as int].kind) {
        Some(to) => refs.push(edge(point(f, Some(i)), to, EdgeKind::Use)),
        None => refs,
    }
}

pub open spec fn symbols_edges(files: Seq<FileModel>, f: nat, n: nat) -> Seq<EdgeModel>
    decreases n,
{
    if n == 0 || n > files[f as int].symbols.len() {
        seq![]
    } else {
        symbols_edges(files, f, (n - 1) as nat) + symbol_edges(files, f, (n - 1) as nat)
    }
}

pub open spec fn file_edges(files: Seq<FileModel>, f: nat) -> Seq<EdgeModel> {
    statements_edges(files, f, files[f as int].statements.len()) + symbols_edges(
        files,
        f,
        files[f as int].symbols.len(),
    )
}

/// Every edge the first `n` files draw, repeats included.
pub open spec fn all_edges(files: Seq<FileModel>, n: nat) -> Seq<EdgeModel>
    decreases n,
{
    if n == 0 || n > files.len() {
        seq![]
    } else {
        all_edges(files, (n - 1) as nat) + file_edges(files, (n - 1) as nat)
    }
}

pub open spec fn symbol_code(s: Option<nat>) -> int {
    match s {
        Some(i) => i as int,
        None => -1,
    }
}

pub open spec fn kind_code(k: EdgeKind) -> int {
    match k {
        EdgeKind::Import => 0,
        EdgeKind::Use => 1,
        EdgeKind::Reference => 2,
    }
}

/// Edges are ordered by where they start, then where they end (a file before
/// its declarations), then by kind.
pub open spec fn edge_lt(a: EdgeModel, b: EdgeModel) -> bool {
    if a.from.file != b.from.file {
        a.from.file < b.from.file
    } else if symbol_code(a.from.symbol) != symbol_code(b.from.symbol) {
        symbol_code(a.from.symbol) < symbol_code(b.from.symbol)
    } else if a.to.file != b.to.file {
        a.to.file < b.to.file
    } else if symbol_code(a.to.symbol) != symbol_code(b.to.symbol) {
        symbol_code(a.to.symbol) < symbol_code(b.to.symbol)
    } else {
        kind_code(a.kind) < kind_code(b.kind)
    }
}

/// Strictly increasing, hence without repeats.
pub open spec fn edges_sorted(s: Seq<EdgeModel>) -> bool {
    forall|i: int, j: int| 0 <= i < j < s.len() ==> edge_lt(#[trigger] s[i], #[trigger] s[j])
}

pub proof fn lemma_edge_lt_total(a: EdgeModel, b: EdgeModel)
    ensures
        a != b ==> edge_lt(a, b) || edge_lt(b, a),
        !edge_lt(a, a),
{
    if a != b && !edge_lt(a, b) && !edge_lt(b, a) {
        assert(a.from.symbol == b.from.symbol);
        assert(a.to.symbol == b.to.symbol);
        assert(a.kind == b.kind);
        assert(a.from == b.from);
        assert(a.to == b.to);
    }
}

pub open spec fn edge_views(v: Seq<Edge>) -> Seq<EdgeModel> {
    v.map_values(|e: Edge| e@)
}

fn kind_number(k: EdgeKind) -> (r: u8)
    ensures
        r as int == kind_code(k),
{
    match k {
        EdgeKind::Import => 0,
        EdgeKind::Use => 1,
        EdgeKind::Reference => 2,
    }
}

fn symbol_less(a: Option<usize>, b: Option<usize>) -> (r: bool)
    ensures
        r == (symbol_code(opt_id(a)) < symbol_code(opt_id(b))),
{
    match (a, b) {
        (None, Some(_)) => true,
        (Some(x), Some(y)) => x < y,
        _ => false,
    }
}

fn edge_less(a: &Edge, b: &Edge) -> (r: bool)
    ensures
        r == edge_lt(a@, b@),
{
    if a.from.file != b.from.file {
        a.from.file < b.from.file
    } else if a.from.symbol != b.from.symbol {
        symbol_less(a.from.symbol, b.from.symbol)
    } else if a.to.file != b.to.file {
        a.to.file < b.to.file
    } else if a.to.symbol != b.to.symbol {
        symbol_less(a.to.symbol, b.to.symbol)
    } else {
        kind_number(a.kind) < kind_number(b.kind)
    }
}

/// Adds `e` to a sorted list of edges, unless it is there already.
fn insert_edge(out: &mut Vec<Edge>, e: Edge)
    requires
        edges_sorted(edge_views(old(out)@)),
    ensures
        edges_sorted(edge_views(final(out)@)),
        forall|x: EdgeModel|
            edge_views(final(out)@).contains(x) <==> (edge_views(old(out)@).contains(x) || x
                == e@),
{
    let ghost before = edge_views(out@);
    let mut p: usize = 0;
    while p < out.len() && edge_less(&out[p], &e)
        invariant
            p <= out@.len(),
            before == edge_views(out@),
            forall|j: int| 0 <= j < p ==> edge_lt(#[trigger] before[j], e@),
        decreases out@.len() - p,
    {
        p += 1;
    }
    proof {
        lemma_edge_lt_total(e@, e@);
    }
    if p < out.len() && out[p] == e {
        assert(before[p as int] == e@);
        return;
    }
    proof {
        if p < out@.len() {
            lemma_edge_lt_total(before[p as int], e@);
            assert(before[p as int] != e@);
            assert(edge_lt(e@, before[p as int]));
        }
    }
    out.insert(p, e);
    let ghost after = edge_views(out@);
    assert(after =~= before.insert(p as int, e@));
    assert forall|i: int, j: int| 0 <= i < j < after.len() implies edge_lt(
        #[trigger] after[i],
        #[trigger] after[j],
    ) by {
        if j < p {
            assert(edge_lt(before[i], before[j]));
        } else if j == p {
            assert(edge_lt(before[i], e@));
        } else if i == p {
            if j > p + 1 {
                assert(edge_lt(before[p as int], before[j - 1]));
                assert(edge_lt(e@, before[p as int]));
                lemma_edge_lt_trans(e@, before[p as int], before[j - 1]);
            }
        } else if i < p {
            assert(edge_lt(before[i], before[j - 1]));
        } else {
            assert(edge_lt(before[i - 1], before[j - 1]));
        }
    }
    assert forall|x: EdgeModel| after.contains(x) <==> (before.contains(x) || x == e@) by {
        if after.contains(x) {
            let k = choose|k: int| 0 <= k < after.len() && after[k] == x;
            if k < p {
                assert(before[k] == x);
            } else if k > p {
                assert(before[k - 1] == x);
            }
        }
        if before.contains(x) {
            let k = choose|k: int| 0 <= k < before.len() && before[k] == x;
            if k < p {
                assert(after[k] == x);
            } else {
                assert(after[k + 1] == x);
            }
        }
        if x == e@ {
            assert(after[p as int] == x);
        }
    }
}

pub proof fn lemma_edge_lt_trans(a: EdgeModel, b: EdgeModel, c: EdgeModel)
    requires
        edge_lt(a, b),
        edge_lt(b, c),
    ensures
        edge_lt(a, c),
{
}

pub proof fn lemma_push_contains(s: Seq<EdgeModel>, e: EdgeModel)
    ensures
        forall|x: EdgeModel| s.push(e).contains(x) <==> (s.contains(x) || x == e),
{
    assert forall|x: EdgeModel| s.push(e).contains(x) <==> (s.contains(x) || x == e) by {
        if s.push(e).contains(x) {
            let k = choose|k: int| 0 <= k < s.push(e).len() && s.push(e)[k] == x;
            if k < s.len() {
                assert(s[k] == x);
            }
        }
        if s.contains(x) {
            let k = choose|k: int| 0 <= k < s.len() && s[k] == x;
            assert(s.push(e)[k] == x);
        }
        if x == e {
            assert(s.push(e)[s.len() as int] == x);
        }
    }
}

/// Adds edge `e` to `out`, where `gen` holds what has been found so far.
fn add_edge(out: &mut Vec<Edge>, e: Edge, Ghost(gen): Ghost<Seq<EdgeModel>>)
    requires
        edges_sorted(edge_views(old(out)@)),
        forall|x: EdgeModel| edge_views(old(out)@).contains(x) <==> gen.contains(x),
    ensures
        edges_sorted(edge_views(final(out)@)),
        forall|x: EdgeModel| edge_views(final(out)@).contains(x) <==> gen.push(e@).contains(x),
{
    let ghost before = edge_views(out@);
    insert_edge(out, e);
    proof {
        lemma_push_contains(gen, e@);
        assert forall|x: EdgeModel| edge_views(out@).contains(x) <==> gen.push(e@).contains(x) by {
            assert(edge_views(out@).contains(x) <==> (before.contains(x) || x == e@));
            assert(before.contains(x) <==> gen.contains(x));
            assert(gen.push(e@).contains(x) <==> (gen.contains(x) || x == e@));
        }
    }
}

/// The edges of the specbase, each once, in order.
pub fn build_edges(files: &Vec<SpecFile>) -> (r: Vec<Edge>)
    requires
        targets_valid(views(files@)),
    ensures
        edges_sorted(edge_views(r@)),
        forall|x: EdgeModel|
            edge_views(r@).contains(x) <==> all_edges(views(files@), files@.len() as nat).contains(x),
{
    let ghost fs = views(files@);
    let mut out: Vec<Edge> = Vec::new();
    let ghost mut gen: Seq<EdgeModel> = seq![];
    let mut f: usize = 0;
    while f < files.len()
        invariant
            f <= files@.len(),
            fs == views(files@),
            targets_valid(fs),
            gen == all_edges(fs, f as nat),
            edges_sorted(edge_views(out@)),
            forall|x: EdgeModel| edge_views(out@).contains(x) <==> gen.contains(x),
        decreases files@.len() - f,
    {
        let file = &files[f];
        assert(fs[f as int] == file@);
        let ghost base = gen;
        let mut k: usize = 0;
        while k < file.statements.len()
            invariant
                f < files@.len(),
                k <= file.statements@.len(),
                *file == files@[f as int],
                fs == views(files@),
                fs[f as int] == file@,
                targets_valid(fs),
                gen == base + statements_edges(fs, f as nat, k as nat),
                edges_sorted(edge_views(out@)),
                forall|x: EdgeModel| edge_views(out@).contains(x) <==> gen.contains(x),
            decreases file.statements@.len() - k,
        {
            let s = &file.statements[k];
            assert(fs[f as int].statements[k as int] == s@);
            let ghost before = gen;
            let kind = match s.kind {
                StatementKind::Use => EdgeKind::Use,
                _ => EdgeKind::Import,
            };
            assert(kind == link_kind(s@.kind));
            match s.target {
                Some(t) if t != f => {
                    if s.items.len() == 0 {
                        let e = Edge {
                            from: EndPoint { file: f, symbol: None },
                            to: EndPoint { file: t, symbol: None },
                            kind,
                        };
                        add_edge(&mut out, e, Ghost(gen));
                        proof {
                            gen = gen.push(e@);
                        }
                        assert(statement_edges(fs, f as nat, s@) =~= seq![e@]);
                    } else {
                        assert(t < files@.len());
                        assert(fs[t as int] == files@[t as int]@);
                        let mut j: usize = 0;
                        while j < s.items.len()
                            invariant
                                f < files@.len(),
                                t < files@.len(),
                                t != f,
                                j <= s.items@.len(),
                                fs == views(files@),
                                fs[t as int] == files@[t as int]@,
                                s@.target == Some(t as nat),
                                kind == link_kind(s@.kind),
                                gen == before + s@.items.take(j as int).map_values(
                                    |it: ItemModel|
                                        edge(
                                            point(f as nat, None),
                                            point(t as nat, symbol_index_spec(fs[t as int].symbols, it.name)),
                                            link_kind(s@.kind),
                                        ),
                                ),
                                edges_sorted(edge_views(out@)),
                                forall|x: EdgeModel| edge_views(out@).contains(x) <==> gen.contains(x),
                            decreases s.items@.len() - j,
                        {
                            assert(s@.items[j as int] == s.items@[j as int]@);
                            let target = files[t].symbol_index(s.items[j].name.as_str());
                            let e = Edge {
                                from: EndPoint { file: f, symbol: None },
                                to: EndPoint { file: t, symbol: target },
                                kind,
                            };
                            add_edge(&mut out, e, Ghost(gen));
                            proof {
                                gen = gen.push(e@);
                                assert(s@.items.take(j + 1) =~= s@.items.take(j as int).push(s@.items[j as int]));
                            }
                            j += 1;
                        }
                        assert(s@.items.take(s@.items.len() as int) =~= s@.items);
                    }
                },
                _ => {},
            }
            assert(gen =~= base + statements_edges(fs, f as nat, (k + 1) as nat));
            k += 1;
        }
        let ghost base2 = gen;
        let mut i: usize = 0;
        while i < file.symbols.len()
            invariant
                f < files@.len(),
                i <= file.symbols@.len(),
                *file == files@[f as int],
                fs == views(files@),
                fs[f as int] == file@,
                targets_valid(fs),
                gen == base2 + symbols_edges(fs, f as nat, i as nat),
                edges_sorted(edge_views(out@)),
                forall|x: EdgeModel| edge_views(out@).contains(x) <==> gen.contains(x),
            decreases file.symbols@.len() - i,
        {
            let sym = &file.symbols[i];
            assert(fs[f as int].symbols[i as int] == sym@);
            let ghost before = gen;
            let mut r: usize = 0;
            while r < sym.refs.len()
                invariant
                    f < files@.len(),
                    i < file.symbols@.len(),
                    r <= sym.refs@.len(),
                    *sym == files@[f as int].symbols@[i as int],
                    fs == views(files@),
                    fs[f as int].symbols[i as int] == sym@,
                    targets_valid(fs),
                    gen == before + ref_edges(fs, f as nat, i as nat, r as nat),
                    edges_sorted(edge_views(out@)),
                    forall|x: EdgeModel| edge_views(out@).contains(x) <==> gen.contains(x),
                decreases sym.refs@.len() - r,
            {
                assert(fs[f as int].symbols[i as int].refs[r as int] == sym.refs@[r as int]@);
                if let Some(to) = lookup(files, f, &sym.refs[r]) {
                    if !(to.file == f && to.symbol == Some(i)) {
                        let e = Edge { from: EndPoint { file: f, symbol: Some(i) }, to, kind: EdgeKind::Reference };
                        add_edge(&mut out, e, Ghost(gen));
                        proof {
                            gen = gen.push(e@);
                        }
                    }
                }
                r += 1;
            }
            if let Some(to) = lookup_keyword(files, f, &sym.kind) {
                let e = Edge { from: EndPoint { file: f, symbol: Some(i) }, to, kind: EdgeKind::Use };
                add_edge(&mut out, e, Ghost(gen));
                proof {
                    gen = gen.push(e@);
                }
            }
            assert(gen =~= base2 + symbols_edges(fs, f as nat, (i + 1) as nat));
            i += 1;
        }
        assert(gen =~= all_edges(fs, (f + 1) as nat));
        f += 1;
    }
    out
}

// ------------------------------------------------------- valid endpoints

/// `p` names a file of the specbase, and a declaration in it where it names
/// one.
pub open spec fn point_valid(files: Seq<FileModel>, p: PointModel) -> bool {
    &&& p.file < files.len()
    &&& match p.symbol {
        Some(j) => j < files[p.file as int].symbols.len(),
        None => true,
    }
}

pub proof fn lemma_first_match(syms: Seq<crate::model::SymbolView>, name: Text, i: int)
    requires
        0 <= i < syms.len(),
        syms[i].name == name,
    ensures
        exists|k: int|
            0 <= k < syms.len() && syms[k].name == name && forall|j: int|
                0 <= j < k ==> (#[trigger] syms[j]).name != name,
    decreases i,
{
    if exists|j: int| 0 <= j < i && (#[trigger] syms[j]).name == name {
        let j = choose|j: int| 0 <= j < i && (#[trigger] syms[j]).name == name;
        lemma_first_match(syms, name, j);
    } else {
        assert(forall|j: int| 0 <= j < i ==> (#[trigger] syms[j]).name != name);
    }
}

pub proof fn lemma_symbol_index_valid(syms: Seq<crate::model::SymbolView>, name: Text)
    ensures
        match symbol_index_spec(syms, name) {
            Some(i) => i < syms.len() && syms[i as int].name == name,
            None => true,
        },
{
    if exists|i: int| 0 <= i < syms.len() && (#[trigger] syms[i]).name == name {
        let i = choose|i: int| 0 <= i < syms.len() && (#[trigger] syms[i]).name == name;
        lemma_first_match(syms, name, i);
    }
}

pub proof fn lemma_alias_valid(syms: Seq<crate::model::SymbolView>, keyword: Text, k: nat)
    ensures
        match alias_from(syms, keyword, k) {
            Some(i) => i < syms.len(),
            None => true,
        },
    decreases syms.len() - k,
{
    if k < syms.len() && syms[k as int].kind_alias != Some(keyword) {
        lemma_alias_valid(syms, keyword, k + 1);
    }
}

pub proof fn lemma_first_use_valid(sts: Seq<StatementView>, k: nat)
    ensures
        match first_use_from(sts, k) {
            Some(i) => i < sts.len(),
            None => true,
        },
    decreases sts.len() - k,
{
    if k < sts.len() && sts[k as int].kind != StatementKind::Use {
        lemma_first_use_valid(sts, k + 1);
    }
}

pub open spec fn pair_valid(files: Seq<FileModel>, r: Option<(nat, nat)>) -> bool {
    match r {
        Some((g, q)) => g < files.len() && q < files[g as int].symbols.len(),
        None => true,
    }
}

pub proof fn lemma_export_valid(files: Seq<FileModel>, file: nat, name: Text, seen: Set<nat>, fuel: nat)
    ensures
        pair_valid(files, export_from(files, file, name, seen, fuel).0),
    decreases fuel, 2nat, 0int, 0int,
{
    if !(fuel == 0 || seen.contains(file) || file >= files.len()) {
        lemma_symbol_index_valid(files[file as int].symbols, name);
        lemma_export_statements_valid(files, file, name, seen.insert(file), (fuel - 1) as nat, 0);
    }
}

pub proof fn lemma_export_statements_valid(
    files: Seq<FileModel>,
    file: nat,
    name: Text,
    seen: Set<nat>,
    fuel: nat,
    k: nat,
)
    ensures
        pair_valid(files, export_statements(files, file, name, seen, fuel, k).0),
    decreases fuel + 1, 1nat, files[file as int].statements.len() - k, 0int,
{
    if !(file >= files.len() || k >= files[file as int].statements.len()) {
        let s = files[file as int].statements[k as int];
        match s.target {
            Some(t) if s.kind == StatementKind::Export => {
                if s.wildcard {
                    lemma_export_valid(files, t, name, seen, fuel);
                }
                let (r1, seen1) = if s.wildcard {
                    export_from(files, t, name, seen, fuel)
                } else {
                    (None, seen)
                };
                lemma_export_items_valid(files, file, k, t, name, seen1, fuel, 0);
                let (r2, seen2) = export_items(files, file, k, t, name, seen1, fuel, 0);
                lemma_export_statements_valid(files, file, name, seen2, fuel, k + 1);
            },
            _ => {
                lemma_export_statements_valid(files, file, name, seen, fuel, k + 1);
            },
        }
    }
}

pub proof fn lemma_export_items_valid(
    files: Seq<FileModel>,
    file: nat,
    k: nat,
    t: nat,
    name: Text,
    seen: Set<nat>,
    fuel: nat,
    j: nat,
)
    ensures
        pair_valid(files, export_items(files, file, k, t, name, seen, fuel, j).0),
    decreases fuel + 1, 0nat, files[file as int].statements.len() - k,
        files[file as int].statements[k as int].items.len() - j,
{
    if !(file >= files.len() || k >= files[file as int].statements.len() || j
        >= files[file as int].statements[k as int].items.len()) {
        let item = files[file as int].statements[k as int].items[j as int];
        if item.local == name {
            lemma_export_valid(files, t, item.name, seen, fuel);
            let (r, seen1) = export_from(files, t, item.name, seen, fuel);
            lemma_export_items_valid(files, file, k, t, name, seen1, fuel, j + 1);
        } else {
            lemma_export_items_valid(files, file, k, t, name, seen, fuel, j + 1);
        }
    }
}

pub proof fn lemma_binding_valid(files: Seq<FileModel>, f: nat, n: nat, name: Text)
    requires
        targets_valid(files),
        f < files.len(),
    ensures
        match binding_fold(files[f as int].statements, n, name) {
            Some((t, _)) => t < files.len(),
            None => true,
        },
    decreases n,
{
    if n > 0 && n <= files[f as int].statements.len() {
        lemma_binding_valid(files, f, (n - 1) as nat, name);
        assert(match files[f as int].statements[n - 1].target {
            Some(t) => t < files.len(),
            None => true,
        });
    }
}

pub proof fn lemma_lookup_valid(files: Seq<FileModel>, f: nat, name: Text)
    requires
        targets_valid(files),
        f < files.len(),
    ensures
        match lookup_spec(files, f, name) {
            Some(p) => point_valid(files, p),
            None => true,
        },
{
    lemma_symbol_index_valid(files[f as int].symbols, name);
    lemma_binding_valid(files, f, files[f as int].statements.len(), name);
    match binding_of(files[f as int], name) {
        Some((t, exported)) => {
            lemma_export_valid(files, t, exported, Set::empty(), files.len());
        },
        None => {},
    }
}

pub proof fn lemma_keyword_valid(files: Seq<FileModel>, f: nat, keyword: Text)
    requires
        targets_valid(files),
        f < files.len(),
    ensures
        match keyword_spec(files, f, keyword) {
            Some(p) => point_valid(files, p),
            None => true,
        },
{
    lemma_first_use_valid(files[f as int].statements, 0);
    match first_use_from(files[f as int].statements, 0) {
        Some(k) => {
            assert(match files[f as int].statements[k as int].target {
                Some(t) => t < files.len(),
                None => true,
            });
            match files[f as int].statements[k as int].target {
                Some(t) => {
                    lemma_alias_valid(files[t as int].symbols, keyword, 0);
                },
                None => {},
            }
        },
        None => {},
    }
}

pub proof fn lemma_ref_points_valid(files: Seq<FileModel>, f: nat, i: nat, n: nat)
    requires
        targets_valid(files),
        f < files.len(),
    ensures
        forall|p: int| 0 <= p < ref_points(files, f, i, n).len() ==> point_valid(files, #[trigger] ref_points(files, f, i, n)[p]),
    decreases n,
{
    let refs = files[f as int].symbols[i as int].refs;
    if n > 0 && n <= refs.len() {
        lemma_ref_points_valid(files, f, i, (n - 1) as nat);
        lemma_lookup_valid(files, f, refs[n - 1]);
        let prev = ref_points(files, f, i, (n - 1) as nat);
        match lookup_spec(files, f, refs[n - 1]) {
            Some(q) => {
                assert forall|p: int| 0 <= p < prev.push(q).len() implies point_valid(files, #[trigger] prev.push(q)[p]) by {
                    if p < prev.len() {
                        assert(prev.push(q)[p] == prev[p]);
                    }
                }
            },
            None => {},
        }
    }
}

pub proof fn lemma_symbol_targets_valid(files: Seq<FileModel>, f: nat, i: nat)
    requires
        targets_valid(files),
        f < files.len(),
    ensures
        forall|p: int|
            0 <= p < symbol_targets_spec(files, f, i).len() ==> point_valid(
                files,
                #[trigger] symbol_targets_spec(files, f, i)[p],
            ),
{
    lemma_ref_points_valid(files, f, i, files[f as int].symbols[i as int].refs.len());
    lemma_keyword_valid(files, f, files[f as int].symbols[i as int].kind);
}

// --------------------------------------------------------------------- laws

/// Every edge of `s` joins two things of the specbase.
pub open spec fn edges_valid(files: Seq<FileModel>, s: Seq<EdgeModel>) -> bool {
    forall|i: int| 0 <= i < s.len() ==> point_valid(files, (#[trigger] s[i]).from) && point_valid(files, s[i].to)
}

proof fn lemma_edges_valid_concat(files: Seq<FileModel>, a: Seq<EdgeModel>, b: Seq<EdgeModel>)
    requires
        edges_valid(files, a),
        edges_valid(files, b),
    ensures
        edges_valid(files, a + b),
{
    assert forall|i: int| 0 <= i < (a + b).len() implies point_valid(files, (#[trigger] (a + b)[i]).from)
        && point_valid(files, (a + b)[i].to) by {
        if i < a.len() {
            assert((a + b)[i] == a[i]);
        } else {
            assert((a + b)[i] == b[i - a.len()]);
        }
    }
}

proof fn lemma_statement_edges_valid(files: Seq<FileModel>, f: nat, n: nat)
    requires
        targets_valid(files),
        f < files.len(),
    ensures
        edges_valid(files, statements_edges(files, f, n)),
    decreases n,
{
    if n > 0 && n <= files[f as int].statements.len() {
        lemma_statement_edges_valid(files, f, (n - 1) as nat);
        let s = files[f as int].statements[n - 1];
        assert(match s.target {
            Some(t) => t < files.len(),
            None => true,
        });
        let es = statement_edges(files, f, s);
        match s.target {
            Some(t) if t != f => {
                assert forall|i: int| 0 <= i < es.len() implies point_valid(files, (#[trigger] es[i]).from)
                    && point_valid(files, es[i].to) by {
                    if s.items.len() > 0 {
                        lemma_symbol_index_valid(files[t as int].symbols, s.items[i].name);
                    }
                }
            },
            _ => {},
        }
        lemma_edges_valid_concat(files, statements_edges(files, f, (n - 1) as nat), es);
    }
}

proof fn lemma_ref_edges_valid(files: Seq<FileModel>, f: nat, i: nat, n: nat)
    requires
        targets_valid(files),
        f < files.len(),
        i < files[f as int].symbols.len(),
    ensures
        edges_valid(files, ref_edges(files, f, i, n)),
    decreases n,
{
    let refs = files[f as int].symbols[i as int].refs;
    if n > 0 && n <= refs.len() {
        lemma_ref_edges_valid(files, f, i, (n - 1) as nat);
        lemma_lookup_valid(files, f, refs[n - 1]);
        let prev = ref_edges(files, f, i, (n - 1) as nat);
        match lookup_spec(files, f, refs[n - 1]) {
            Some(to) => {
                if to != point(f, Some(i)) {
                    let e = edge(point(f, Some(i)), to, EdgeKind::Reference);
                    assert(edges_valid(files, seq![e]));
                    lemma_edges_valid_concat(files, prev, seq![e]);
                    assert(prev + seq![e] =~= prev.push(e));
                }
            },
            None => {},
        }
    }
}

proof fn lemma_symbols_edges_valid(files: Seq<FileModel>, f: nat, n: nat)
    requires
        targets_valid(files),
        f < files.len(),
    ensures
        edges_valid(files, symbols_edges(files, f, n)),
    decreases n,
{
    if n > 0 && n <= files[f as int].symbols.len() {
        let i = (n - 1) as nat;
        lemma_symbols_edges_valid(files, f, i);
        lemma_ref_edges_valid(files, f, i, files[f as int].symbols[i as int].refs.len());
        lemma_keyword_valid(files, f, files[f as int].symbols[i as int].kind);
        let refs = ref_edges(files, f, i, files[f as int].symbols[i as int].refs.len());
        match keyword_spec(files, f, files[f as int].symbols[i as int].kind) {
            Some(to) => {
                let e = edge(point(f, Some(i)), to, EdgeKind::Use);
                assert(edges_valid(files, seq![e]));
                lemma_edges_valid_concat(files, refs, seq![e]);
                assert(refs + seq![e] =~= refs.push(e));
            },
            None => {},
        }
        lemma_edges_valid_concat(files, symbols_edges(files, f, i), symbol_edges(files, f, i));
    }
}

proof fn lemma_all_edges_valid(files: Seq<FileModel>, n: nat)
    requires
        targets_valid(files),
    ensures
        edges_valid(files, all_edges(files, n)),
    decreases n,
{
    if n > 0 && n <= files.len() {
        let f = (n - 1) as nat;
        lemma_all_edges_valid(files, f);
        lemma_statement_edges_valid(files, f, files[f as int].statements.len());
        lemma_symbols_edges_valid(files, f, files[f as int].symbols.len());
        lemma_edges_valid_concat(
            files,
            statements_edges(files, f, files[f as int].statements.len()),
            symbols_edges(files, f, files[f as int].symbols.len()),
        );
        lemma_edges_valid_concat(files, all_edges(files, f), file_edges(files, f));
    }
}

/// Every edge joins two things of the specbase: a file, or a declaration in
/// one.
pub proof fn law_edges_join_the_specbase(files: Seq<FileModel>, e: EdgeModel)
    requires
        targets_valid(files),
        all_edges(files, files.len()).contains(e),
    ensures
        point_valid(files, e.from),
        point_valid(files, e.to),
{
    lemma_all_edges_valid(files, files.len());
    let i = choose|i: int| 0 <= i < all_edges(files, files.len()).len() && all_edges(files, files.len())[i] == e;
    assert(point_valid(files, all_edges(files, files.len())[i].from));
}

/// No declaration is drawn referring to itself.
pub proof fn law_no_reference_to_itself(files: Seq<FileModel>, e: EdgeModel)
    requires
        all_edges(files, files.len()).contains(e),
        e.kind == EdgeKind::Reference,
    ensures
        e.from != e.to,
{
    lemma_no_self_reference(files, files.len());
    let i = choose|i: int| 0 <= i < all_edges(files, files.len()).len() && all_edges(files, files.len())[i] == e;
}

pub open spec fn no_self_reference(s: Seq<EdgeModel>) -> bool {
    forall|i: int| 0 <= i < s.len() && (#[trigger] s[i]).kind == EdgeKind::Reference ==> s[i].from != s[i].to
}

proof fn lemma_no_self_concat(a: Seq<EdgeModel>, b: Seq<EdgeModel>)
    requires
        no_self_reference(a),
        no_self_reference(b),
    ensures
        no_self_reference(a + b),
{
    assert forall|i: int| 0 <= i < (a + b).len() && (#[trigger] (a + b)[i]).kind == EdgeKind::Reference implies (a
        + b)[i].from != (a + b)[i].to by {
        if i < a.len() {
            assert((a + b)[i] == a[i]);
        } else {
            assert((a + b)[i] == b[i - a.len()]);
        }
    }
}

proof fn lemma_no_self_reference(files: Seq<FileModel>, n: nat)
    ensures
        no_self_reference(all_edges(files, n)),
    decreases n,
{
    if n > 0 && n <= files.len() {
        let f = (n - 1) as nat;
        lemma_no_self_reference(files, f);
        lemma_no_self_statements(files, f, files[f as int].statements.len());
        lemma_no_self_symbols(files, f, files[f as int].symbols.len());
        lemma_no_self_concat(
            statements_edges(files, f, files[f as int].statements.len()),
            symbols_edges(files, f, files[f as int].symbols.len()),
        );
        lemma_no_self_concat(all_edges(files, f), file_edges(files, f));
    }
}

proof fn lemma_no_self_statements(files: Seq<FileModel>, f: nat, n: nat)
    ensures
        no_self_reference(statements_edges(files, f, n)),
    decreases n,
{
    if n > 0 && n <= files[f as int].statements.len() {
        lemma_no_self_statements(files, f, (n - 1) as nat);
        let s = files[f as int].statements[n - 1];
        lemma_no_self_concat(statements_edges(files, f, (n - 1) as nat), statement_edges(files, f, s));
    }
}

proof fn lemma_no_self_refs(files: Seq<FileModel>, f: nat, i: nat, n: nat)
    ensures
        no_self_reference(ref_edges(files, f, i, n)),
    decreases n,
{
    let refs = files[f as int].symbols[i as int].refs;
    if n > 0 && n <= refs.len() {
        lemma_no_self_refs(files, f, i, (n - 1) as nat);
        let prev = ref_edges(files, f, i, (n - 1) as nat);
        match lookup_spec(files, f, refs[n - 1]) {
            Some(to) => {
                if to != point(f, Some(i)) {
                    let e = edge(point(f, Some(i)), to, EdgeKind::Reference);
                    lemma_no_self_concat(prev, seq![e]);
                    assert(prev + seq![e] =~= prev.push(e));
                }
            },
            None => {},
        }
    }
}

proof fn lemma_no_self_symbols(files: Seq<FileModel>, f: nat, n: nat)
    ensures
        no_self_reference(symbols_edges(files, f, n)),
    decreases n,
{
    if n > 0 && n <= files[f as int].symbols.len() {
        let i = (n - 1) as nat;
        lemma_no_self_symbols(files, f, i);
        lemma_no_self_refs(files, f, i, files[f as int].symbols[i as int].refs.len());
        let refs = ref_edges(files, f, i, files[f as int].symbols[i as int].refs.len());
        match keyword_spec(files, f, files[f as int].symbols[i as int].kind) {
            Some(to) => {
                let e = edge(point(f, Some(i)), to, EdgeKind::Use);
                lemma_no_self_concat(refs, seq![e]);
                assert(refs + seq![e] =~= refs.push(e));
            },
            None => {},
        }
        lemma_no_self_concat(symbols_edges(files, f, i), symbol_edges(files, f, i));
    }
}

// ------------------------------------------------- following re-exports

/// A set of files seen so far: finitely many, each a file of the specbase.
pub open spec fn seen_ok(seen: Set<nat>, n: nat) -> bool {
    &&& seen.finite()
    &&& forall|x: nat| seen.contains(x) ==> x < n
}

pub proof fn lemma_bounded_len(s: Set<nat>, n: nat)
    requires
        seen_ok(s, n),
    ensures
        s.len() <= n,
        forall|x: nat| x < n && !s.contains(x) ==> s.len() < n,
    decreases n,
{
    if n == 0 {
        if s.len() > 0 {
            let x = s.choose();
            assert(s.contains(x));
        }
    } else {
        let m = (n - 1) as nat;
        let t = s.remove(m);
        assert(seen_ok(t, m));
        lemma_bounded_len(t, m);
        assert forall|x: nat| x < n && !s.contains(x) implies s.len() < n by {
            if x == m {
                assert(t =~= s);
            } else {
                assert(!t.contains(x));
            }
        }
    }
}

pub proof fn lemma_export_grows(files: Seq<FileModel>, file: nat, name: Text, seen: Set<nat>, fuel: nat)
    requires
        seen_ok(seen, files.len()),
    ensures
        seen_ok(export_from(files, file, name, seen, fuel).1, files.len()),
        seen.subset_of(export_from(files, file, name, seen, fuel).1),
    decreases fuel, 2nat, 0int, 0int,
{
    if !(fuel == 0 || seen.contains(file) || file >= files.len()) {
        lemma_statements_grow(files, file, name, seen.insert(file), (fuel - 1) as nat, 0);
    }
}

pub proof fn lemma_statements_grow(
    files: Seq<FileModel>,
    file: nat,
    name: Text,
    seen: Set<nat>,
    fuel: nat,
    k: nat,
)
    requires
        seen_ok(seen, files.len()),
    ensures
        seen_ok(export_statements(files, file, name, seen, fuel, k).1, files.len()),
        seen.subset_of(export_statements(files, file, name, seen, fuel, k).1),
    decreases fuel + 1, 1nat, files[file as int].statements.len() - k, 0int,
{
    if !(file >= files.len() || k >= files[file as int].statements.len()) {
        let s = files[file as int].statements[k as int];
        match s.target {
            Some(t) if s.kind == StatementKind::Export => {
                if s.wildcard {
                    lemma_export_grows(files, t, name, seen, fuel);
                }
                let (r1, seen1) = if s.wildcard {
                    export_from(files, t, name, seen, fuel)
                } else {
                    (None, seen)
                };
                lemma_items_grow(files, file, k, t, name, seen1, fuel, 0);
                let (r2, seen2) = export_items(files, file, k, t, name, seen1, fuel, 0);
                lemma_statements_grow(files, file, name, seen2, fuel, k + 1);
            },
            _ => {
                lemma_statements_grow(files, file, name, seen, fuel, k + 1);
            },
        }
    }
}

pub proof fn lemma_items_grow(
    files: Seq<FileModel>,
    file: nat,
    k: nat,
    t: nat,
    name: Text,
    seen: Set<nat>,
    fuel: nat,
    j: nat,
)
    requires
        seen_ok(seen, files.len()),
    ensures
        seen_ok(export_items(files, file, k, t, name, seen, fuel, j).1, files.len()),
        seen.subset_of(export_items(files, file, k, t, name, seen, fuel, j).1),
    decreases fuel + 1, 0nat, files[file as int].statements.len() - k,
        files[file as int].statements[k as int].items.len() - j,
{
    if !(file >= files.len() || k >= files[file as int].statements.len() || j
        >= files[file as int].statements[k as int].items.len()) {
        let item = files[file as int].statements[k as int].items[j as int];
        if item.local == name {
            lemma_export_grows(files, t, item.name, seen, fuel);
            let (r, seen1) = export_from(files, t, item.name, seen, fuel);
            lemma_items_grow(files, file, k, t, name, seen1, fuel, j + 1);
        } else {
            lemma_items_grow(files, file, k, t, name, seen, fuel, j + 1);
        }
    }
}

proof fn lemma_subset_len(a: Set<nat>, b: Set<nat>)
    requires
        a.subset_of(b),
        b.finite(),
    ensures
        a.len() <= b.len(),
{
    vstd::set_lib::lemma_len_subset(a, b);
}

/// With as many levels allowed as there are files not yet seen, one level
/// more changes nothing: the depth of re-exports followed never reaches the
/// bound.
pub proof fn lemma_export_fuel(files: Seq<FileModel>, file: nat, name: Text, seen: Set<nat>, fuel: nat)
    requires
        seen_ok(seen, files.len()),
        fuel + seen.len() >= files.len(),
    ensures
        export_from(files, file, name, seen, fuel) == export_from(files, file, name, seen, fuel + 1),
    decreases fuel, 2nat, 0int, 0int,
{
    if fuel == 0 {
        if file < files.len() && !seen.contains(file) {
            lemma_bounded_len(seen, files.len());
        }
    } else if !(seen.contains(file) || file >= files.len()) {
        let seen1 = seen.insert(file);
        assert(seen_ok(seen1, files.len()));
        lemma_statements_fuel(files, file, name, seen1, (fuel - 1) as nat, 0);
    }
}

pub proof fn lemma_statements_fuel(
    files: Seq<FileModel>,
    file: nat,
    name: Text,
    seen: Set<nat>,
    fuel: nat,
    k: nat,
)
    requires
        seen_ok(seen, files.len()),
        fuel + seen.len() >= files.len(),
    ensures
        export_statements(files, file, name, seen, fuel, k) == export_statements(files, file, name, seen, fuel + 1, k),
    decreases fuel + 1, 1nat, files[file as int].statements.len() - k, 0int,
{
    if !(file >= files.len() || k >= files[file as int].statements.len()) {
        let s = files[file as int].statements[k as int];
        match s.target {
            Some(t) if s.kind == StatementKind::Export => {
                if s.wildcard {
                    lemma_export_fuel(files, t, name, seen, fuel);
                    lemma_export_grows(files, t, name, seen, fuel);
                }
                let (r1, seen1) = if s.wildcard {
                    export_from(files, t, name, seen, fuel)
                } else {
                    (None, seen)
                };
                lemma_subset_len(seen, seen1);
                lemma_items_fuel(files, file, k, t, name, seen1, fuel, 0);
                lemma_items_grow(files, file, k, t, name, seen1, fuel, 0);
                let (r2, seen2) = export_items(files, file, k, t, name, seen1, fuel, 0);
                lemma_subset_len(seen1, seen2);
                lemma_statements_fuel(files, file, name, seen2, fuel, k + 1);
            },
            _ => {
                lemma_statements_fuel(files, file, name, seen, fuel, k + 1);
            },
        }
    }
}

pub proof fn lemma_items_fuel(
    files: Seq<FileModel>,
    file: nat,
    k: nat,
    t: nat,
    name: Text,
    seen: Set<nat>,
    fuel: nat,
    j: nat,
)
    requires
        seen_ok(seen, files.len()),
        fuel + seen.len() >= files.len(),
    ensures
        export_items(files, file, k, t, name, seen, fuel, j) == export_items(files, file, k, t, name, seen, fuel + 1, j),
    decreases fuel + 1, 0nat, files[file as int].statements.len() - k,
        files[file as int].statements[k as int].items.len() - j,
{
    if !(file >= files.len() || k >= files[file as int].statements.len() || j
        >= files[file as int].statements[k as int].items.len()) {
        let item = files[file as int].statements[k as int].items[j as int];
        if item.local == name {
            lemma_export_fuel(files, t, item.name, seen, fuel);
            lemma_export_grows(files, t, item.name, seen, fuel);
            let (r, seen1) = export_from(files, t, item.name, seen, fuel);
            lemma_subset_len(seen, seen1);
            lemma_items_fuel(files, file, k, t, name, seen1, fuel, j + 1);
        } else {
            lemma_items_fuel(files, file, k, t, name, seen, fuel, j + 1);
        }
    }
}

/// Following re-exports never runs out of levels: allowing more than one per
/// file gives the same answer.
pub proof fn law_reexports_end_before_the_bound(files: Seq<FileModel>, file: nat, name: Text, extra: nat)
    ensures
        export_from(files, file, name, Set::empty(), files.len() + extra).0 == resolve_export_spec(files, file, name),
    decreases extra,
{
    if extra > 0 {
        law_reexports_end_before_the_bound(files, file, name, (extra - 1) as nat);
        assert(seen_ok(Set::<nat>::empty(), files.len()));
        lemma_export_fuel(files, file, name, Set::empty(), (files.len() + extra - 1) as nat);
    }
}

// ------------------------------------------------------ imported items

proof fn lemma_statement_edge_in_file(files: Seq<FileModel>, f: nat, k: int, n: nat, x: EdgeModel)
    requires
        0 <= k < n <= files[f as int].statements.len(),
        statement_edges(files, f, files[f as int].statements[k]).contains(x),
    ensures
        statements_edges(files, f, n).contains(x),
    decreases n,
{
    let prev = statements_edges(files, f, (n - 1) as nat);
    let last = statement_edges(files, f, files[f as int].statements[n - 1]);
    if k == n - 1 {
        let j = choose|j: int| 0 <= j < last.len() && last[j] == x;
        assert((prev + last)[prev.len() + j] == x);
    } else {
        lemma_statement_edge_in_file(files, f, k, (n - 1) as nat, x);
        let j = choose|j: int| 0 <= j < prev.len() && prev[j] == x;
        assert((prev + last)[j] == x);
    }
}

proof fn lemma_file_edge_in_all(files: Seq<FileModel>, f: nat, n: nat, x: EdgeModel)
    requires
        f < n <= files.len(),
        file_edges(files, f).contains(x),
    ensures
        all_edges(files, n).contains(x),
    decreases n,
{
    let prev = all_edges(files, (n - 1) as nat);
    let last = file_edges(files, (n - 1) as nat);
    if f == n - 1 {
        let j = choose|j: int| 0 <= j < last.len() && last[j] == x;
        assert((prev + last)[prev.len() + j] == x);
    } else {
        lemma_file_edge_in_all(files, f, (n - 1) as nat, x);
        let j = choose|j: int| 0 <= j < prev.len() && prev[j] == x;
        assert((prev + last)[j] == x);
    }
}

proof fn lemma_statement_edge_drawn(files: Seq<FileModel>, f: nat, k: int, x: EdgeModel)
    requires
        f < files.len(),
        0 <= k < files[f as int].statements.len(),
        statement_edges(files, f, files[f as int].statements[k]).contains(x),
    ensures
        all_edges(files, files.len()).contains(x),
{
    let n = files[f as int].statements.len();
    lemma_statement_edge_in_file(files, f, k, n, x);
    let st = statements_edges(files, f, n);
    let j = choose|j: int| 0 <= j < st.len() && st[j] == x;
    assert((st + symbols_edges(files, f, files[f as int].symbols.len()))[j] == x);
    lemma_file_edge_in_all(files, f, files.len(), x);
}

/// A name a statement brings in from another file of the specbase is
/// linked from the importing file to the first declaration of that name in
/// the file it comes from; where that file declares no such name, to the
/// file itself. A statement that brings in no names links the two files.
/// A `use` draws a `Use` edge, an import or export an `Import` edge.
pub proof fn law_imported_names_link_to_their_declarations(files: Seq<FileModel>, f: nat, k: int, t: nat)
    requires
        f < files.len(),
        t < files.len(),
        t != f,
        0 <= k < files[f as int].statements.len(),
        files[f as int].statements[k].target == Some(t),
    ensures
        ({
            let s = files[f as int].statements[k];
            let kind = if s.kind == StatementKind::Use {
                EdgeKind::Use
            } else {
                EdgeKind::Import
            };
            let from = PointModel { file: f, symbol: None };
            let decls = files[t as int].symbols;
            &&& s.items.len() == 0 ==> all_edges(files, files.len()).contains(
                EdgeModel { from, to: PointModel { file: t, symbol: None }, kind },
            )
            &&& forall|j: int, d: int|
                #![trigger s.items[j], decls[d]]
                0 <= j < s.items.len() && 0 <= d < decls.len() && decls[d].name == s.items[j].name
                    && (forall|e: int| 0 <= e < d ==> #[trigger] decls[e].name != s.items[j].name)
                    ==> all_edges(files, files.len()).contains(
                    EdgeModel { from, to: PointModel { file: t, symbol: Some(d as nat) }, kind },
                )
            &&& forall|j: int|
                #![trigger s.items[j]]
                0 <= j < s.items.len() && (forall|e: int| 0 <= e < decls.len() ==> #[trigger] decls[e].name != s.items[j].name)
                    ==> all_edges(files, files.len()).contains(
                    EdgeModel { from, to: PointModel { file: t, symbol: None }, kind },
                )
        }),
{
    let s = files[f as int].statements[k];
    let se = statement_edges(files, f, s);
    let decls = files[t as int].symbols;
    if s.items.len() == 0 {
        assert(se[0] == se[0]);
        lemma_statement_edge_drawn(files, f, k, se[0]);
    }
    assert forall|j: int, d: int|
        #![trigger s.items[j], decls[d]]
        0 <= j < s.items.len() && 0 <= d < decls.len() && decls[d].name == s.items[j].name
            && (forall|e: int| 0 <= e < d ==> #[trigger] decls[e].name != s.items[j].name)
        implies all_edges(files, files.len()).contains(se[j]) && se[j].to == (PointModel { file: t, symbol: Some(d as nat) }) by {
        let name = s.items[j].name;
        assert(decls[d].name == name);
        let c = choose|i: int|
            0 <= i < decls.len() && decls[i].name == name && forall|e: int| 0 <= e < i ==> (#[trigger] decls[e]).name != name;
        if c < d {
            assert(decls[c].name != name);
        }
        if c > d {
            assert(decls[d].name != name);
        }
        assert(se[j] == se[j]);
        lemma_statement_edge_drawn(files, f, k, se[j]);
    }
    assert forall|j: int|
        #![trigger s.items[j]]
        0 <= j < s.items.len() && (forall|e: int| 0 <= e < decls.len() ==> #[trigger] decls[e].name != s.items[j].name)
        implies all_edges(files, files.len()).contains(se[j]) && se[j].to == (PointModel { file: t, symbol: None }) by {
        assert(se[j] == se[j]);
        lemma_statement_edge_drawn(files, f, k, se[j]);
    }
}

} // verus!
