//! Loading a specbase: the walk's folders and files turned into the model,
//! the project configuration read, and every module specifier pointed at the
//! file it names.

use vstd::prelude::*;

use crate::model::{
    ids, opt_id, DirModel, FileModel, SpecDir, SpecFile, Statement, StatementItem, StatementKind,
    StatementView, Symbol, SymbolView,
};
use crate::parser::{parse, parsed_from, ParsedModel, RawStatementKind, StatementModel, SymbolModel};
use crate::paths::{
    join_normalized, joined_rel, path_string, path_text, rel_string, with_pi_extension,
    Components,
};
use crate::text::{string_of, texts, Text};
use crate::walk::{DirNode, DirSeed, FileNode, FileSeed, FsEntry, Walked};

verus! {

/// The name of the file that marks a folder as a Piton project.
pub const CONFIG_FILE: &'static str = "piton.config.pi";

pub open spec fn config_name() -> Text {
    "piton.config.pi"@
}

// ------------------------------------------------------------ file records

pub open spec fn statement_kind(k: RawStatementKind) -> StatementKind {
    match k {
        RawStatementKind::Use => StatementKind::Use,
        RawStatementKind::Import => StatementKind::Import,
        RawStatementKind::Export => StatementKind::Export,
    }
}

pub open spec fn raw_kind(k: StatementKind) -> RawStatementKind {
    match k {
        StatementKind::Use => RawStatementKind::Use,
        StatementKind::Import => RawStatementKind::Import,
        StatementKind::Export => RawStatementKind::Export,
    }
}

/// What the parser read, as a loaded statement keeps it.
pub open spec fn statement_raw(s: StatementView) -> StatementModel {
    StatementModel {
        kind: raw_kind(s.kind),
        module: s.module,
        items: s.items,
        wildcard: s.wildcard,
        line: s.line,
    }
}

/// What the parser read, as a loaded declaration keeps it.
pub open spec fn symbol_raw(s: SymbolView) -> SymbolModel {
    SymbolModel {
        name: s.name,
        kind: s.kind,
        kind_alias: s.kind_alias,
        exported: s.exported,
        is_abstract: s.is_abstract,
        line: s.line,
        fields: s.fields,
        refs: s.refs,
    }
}

/// The parse a loaded file keeps.
pub open spec fn file_parse(f: FileModel) -> ParsedModel {
    ParsedModel {
        statements: f.statements.map_values(|s: StatementView| statement_raw(s)),
        symbols: f.symbols.map_values(|s: SymbolView| symbol_raw(s)),
    }
}

/// A module specifier of an outside package, such as `@scope/name`.
pub open spec fn is_external(module: Text) -> bool {
    module.len() > 0 && module[0] == '@'
}

/// The name a folder goes by: its last component, or the root's own text.
pub open spec fn dir_name(comps: Components) -> Text {
    if comps.len() == 0 {
        path_text(comps)
    } else {
        comps.last()
    }
}

/// Folder `d` as the model keeps it, for a project rooted `root_len`
/// components down.
pub open spec fn dir_record(seed: DirSeed, id: nat, root_len: nat) -> DirModel {
    DirModel {
        id,
        name: dir_name(seed.comps),
        rel: joined_rel(seed.comps.skip(root_len as int)),
        path: path_text(seed.comps),
        parent: seed.parent,
        dirs: seed.dirs,
        files: seed.files,
    }
}

/// File `f` is the file the walk recorded as `seed`, with what the parser
/// reads in its text; which file each statement names, and what is reached,
/// are set apart.
pub open spec fn file_record(seed: FileSeed, id: nat, root_len: nat, f: FileModel) -> bool {
    &&& f.id == id
    &&& f.name == seed.comps.last()
    &&& f.rel == joined_rel(seed.comps.skip(root_len as int))
    &&& f.path == path_text(seed.comps)
    &&& f.dir == seed.dir
    &&& parsed_from(seed.text, file_parse(f))
    &&& forall|k: int|
        0 <= k < f.statements.len() ==> (#[trigger] f.statements[k]).external == is_external(
            f.statements[k].module,
        )
}

// ---------------------------------------------------------- building files

fn kind_of(k: RawStatementKind) -> (r: StatementKind)
    ensures
        r == statement_kind(k),
{
    match k {
        RawStatementKind::Use => StatementKind::Use,
        RawStatementKind::Import => StatementKind::Import,
        RawStatementKind::Export => StatementKind::Export,
    }
}

fn external_module(module: &String) -> (r: bool)
    ensures
        r == is_external(module@),
{
    let cs = crate::text::chars_of(module.as_str());
    cs.len() > 0 && cs[0] == '@'
}

fn items_of(items: Vec<crate::parser::RawItem>) -> (r: Vec<StatementItem>)
    ensures
        r@.map_values(|i: StatementItem| i@) == items@.map_values(|i: crate::parser::RawItem| i@),
{
    let mut rest = items;
    let ghost all = rest@.map_values(|i: crate::parser::RawItem| i@);
    let mut out: Vec<StatementItem> = Vec::new();
    while rest.len() > 0
        invariant
            out@.map_values(|i: StatementItem| i@) + rest@.map_values(
                |i: crate::parser::RawItem| i@,
            ) == all,
        decreases rest@.len(),
    {
        let ghost before = rest@;
        let ghost done = out@.map_values(|i: StatementItem| i@);
        let it = rest.remove(0);
        let item = StatementItem { name: it.name, local: it.local };
        out.push(item);
        assert(out@.map_values(|i: StatementItem| i@) =~= done.push(before[0]@));
        assert(before.map_values(|i: crate::parser::RawItem| i@) =~= seq![before[0]@]
            + rest@.map_values(|i: crate::parser::RawItem| i@));
        assert(done.push(before[0]@) + rest@.map_values(|i: crate::parser::RawItem| i@)
            =~= done + before.map_values(|i: crate::parser::RawItem| i@));
    }
    assert(out@.map_values(|i: StatementItem| i@) =~= all);
    out
}

/// The file the walk recorded as `node`, numbered `id`.
pub fn build_file(node: &FileNode, id: usize, root_len: usize) -> (f: SpecFile)
    requires
        1 <= node.comps@.len(),
        root_len <= node.comps@.len(),
    ensures
        file_record(node@, id as nat, root_len as nat, f@),
        forall|k: int| 0 <= k < f@.statements.len() ==> (#[trigger] f@.statements[k]).target is None,
        forall|k: int| 0 <= k < f@.symbols.len() ==> !(#[trigger] f@.symbols[k]).reached,
        !f.reached,
        !f.is_config,
        !f.is_entry,
{
    let parsed = parse(node.text.as_str());
    let ghost pv = parsed@;
    let n = node.comps.len();
    let name = string_of(node.comps[n - 1].as_slice());
    let rel = string_of(rel_string(&node.comps, root_len).as_slice());
    let path = string_of(path_string(&node.comps).as_slice());
    let mut raw_symbols = parsed.symbols;
    let mut symbols: Vec<Symbol> = Vec::new();
    while raw_symbols.len() > 0
        invariant
            symbols@.map_values(|s: Symbol| symbol_raw(s@)) + raw_symbols@.map_values(
                |s: crate::parser::RawSymbol| s@,
            ) == pv.symbols,
            forall|k: int| 0 <= k < symbols@.len() ==> !(#[trigger] symbols@[k]).reached,
        decreases raw_symbols@.len(),
    {
        let ghost before = raw_symbols@;
        let ghost done = symbols@.map_values(|s: Symbol| symbol_raw(s@));
        let r = raw_symbols.remove(0);
        let sym = Symbol {
            name: r.name,
            kind: r.kind,
            kind_alias: r.kind_alias,
            exported: r.exported,
            is_abstract: r.is_abstract,
            line: r.line,
            fields: r.fields,
            refs: r.refs,
            reached: false,
        };
        symbols.push(sym);
        assert(symbols@.map_values(|s: Symbol| symbol_raw(s@)) =~= done.push(before[0]@));
        assert(before.map_values(|s: crate::parser::RawSymbol| s@) =~= seq![before[0]@]
            + raw_symbols@.map_values(|s: crate::parser::RawSymbol| s@));
        assert(done.push(before[0]@) + raw_symbols@.map_values(|s: crate::parser::RawSymbol| s@)
            =~= done + before.map_values(|s: crate::parser::RawSymbol| s@));
    }
    let mut raw_statements = parsed.statements;
    let mut statements: Vec<Statement> = Vec::new();
    while raw_statements.len() > 0
        invariant
            statements@.map_values(|s: Statement| statement_raw(s@)) + raw_statements@.map_values(
                |s: crate::parser::RawStatement| s@,
            ) == pv.statements,
            forall|k: int|
                0 <= k < statements@.len() ==> (#[trigger] statements@[k]).target is None
                    && statements@[k].external == is_external(statements@[k].module@),
        decreases raw_statements@.len(),
    {
        let ghost before = raw_statements@;
        let ghost done = statements@.map_values(|s: Statement| statement_raw(s@));
        let r = raw_statements.remove(0);
        let external = external_module(&r.module);
        let st = Statement {
            kind: kind_of(r.kind),
            module: r.module,
            items: items_of(r.items),
            wildcard: r.wildcard,
            line: r.line,
            target: None,
            external,
        };
        statements.push(st);
        assert(statement_raw(st@) == before[0]@);
        assert(statements@.map_values(|s: Statement| statement_raw(s@)) =~= done.push(before[0]@));
        assert(before.map_values(|s: crate::parser::RawStatement| s@) =~= seq![before[0]@]
            + raw_statements@.map_values(|s: crate::parser::RawStatement| s@));
        assert(done.push(before[0]@) + raw_statements@.map_values(
            |s: crate::parser::RawStatement| s@,
        ) =~= done + before.map_values(|s: crate::parser::RawStatement| s@));
    }
    let f = SpecFile {
        id,
        name,
        rel,
        path,
        dir: node.dir,
        symbols,
        statements,
        reached: false,
        is_config: false,
        is_entry: false,
    };
    proof {
        assert(statements@.map_values(|s: Statement| statement_raw(s@)) =~= pv.statements);
        assert(symbols@.map_values(|s: Symbol| symbol_raw(s@)) =~= pv.symbols);
        assert(file_parse(f@).statements =~= pv.statements);
        assert(file_parse(f@).symbols =~= pv.symbols);
        assert(texts(node.comps@).last() == node.comps@[n - 1]@);
    }
    f
}

/// The folder the walk recorded as `node`, numbered `id`.
pub fn build_dir(node: &DirNode, id: usize, root_len: usize) -> (d: SpecDir)
    requires
        root_len <= node.comps@.len(),
    ensures
        d@ == dir_record(node@, id as nat, root_len as nat),
{
    let n = node.comps.len();
    let name = if n == 0 {
        string_of(path_string(&node.comps).as_slice())
    } else {
        string_of(node.comps[n - 1].as_slice())
    };
    let rel = string_of(rel_string(&node.comps, root_len).as_slice());
    let path = string_of(path_string(&node.comps).as_slice());
    let dirs = copy_ids(&node.dirs);
    let files = copy_ids(&node.files);
    SpecDir { id, name, rel, path, parent: node.parent, dirs, files }
}

fn copy_ids(v: &Vec<usize>) -> (r: Vec<usize>)
    ensures
        r@ == v@,
{
    let mut out: Vec<usize> = Vec::new();
    let mut k: usize = 0;
    while k < v.len()
        invariant
            k <= v@.len(),
            out@ == v@.take(k as int),
        decreases v@.len() - k,
    {
        out.push(v[k]);
        assert(v@.take(k + 1) =~= v@.take(k as int).push(v@[k as int]));
        k += 1;
    }
    assert(v@.take(v@.len() as int) =~= v@);
    out
}

// ------------------------------------------------------ looking files up

/// The first file recorded at path `c`.
pub open spec fn file_at(paths: Seq<Components>, c: Components) -> Option<nat> {
    if exists|i: int| 0 <= i < paths.len() && paths[i] == c {
        Some(
            (choose|i: int|
                0 <= i < paths.len() && paths[i] == c && forall|j: int|
                    0 <= j < i ==> #[trigger] paths[j] != c) as nat,
        )
    } else {
        None
    }
}

/// The paths of the files the walk recorded.
pub open spec fn seed_paths(files: Seq<FileSeed>) -> Seq<Components> {
    files.map_values(|f: FileSeed| f.comps)
}

/// The `root` and `entry` fields among the first `n` fields of a
/// `piton-config` declaration; the last non-empty one of each counts.
pub open spec fn fields_config(
    fields: Seq<(Text, Text)>,
    n: nat,
    root: Components,
    acc: (Components, Option<Components>),
) -> (Components, Option<Components>)
    decreases n,
{
    if n == 0 || n > fields.len() {
        acc
    } else {
        let prev = fields_config(fields, (n - 1) as nat, root, acc);
        let (key, value) = fields[n - 1];
        if value.len() == 0 {
            prev
        } else if key == "root"@ {
            (join_normalized(root, value), prev.1)
        } else if key == "entry"@ {
            (prev.0, Some(join_normalized(root, value)))
        } else {
            prev
        }
    }
}

/// The same over the `piton-config` declarations among the first `n`.
pub open spec fn symbols_config(
    symbols: Seq<SymbolView>,
    n: nat,
    root: Components,
    acc: (Components, Option<Components>),
) -> (Components, Option<Components>)
    decreases n,
{
    if n == 0 || n > symbols.len() {
        acc
    } else {
        let prev = symbols_config(symbols, (n - 1) as nat, root, acc);
        if symbols[n - 1].kind == "piton-config"@ {
            fields_config(symbols[n - 1].fields, symbols[n - 1].fields.len(), root, prev)
        } else {
            prev
        }
    }
}

/// The spec root and the entry file's path that the configuration file sets:
/// by default the project root and no entry.
pub open spec fn config_of(files: Seq<FileModel>, config: Option<nat>, root: Components) -> (
    Components,
    Option<Components>,
) {
    match config {
        Some(i) if i < files.len() => symbols_config(
            files[i as int].symbols,
            files[i as int].symbols.len(),
            root,
            (root, None),
        ),
        _ => (root, None),
    }
}

/// The file a module specifier names, written in a file of folder `dir`: the
/// path with `.pi` for its extension, else the `index.pi` inside it, else the
/// path itself. A specifier that starts with `/` is read from the spec root.
pub open spec fn resolve_module_spec(
    paths: Seq<Components>,
    spec_root: Components,
    dir: Components,
    module: Text,
) -> Option<nat> {
    let rooted = module.len() > 0 && module[0] == '/';
    let base = if rooted {
        spec_root
    } else {
        dir
    };
    let rest = if rooted {
        module.skip(1)
    } else {
        module
    };
    let joined = join_normalized(base, rest);
    match file_at(paths, with_pi_extension(joined)) {
        Some(i) => Some(i),
        None => match file_at(paths, joined.push("index.pi"@)) {
            Some(i) => Some(i),
            None => file_at(paths, joined),
        },
    }
}

/// The file statement `s` of a file at `path` points at.
pub open spec fn target_spec(
    paths: Seq<Components>,
    spec_root: Components,
    path: Components,
    s: StatementView,
) -> Option<nat> {
    if s.external {
        None
    } else {
        resolve_module_spec(paths, spec_root, path.drop_last(), s.module)
    }
}

pub open spec fn node_paths(nodes: Seq<FileNode>) -> Seq<Components> {
    nodes.map_values(|f: FileNode| texts(f.comps@))
}

/// Whether two paths, given by their components, are the same.
fn same_path(a: &Vec<Vec<char>>, b: &Vec<Vec<char>>) -> (r: bool)
    ensures
        r == (texts(a@) == texts(b@)),
{
    if a.len() != b.len() {
        return false;
    }
    let mut k: usize = 0;
    while k < a.len()
        invariant
            k <= a@.len(),
            a@.len() == b@.len(),
            forall|j: int| 0 <= j < k ==> texts(a@)[j] == texts(b@)[j],
        decreases a@.len() - k,
    {
        if !crate::text::same(a[k].as_slice(), b[k].as_slice()) {
            assert(texts(a@)[k as int] != texts(b@)[k as int]);
            return false;
        }
        k += 1;
    }
    assert(texts(a@) =~= texts(b@));
    true
}

/// `file_at` over the recorded files.
pub fn find_file(nodes: &Vec<FileNode>, c: &Vec<Vec<char>>) -> (r: Option<usize>)
    ensures
        opt_id(r) == file_at(node_paths(nodes@), texts(c@)),
{
    let ghost ps = node_paths(nodes@);
    let ghost cv = texts(c@);
    let mut i: usize = 0;
    while i < nodes.len()
        invariant
            i <= nodes@.len(),
            ps == node_paths(nodes@),
            cv == texts(c@),
            forall|j: int| 0 <= j < i ==> #[trigger] ps[j] != cv,
        decreases nodes@.len() - i,
    {
        if same_path(&nodes[i].comps, c) {
            proof {
                assert(ps[i as int] == cv);
                let k = choose|k: int|
                    0 <= k < ps.len() && ps[k] == cv && forall|j: int|
                        0 <= j < k ==> #[trigger] ps[j] != cv;
                if k > i {
                    assert(ps[i as int] != cv);
                }
            }
            return Some(i);
        }
        i += 1;
    }
    None
}

pub open spec fn opt_comps(o: Option<Vec<Vec<char>>>) -> Option<Components> {
    match o {
        Some(c) => Some(texts(c@)),
        None => None,
    }
}

/// `config_of`: the spec root and the entry path the configuration sets.
pub fn read_config(files: &Vec<SpecFile>, config: Option<usize>, root: &Vec<Vec<char>>) -> (r: (
    Vec<Vec<char>>,
    Option<Vec<Vec<char>>>,
))
    ensures
        (texts(r.0@), opt_comps(r.1)) == config_of(
            crate::model::file_views(files@),
            opt_id(config),
            texts(root@),
        ),
{
    let ghost rv = texts(root@);
    let mut spec_root = root.clone();
    assert(texts(spec_root@) =~= rv);
    let mut entry: Option<Vec<Vec<char>>> = None;
    let id = match config {
        Some(i) if i < files.len() => i,
        _ => {
            return (spec_root, entry);
        },
    };
    let symbols = &files[id].symbols;
    let ghost sv = files@[id as int]@.symbols;
    assert(crate::model::file_views(files@)[id as int] == files@[id as int]@);
    let mut k: usize = 0;
    while k < symbols.len()
        invariant
            k <= symbols@.len(),
            sv == symbols@.map_values(|s: Symbol| s@),
            rv == texts(root@),
            (texts(spec_root@), opt_comps(entry)) == symbols_config(sv, k as nat, rv, (rv, None)),
        decreases symbols@.len() - k,
    {
        let kind = crate::text::chars_of(symbols[k].kind.as_str());
        assert(sv[k as int] == symbols@[k as int]@);
        if crate::text::same_as(kind.as_slice(), "piton-config") {
            proof {
                reveal_strlit("piton-config");
            }
            let fields = &symbols[k].fields;
            let ghost fv = sv[k as int].fields;
            let ghost acc = (texts(spec_root@), opt_comps(entry));
            let mut j: usize = 0;
            while j < fields.len()
                invariant
                    j <= fields@.len(),
                    fv == fields@.map_values(|p: (String, String)| crate::parser::pair_texts(p)),
                    rv == texts(root@),
                    (texts(spec_root@), opt_comps(entry)) == fields_config(fv, j as nat, rv, acc),
                decreases fields@.len() - j,
            {
                let key = crate::text::chars_of(fields[j].0.as_str());
                let value = crate::text::chars_of(fields[j].1.as_str());
                assert(fv[j as int] == (key@, value@));
                if value.len() > 0 {
                    if crate::text::same_as(key.as_slice(), "root") {
                        spec_root = crate::paths::join_norm(root, value.as_slice());
                    } else if crate::text::same_as(key.as_slice(), "entry") {
                        entry = Some(crate::paths::join_norm(root, value.as_slice()));
                    }
                }
                proof {
                    reveal_strlit("root");
                    reveal_strlit("entry");
                }
                j += 1;
            }
        }
        k += 1;
    }
    (spec_root, entry)
}

/// `resolve_module_spec`, over the recorded files.
pub fn resolve_module(
    nodes: &Vec<FileNode>,
    spec_root: &Vec<Vec<char>>,
    dir: &Vec<Vec<char>>,
    module: &String,
) -> (r: Option<usize>)
    ensures
        opt_id(r) == resolve_module_spec(
            node_paths(nodes@),
            texts(spec_root@),
            texts(dir@),
            module@,
        ),
{
    let m = crate::text::chars_of(module.as_str());
    let rooted = m.len() > 0 && m[0] == '/';
    let joined = if rooted {
        let rest = crate::text::slice_of(m.as_slice(), 1, m.len());
        assert(rest@ =~= module@.skip(1));
        crate::paths::join_norm(spec_root, rest.as_slice())
    } else {
        crate::paths::join_norm(dir, m.as_slice())
    };
    let first = crate::paths::with_extension_pi(&joined);
    if let Some(i) = find_file(nodes, &first) {
        return Some(i);
    }
    let mut index = joined.clone();
    assert(texts(index@) =~= texts(joined@));
    let ghost before = texts(index@);
    index.push(crate::text::chars_of("index.pi"));
    assert(texts(index@) =~= before.push("index.pi"@));
    if let Some(i) = find_file(nodes, &index) {
        return Some(i);
    }
    find_file(nodes, &joined)
}

pub open spec fn with_target(s: StatementView, t: Option<nat>) -> StatementView {
    StatementView { target: t, ..s }
}

/// File `f`, found at `path`, with each statement pointed at its file.
pub open spec fn with_targets(
    f: FileModel,
    paths: Seq<Components>,
    spec_root: Components,
    path: Components,
) -> FileModel {
    FileModel {
        statements: f.statements.map_values(
            |s: StatementView| with_target(s, target_spec(paths, spec_root, path, s)),
        ),
        ..f
    }
}

/// Points every statement at the file its module specifier names.
pub fn resolve_statements(
    files: &mut Vec<SpecFile>,
    nodes: &Vec<FileNode>,
    spec_root: &Vec<Vec<char>>,
)
    requires
        old(files)@.len() == nodes@.len(),
        forall|i: int| 0 <= i < nodes@.len() ==> (#[trigger] nodes@[i]).comps@.len() >= 1,
        forall|i: int, k: int|
            0 <= i < old(files)@.len() && 0 <= k < old(files)@[i]@.statements.len()
                ==> (#[trigger] old(files)@[i]@.statements[k]).target is None,
    ensures
        final(files)@.len() == old(files)@.len(),
        forall|i: int|
            0 <= i < final(files)@.len() ==> (#[trigger] final(files)@[i])@ == with_targets(
                old(files)@[i]@,
                node_paths(nodes@),
                texts(spec_root@),
                node_paths(nodes@)[i],
            ),
{
    let ghost orig = files@;
    let ghost ps = node_paths(nodes@);
    let ghost sr = texts(spec_root@);
    let mut id: usize = 0;
    while id < files.len()
        invariant
            id <= files@.len(),
            files@.len() == orig.len(),
            orig.len() == nodes@.len(),
            ps == node_paths(nodes@),
            sr == texts(spec_root@),
            forall|i: int| 0 <= i < nodes@.len() ==> (#[trigger] nodes@[i]).comps@.len() >= 1,
            forall|i: int, k: int|
                0 <= i < orig.len() && 0 <= k < orig[i]@.statements.len()
                    ==> (#[trigger] orig[i]@.statements[k]).target is None,
            forall|i: int|
                0 <= i < id ==> (#[trigger] files@[i])@ == with_targets(orig[i]@, ps, sr, ps[i]),
            forall|i: int| id <= i < files@.len() ==> #[trigger] files@[i] == orig[i],
        decreases files@.len() - id,
    {
        let mut dir = nodes[id].comps.clone();
        assert(texts(dir@) =~= ps[id as int]);
        assert(forall|k: int| 0 <= k < orig[id as int]@.statements.len() ==> (#[trigger] orig[id as int]@.statements[k]).target is None);
        dir.pop();
        assert(texts(dir@) =~= ps[id as int].drop_last());
        let ghost f0 = files@[id as int];
        let mut index: usize = 0;
        while index < files[id].statements.len()
            invariant
                id < files@.len(),
                files@.len() == orig.len(),
                orig.len() == nodes@.len(),
                ps == node_paths(nodes@),
                sr == texts(spec_root@),
                f0 == orig[id as int],
                forall|k: int|
                    0 <= k < f0@.statements.len() ==> (#[trigger] f0@.statements[k]).target is None,
                ps[id as int].len() >= 1,
                texts(dir@) == ps[id as int].drop_last(),
                index <= files@[id as int].statements@.len(),
                files@[id as int].statements@.len() == f0.statements@.len(),
                files@[id as int]@ == (FileModel { statements: files@[id as int]@.statements, ..f0@ }),
                forall|k: int|
                    0 <= k < index ==> (#[trigger] files@[id as int]@.statements[k]) == with_target(
                        f0@.statements[k],
                        target_spec(ps, sr, ps[id as int], f0@.statements[k]),
                    ),
                forall|k: int|
                    index <= k < f0.statements@.len() ==> (#[trigger] files@[id as int]@.statements[k])
                        == f0@.statements[k],
                forall|i: int|
                    0 <= i < id ==> (#[trigger] files@[i])@ == with_targets(orig[i]@, ps, sr, ps[i]),
                forall|i: int| id < i < files@.len() ==> #[trigger] files@[i] == orig[i],
            decreases f0.statements@.len() - index,
        {
            let ghost fb = files@;
            let ghost sb = fb[id as int].statements@[index as int];
            assert(fb[id as int]@.statements[index as int] == sb@);
            assert(f0@.statements[index as int] == sb@);
            if !files[id].statements[index].external {
                let t = resolve_module(nodes, spec_root, &dir, &files[id].statements[index].module);
                files[id].statements[index].target = t;
                assert(files@[id as int].statements@[index as int]@ == with_target(sb@, opt_id(t)));
            } else {
                assert(sb@.target is None);
                assert(files@[id as int].statements@[index as int]@ == with_target(sb@, None));
            }
            proof {
                assert(files@[id as int]@.statements[index as int] == with_target(
                    f0@.statements[index as int],
                    target_spec(ps, sr, ps[id as int], f0@.statements[index as int]),
                ));
                assert(files@[id as int]@.statements =~= fb[id as int]@.statements.update(
                    index as int,
                    files@[id as int]@.statements[index as int],
                ));
                assert(forall|i: int| 0 <= i < files@.len() && i != id ==> files@[i] == fb[i]);
            }
            index += 1;
        }
        assert(files@[id as int]@.statements =~= with_targets(orig[id as int]@, ps, sr, ps[id as int]).statements);
        assert(files@[id as int]@ =~= with_targets(orig[id as int]@, ps, sr, ps[id as int]));
        id += 1;
    }
}

// ----------------------------------------------------------------- loading

/// Why a folder could not be opened as a specbase.
#[derive(Debug)]
pub enum LoadError {
    NotADirectory(String),
    MissingConfig(String),
    Io(String),
}

/// The files with what loading marks on them (reached, configuration, entry)
/// cleared: what the connections and the reach are computed from.
pub open spec fn cleared(files: Seq<FileModel>) -> Seq<FileModel> {
    files.map_values(|f: FileModel| cleared_file(f))
}

pub open spec fn cleared_symbol(s: SymbolView) -> SymbolView {
    SymbolView { reached: false, ..s }
}

pub open spec fn cleared_file(f: FileModel) -> FileModel {
    FileModel {
        symbols: f.symbols.map_values(|s: SymbolView| cleared_symbol(s)),
        reached: false,
        is_config: false,
        is_entry: false,
        ..f
    }
}

pub open spec fn opt_seq(o: Option<nat>) -> Seq<nat> {
    match o {
        Some(i) => seq![i],
        None => seq![],
    }
}

/// The files reached and the declarations reached that the flags of `files`
/// record.
pub open spec fn reached_marks(files: Seq<FileModel>, modules: Set<nat>) -> crate::reach::Marks {
    crate::reach::Marks {
        files: Set::new(|i: nat| i < files.len() && files[i as int].reached),
        symbols: Set::new(
            |p: (nat, nat)|
                p.0 < files.len() && p.1 < files[p.0 as int].symbols.len()
                    && files[p.0 as int].symbols[p.1 as int].reached,
        ),
        modules,
    }
}

/// The modules loading `sb` from the walk `w` starts from: the
/// configuration file, then the entry its configuration names.
pub open spec fn loaded_roots(root: Text, w: Walked, sb: crate::model::Specbase) -> Seq<nat> {
    let rc = crate::paths::canonical_components(root);
    let paths = seed_paths(w.files);
    let plain = cleared(crate::model::file_views(sb.files@));
    let config = file_at(paths, rc.push(config_name()));
    let settings = config_of(plain, config, rc);
    let entry = match settings.1 {
        Some(p) => file_at(paths, p),
        None => None,
    };
    opt_seq(config) + opt_seq(entry)
}

/// `sb` is the specbase loaded from the folder at `root`, whose walk recorded
/// `w`.
pub open spec fn loaded(root: Text, w: Walked, sb: crate::model::Specbase) -> bool {
    let rc = crate::paths::canonical_components(root);
    let rl = rc.len();
    let paths = seed_paths(w.files);
    let fs = crate::model::file_views(sb.files@);
    let plain = cleared(fs);
    let config = file_at(paths, rc.push(config_name()));
    let settings = config_of(plain, config, rc);
    let spec_root = settings.0;
    let entry = match settings.1 {
        Some(p) => file_at(paths, p),
        None => None,
    };
    let roots = opt_seq(config) + opt_seq(entry);
    &&& sb.root@ == root
    &&& sb.spec_root@ == path_text(spec_root)
    &&& opt_id(sb.entry) == entry
    &&& sb.root_dir == 0
    &&& sb.dirs@.len() == w.dirs.len()
    &&& forall|k: int| 0 <= k < w.dirs.len() ==> (#[trigger] sb.dirs@[k])@ == dir_record(w.dirs[k], k as nat, rl)
    &&& fs.len() == w.files.len()
    &&& forall|i: int| 0 <= i < fs.len() ==> file_record(w.files[i], i as nat, rl, #[trigger] fs[i])
    &&& forall|i: int, k: int|
        0 <= i < fs.len() && 0 <= k < fs[i].statements.len() ==> (#[trigger] fs[i].statements[k]).target
            == target_spec(paths, spec_root, paths[i], fs[i].statements[k])
    &&& forall|i: int|
        0 <= i < fs.len() ==> (#[trigger] fs[i]).is_config == (config == Some(i as nat))
            && fs[i].is_entry == (entry == Some(i as nat))
    &&& crate::graph::edges_sorted(crate::graph::edge_views(sb.edges@))
    &&& forall|x: crate::graph::EdgeModel|
        crate::graph::edge_views(sb.edges@).contains(x) <==> crate::graph::all_edges(
            plain,
            plain.len(),
        ).contains(x)
    &&& exists|modules: Set<nat>| crate::reach::least_closed(plain, roots, #[trigger] reached_marks(fs, modules))
}

/// The components of the root's path.
fn root_components(root: &str) -> (r: Vec<Vec<char>>)
    ensures
        texts(r@) == crate::paths::canonical_components(root@),
{
    let cs = crate::text::chars_of(root);
    if cs.len() <= 1 {
        let out: Vec<Vec<char>> = Vec::new();
        assert(texts(out@) =~= Seq::<Text>::empty());
        return out;
    }
    let rest = crate::text::slice_of(cs.as_slice(), 1, cs.len());
    assert(rest@ =~= root@.skip(1));
    crate::text::split_char(rest.as_slice(), '/')
}

/// File `f` with the marks loading puts on it.
pub open spec fn flagged(
    f: FileModel,
    reached: bool,
    is_config: bool,
    is_entry: bool,
    symbols: Seq<bool>,
) -> FileModel {
    FileModel {
        symbols: Seq::new(
            f.symbols.len(),
            |k: int| SymbolView { reached: symbols[k], ..f.symbols[k] },
        ),
        reached,
        is_config,
        is_entry,
        ..f
    }
}

pub open spec fn is_some_of(o: Option<usize>, i: int) -> bool {
    match o {
        Some(x) => x == i,
        None => false,
    }
}

/// Puts the marks on every file: reached or not, configuration, entry.
fn apply_marks(
    files: &mut Vec<SpecFile>,
    mk: &crate::reach::Marker,
    config: Option<usize>,
    entry: Option<usize>,
)
    requires
        crate::reach::shaped(crate::model::file_views(old(files)@), *mk),
    ensures
        final(files)@.len() == old(files)@.len(),
        forall|i: int|
            0 <= i < final(files)@.len() ==> (#[trigger] final(files)@[i])@ == flagged(
                old(files)@[i]@,
                mk.files@[i],
                is_some_of(config, i),
                is_some_of(entry, i),
                mk.symbols@[i]@,
            ),
{
    let ghost orig = files@;
    let mut i: usize = 0;
    while i < files.len()
        invariant
            i <= files@.len(),
            files@.len() == orig.len(),
            crate::reach::shaped(crate::model::file_views(orig), *mk),
            forall|j: int|
                0 <= j < i ==> (#[trigger] files@[j])@ == flagged(
                    orig[j]@,
                    mk.files@[j],
                    is_some_of(config, j),
                    is_some_of(entry, j),
                    mk.symbols@[j]@,
                ),
            forall|j: int| i <= j < files@.len() ==> #[trigger] files@[j] == orig[j],
        decreases files@.len() - i,
    {
        assert(crate::model::file_views(orig)[i as int] == orig[i as int]@);
        let ghost f0 = files@[i as int];
        files[i].reached = mk.files[i];
        files[i].is_config = match config {
            Some(c) => c == i,
            None => false,
        };
        files[i].is_entry = match entry {
            Some(e) => e == i,
            None => false,
        };
        let mut k: usize = 0;
        while k < files[i].symbols.len()
            invariant
                i < files@.len(),
                files@.len() == orig.len(),
                f0 == orig[i as int],
                crate::reach::shaped(crate::model::file_views(orig), *mk),
                files@[i as int].symbols@.len() == f0.symbols@.len(),
                mk.symbols@[i as int]@.len() == f0.symbols@.len(),
                k <= f0.symbols@.len(),
                files@[i as int].reached == mk.files@[i as int],
                files@[i as int].is_config == is_some_of(config, i as int),
                files@[i as int].is_entry == is_some_of(entry, i as int),
                files@[i as int]@ == (FileModel {
                    symbols: files@[i as int]@.symbols,
                    reached: mk.files@[i as int],
                    is_config: is_some_of(config, i as int),
                    is_entry: is_some_of(entry, i as int),
                    ..f0@
                }),
                forall|q: int|
                    0 <= q < k ==> (#[trigger] files@[i as int]@.symbols[q]) == (SymbolView {
                        reached: mk.symbols@[i as int]@[q],
                        ..f0@.symbols[q]
                    }),
                forall|q: int|
                    k <= q < f0.symbols@.len() ==> (#[trigger] files@[i as int]@.symbols[q])
                        == f0@.symbols[q],
                forall|j: int|
                    0 <= j < i ==> (#[trigger] files@[j])@ == flagged(
                        orig[j]@,
                        mk.files@[j],
                        is_some_of(config, j),
                        is_some_of(entry, j),
                        mk.symbols@[j]@,
                    ),
                forall|j: int| i < j < files@.len() ==> #[trigger] files@[j] == orig[j],
            decreases f0.symbols@.len() - k,
        {
            let ghost fb = files@;
            assert(fb[i as int]@.symbols[k as int] == fb[i as int].symbols@[k as int]@);
            files[i].symbols[k].reached = mk.symbols[i][k];
            proof {
                assert(files@[i as int]@.symbols[k as int] == files@[i as int].symbols@[k as int]@);
                assert(files@[i as int]@.symbols =~= fb[i as int]@.symbols.update(
                    k as int,
                    files@[i as int]@.symbols[k as int],
                ));
                assert(forall|j: int| 0 <= j < files@.len() && j != i ==> files@[j] == fb[j]);
            }
            k += 1;
        }
        assert(files@[i as int]@.symbols =~= flagged(
            orig[i as int]@,
            mk.files@[i as int],
            is_some_of(config, i as int),
            is_some_of(entry, i as int),
            mk.symbols@[i as int]@,
        ).symbols);
        i += 1;
    }
}

/// The model's folders and files, from what the walk recorded.
fn build_all(w: &crate::walk::WalkState, root_len: usize) -> (r: (Vec<SpecDir>, Vec<SpecFile>))
    requires
        crate::walk::seeds_below(w@, root_len as nat),
    ensures
        r.0@.len() == w@.dirs.len(),
        forall|k: int| 0 <= k < w@.dirs.len() ==> (#[trigger] r.0@[k])@ == dir_record(w@.dirs[k], k as nat, root_len as nat),
        r.1@.len() == w@.files.len(),
        forall|i: int| 0 <= i < w@.files.len() ==> file_record(w@.files[i], i as nat, root_len as nat, #[trigger] r.1@[i]@),
        forall|i: int| 0 <= i < w@.files.len() ==> plain_file((#[trigger] r.1@[i])@),
{
    let mut dirs: Vec<SpecDir> = Vec::new();
    let mut k: usize = 0;
    while k < w.dirs.len()
        invariant
            k <= w@.dirs.len(),
            crate::walk::seeds_below(w@, root_len as nat),
            dirs@.len() == k,
            forall|j: int| 0 <= j < k ==> (#[trigger] dirs@[j])@ == dir_record(w@.dirs[j], j as nat, root_len as nat),
        decreases w@.dirs.len() - k,
    {
        assert(w@.dirs[k as int] == w.dirs@[k as int]@);
        let d = build_dir(&w.dirs[k], k, root_len);
        dirs.push(d);
        k += 1;
    }
    let mut files: Vec<SpecFile> = Vec::new();
    let mut i: usize = 0;
    while i < w.files.len()
        invariant
            i <= w@.files.len(),
            crate::walk::seeds_below(w@, root_len as nat),
            files@.len() == i,
            forall|j: int| 0 <= j < i ==> file_record(w@.files[j], j as nat, root_len as nat, #[trigger] files@[j]@),
            forall|j: int| 0 <= j < i ==> plain_file((#[trigger] files@[j])@),
        decreases w@.files.len() - i,
    {
        assert(w@.files[i as int] == w.files@[i as int]@);
        let f = build_file(&w.files[i], i, root_len);
        files.push(f);
        i += 1;
    }
    (dirs, files)
}

/// A file with no marks on it yet, and its statements pointed nowhere.
pub open spec fn plain_file(f: FileModel) -> bool {
    &&& !f.reached
    &&& !f.is_config
    &&& !f.is_entry
    &&& forall|k: int| 0 <= k < f.symbols.len() ==> !(#[trigger] f.symbols[k]).reached
    &&& forall|k: int| 0 <= k < f.statements.len() ==> (#[trigger] f.statements[k]).target is None
}

pub proof fn lemma_file_at_valid(paths: Seq<Components>, c: Components)
    ensures
        match file_at(paths, c) {
            Some(i) => i < paths.len(),
            None => true,
        },
{
    if exists|i: int| 0 <= i < paths.len() && paths[i] == c {
        let i = choose|i: int| 0 <= i < paths.len() && paths[i] == c;
        lemma_first_path(paths, c, i);
    }
}

pub proof fn lemma_first_path(paths: Seq<Components>, c: Components, i: int)
    requires
        0 <= i < paths.len(),
        paths[i] == c,
    ensures
        exists|k: int|
            0 <= k < paths.len() && paths[k] == c && forall|j: int| 0 <= j < k ==> #[trigger] paths[j] != c,
    decreases i,
{
    if exists|j: int| 0 <= j < i && #[trigger] paths[j] == c {
        let j = choose|j: int| 0 <= j < i && #[trigger] paths[j] == c;
        lemma_first_path(paths, c, j);
    } else {
        assert(forall|j: int| 0 <= j < i ==> #[trigger] paths[j] != c);
    }
}

pub proof fn lemma_resolve_valid(paths: Seq<Components>, spec_root: Components, dir: Components, module: Text)
    ensures
        match resolve_module_spec(paths, spec_root, dir, module) {
            Some(i) => i < paths.len(),
            None => true,
        },
{
    let rooted = module.len() > 0 && module[0] == '/';
    let base = if rooted {
        spec_root
    } else {
        dir
    };
    let rest = if rooted {
        module.skip(1)
    } else {
        module
    };
    let joined = join_normalized(base, rest);
    lemma_file_at_valid(paths, with_pi_extension(joined));
    lemma_file_at_valid(paths, joined.push("index.pi"@));
    lemma_file_at_valid(paths, joined);
}

pub open spec fn no_walk() -> Walked {
    Walked { dirs: seq![], files: seq![] }
}

/// What loading the folder at `root`, with the entries `tree`, gives: the
/// configuration file's absence, the first folder that could not be listed,
/// or the specbase.
/// Loading `sb` from the walk `w` demands, with the least marks `modules`
/// among them, a module that re-exports itself whole.
pub open spec fn loop_witness(root: Text, w: Walked, sb: crate::model::Specbase, modules: Set<nat>) -> bool {
    let fs = crate::model::file_views(sb.files@);
    &&& loaded(root, w, sb)
    &&& crate::reach::least_closed(cleared(fs), loaded_roots(root, w, sb), reached_marks(fs, modules))
    &&& crate::reach::demand_loops(cleared(fs), reached_marks(fs, modules))
}

/// Loading the folder demands a module that re-exports itself whole: each
/// demand of it demands it again, and the load never ends.
pub open spec fn demands_a_loop(root: Text, config_is_file: bool, tree: FsEntry) -> bool {
    config_is_file && match crate::walk::walk_dir(tree, crate::paths::canonical_components(root), None, no_walk()) {
        Ok((w, _)) => exists|sb: crate::model::Specbase, modules: Set<nat>| #[trigger] loop_witness(root, w, sb, modules),
        Err(_) => false,
    }
}

/// `sb`, loaded from the folder, demands no module that re-exports itself
/// whole.
pub open spec fn settles(root: Text, tree: FsEntry, sb: crate::model::Specbase) -> bool {
    let fs = crate::model::file_views(sb.files@);
    match crate::walk::walk_dir(tree, crate::paths::canonical_components(root), None, no_walk()) {
        Ok((w, _)) => exists|modules: Set<nat>|
            crate::reach::least_closed(cleared(fs), loaded_roots(root, w, sb), #[trigger] reached_marks(fs, modules))
                && !crate::reach::demand_loops(cleared(fs), reached_marks(fs, modules)),
        Err(_) => false,
    }
}

pub open spec fn load_result(root: Text, config_is_file: bool, tree: FsEntry, r: Result<
    crate::model::Specbase,
    LoadError,
>) -> bool {
    let walked = crate::walk::walk_dir(tree, crate::paths::canonical_components(root), None, no_walk());
    match r {
        Err(LoadError::MissingConfig(p)) => !config_is_file && p@ == root,
        Err(LoadError::Io(m)) => config_is_file && walked == Err::<(Walked, Option<nat>), Text>(m@),
        Err(LoadError::NotADirectory(_)) => false,
        Ok(sb) => config_is_file && match walked {
            Ok((w, _)) => loaded(root, w, sb),
            Err(_) => false,
        },
    }
}

/// The pieces `load` puts together make up a loaded specbase.
proof fn lemma_loaded(
    root: Text,
    w: Walked,
    sb: crate::model::Specbase,
    f0: Seq<FileModel>,
    f1: Seq<FileModel>,
    mk: crate::reach::Marker,
    config: Option<nat>,
    entry: Option<nat>,
    settings: (Components, Option<Components>),
)
    requires
        ({
            let rcv = crate::paths::canonical_components(root);
            let paths = seed_paths(w.files);
            let fs = crate::model::file_views(sb.files@);
            &&& sb.root@ == root
            &&& sb.spec_root@ == path_text(settings.0)
            &&& opt_id(sb.entry) == entry
            &&& sb.root_dir == 0
            &&& sb.dirs@.len() == w.dirs.len()
            &&& forall|k: int| 0 <= k < w.dirs.len() ==> (#[trigger] sb.dirs@[k])@ == dir_record(w.dirs[k], k as nat, rcv.len())
            &&& f0.len() == w.files.len()
            &&& forall|i: int| 0 <= i < f0.len() ==> file_record(w.files[i], i as nat, rcv.len(), #[trigger] f0[i])
            &&& forall|i: int| 0 <= i < f0.len() ==> plain_file(#[trigger] f0[i])
            &&& config == file_at(paths, rcv.push(config_name()))
            &&& settings == config_of(f0, config, rcv)
            &&& entry == match settings.1 {
                Some(p) => file_at(paths, p),
                None => None,
            }
            &&& f1.len() == f0.len()
            &&& forall|i: int| 0 <= i < f1.len() ==> #[trigger] f1[i] == with_targets(f0[i], paths, settings.0, paths[i])
            &&& fs.len() == f1.len()
            &&& forall|i: int| 0 <= i < fs.len() ==> #[trigger] fs[i] == flagged(
                f1[i],
                mk.files@[i],
                config == Some(i as nat),
                entry == Some(i as nat),
                mk.symbols@[i]@,
            )
            &&& crate::reach::shaped(f1, mk)
            &&& crate::reach::least_closed(f1, opt_seq(config) + opt_seq(entry), crate::reach::marks_of(mk))
            &&& crate::graph::edges_sorted(crate::graph::edge_views(sb.edges@))
            &&& forall|x: crate::graph::EdgeModel|
                crate::graph::edge_views(sb.edges@).contains(x) <==> crate::graph::all_edges(f1, f1.len()).contains(x)
        }),
    ensures
        loaded(root, w, sb),
        cleared(crate::model::file_views(sb.files@)) == f1,
        loaded_roots(root, w, sb) == opt_seq(config) + opt_seq(entry),
        reached_marks(crate::model::file_views(sb.files@), crate::reach::marks_of(mk).modules) == crate::reach::marks_of(mk),
{
    let rcv = crate::paths::canonical_components(root);
    let paths = seed_paths(w.files);
    let fs = crate::model::file_views(sb.files@);
    let sr = settings.0;
    assert forall|i: int| 0 <= i < fs.len() implies #[trigger] cleared(fs)[i] == f1[i] by {
        assert(cleared(fs)[i].symbols =~= f1[i].symbols);
    }
    assert(cleared(fs) =~= f1);
    assert forall|i: int| 0 <= i < f0.len() implies #[trigger] f1[i].symbols == f0[i].symbols by {
        assert(f1[i] == with_targets(f0[i], paths, sr, paths[i]));
    }
    assert(config_of(f1, config, rcv) == config_of(f0, config, rcv));
    assert forall|i: int| 0 <= i < fs.len() implies file_record(w.files[i], i as nat, rcv.len(), #[trigger] fs[i]) by {
        assert(file_record(w.files[i], i as nat, rcv.len(), f0[i]));
        assert(file_parse(fs[i]).statements =~= file_parse(f0[i]).statements);
        assert(file_parse(fs[i]).symbols =~= file_parse(f0[i]).symbols);
    }
    assert forall|i: int, k: int|
        0 <= i < fs.len() && 0 <= k < fs[i].statements.len() implies (#[trigger] fs[i].statements[k]).target
            == target_spec(paths, sr, paths[i], fs[i].statements[k]) by {
        assert(fs[i].statements[k] == f1[i].statements[k]);
    }
    let marks = crate::reach::marks_of(mk);
    assert(reached_marks(fs, marks.modules).files =~= marks.files);
    assert(reached_marks(fs, marks.modules).symbols =~= marks.symbols);
    assert(reached_marks(fs, marks.modules) == marks);
}

impl crate::model::Specbase {
    /// Reads the folder at `root`, which holds `piton.config.pi` when
    /// `config_is_file`, with its entries `tree`; where loading it demands a
    /// module that re-exports itself whole, which the load could never finish,
    /// there is no specbase (`None`).
    pub fn load_or_loop(root: &str, config_is_file: bool, tree: &FsEntry) -> (r: Option<
        Result<crate::model::Specbase, LoadError>,
    >)
        requires
            crate::walk::distinct_names(*tree),
        ensures
            r is None ==> demands_a_loop(root@, config_is_file, *tree),
            r matches Some(x) ==> load_result(root@, config_is_file, *tree, x) && (x matches Ok(sb) ==> settles(
                root@,
                *tree,
                sb,
            )),
    {
        let (r, loops) = Self::load_marking(root, config_is_file, tree);
        if loops {
            None
        } else {
            Some(r)
        }
    }

    fn load_marking(root: &str, config_is_file: bool, tree: &FsEntry) -> (r: (Result<
        crate::model::Specbase,
        LoadError,
    >, bool))
        requires
            crate::walk::distinct_names(*tree),
        ensures
            load_result(root@, config_is_file, *tree, r.0),
            r.1 ==> demands_a_loop(root@, config_is_file, *tree),
            !r.1 ==> (r.0 matches Ok(sb) ==> settles(root@, *tree, sb)),
    {
        let root_text = crate::text::chars_of(root);
        if !config_is_file {
            return (Err(LoadError::MissingConfig(string_of(root_text.as_slice()))), false);
        }
        let rc = root_components(root);
        let ghost rcv = texts(rc@);
        let mut w = crate::walk::WalkState { dirs: Vec::new(), files: Vec::new() };
        proof {
            assert(w@.dirs =~= no_walk().dirs);
            assert(w@.files =~= no_walk().files);
        }
        let walked = crate::walk::walk_folder(tree, &rc, None, &mut w);
        match walked {
            Err(m) => {
                return (Err(LoadError::Io(m)), false);
            },
            Ok(_) => {},
        }
        let rl = rc.len();
        proof {
            crate::walk::lemma_walk_depth(*tree, rcv, None, no_walk(), rl as nat);
        }
        let (dirs, mut files) = build_all(&w, rl);
        let ghost f0 = crate::model::file_views(files@);
        let ghost paths = seed_paths(w@.files);
        assert(paths =~= node_paths(w.files@));
        let mut config_path = rc.clone();
        assert(texts(config_path@) =~= rcv);
        config_path.push(crate::text::chars_of("piton.config.pi"));
        assert(texts(config_path@) =~= rcv.push(config_name()));
        let config_id = find_file(&w.files, &config_path);
        proof {
            lemma_file_at_valid(paths, rcv.push(config_name()));
        }
        let (spec_root, entry_path) = read_config(&files, config_id, &rc);
        let ghost settings = config_of(f0, opt_id(config_id), rcv);
        proof {
            assert forall|i: int| 0 <= i < w@.files.len() implies (#[trigger] w.files@[i]).comps@.len() >= 1 by {
                assert(w@.files[i] == w.files@[i]@);
            }
        }
        resolve_statements(&mut files, &w.files, &spec_root);
        let ghost f1 = crate::model::file_views(files@);
        proof {
            assert forall|f: int, k: int|
                0 <= f < f1.len() && 0 <= k < f1[f].statements.len() implies match (#[trigger] f1[f].statements[k]).target {
                    Some(t) => t < f1.len(),
                    None => true,
                } by {
                assert(f1[f] == files@[f]@);
                let s0 = f0[f].statements[k];
                assert(f1[f].statements[k] == with_target(s0, target_spec(paths, texts(spec_root@), paths[f], s0)));
                lemma_resolve_valid(paths, texts(spec_root@), paths[f].drop_last(), s0.module);
            }
            assert(crate::graph::targets_valid(f1));
        }
        let edges = crate::graph::build_edges(&files);
        let entry = match &entry_path {
            Some(p) => find_file(&w.files, p),
            None => None,
        };
        proof {
            match settings.1 {
                Some(p) => lemma_file_at_valid(paths, p),
                None => {},
            }
        }
        let mut roots: Vec<usize> = Vec::new();
        if let Some(c) = config_id {
            roots.push(c);
        }
        if let Some(e) = entry {
            roots.push(e);
        }
        assert(crate::model::ids(roots@) =~= opt_seq(opt_id(config_id)) + opt_seq(opt_id(entry)));
        let mk = crate::reach::mark_reachable(&files, &roots);
        let loops = crate::reach::demand_loops_in(&files, &mk);
        apply_marks(&mut files, &mk, config_id, entry);
        let ghost f2 = crate::model::file_views(files@);
        proof {
            assert forall|i: int| 0 <= i < f2.len() implies #[trigger] cleared(f2)[i] == f1[i] by {
                assert(f2[i] == files@[i]@);
                assert(cleared(f2)[i].symbols =~= f1[i].symbols);
            }
            assert(cleared(f2) =~= f1);
        }
        let sb = crate::model::Specbase {
            root: string_of(root_text.as_slice()),
            spec_root: string_of(path_string(&spec_root).as_slice()),
            entry,
            dirs,
            files,
            edges,
            root_dir: 0,
        };
        proof {
            lemma_loaded(root@, w@, sb, f0, f1, mk, opt_id(config_id), opt_id(entry), settings);
            let modules = crate::reach::marks_of(mk).modules;
            let fs = crate::model::file_views(sb.files@);
            if loops {
                assert(loop_witness(root@, w@, sb, modules));
            } else {
                assert(crate::reach::least_closed(cleared(fs), loaded_roots(root@, w@, sb), reached_marks(fs, modules)));
            }
        }
        (Ok(sb), loops)
    }

    /// Reads the folder at `root`, which holds `piton.config.pi` when
    /// `config_is_file`, with its entries `tree`. A folder whose load demands
    /// a module that re-exports itself whole is left out: that load never
    /// finishes.
    pub fn load(root: &str, config_is_file: bool, tree: &FsEntry) -> (r: Result<
        crate::model::Specbase,
        LoadError,
    >)
        requires
            crate::walk::distinct_names(*tree),
            !demands_a_loop(root@, config_is_file, *tree),
        ensures
            load_result(root@, config_is_file, *tree, r),
            r matches Ok(sb) ==> settles(root@, *tree, sb),
    {
        let (r, _) = Self::load_marking(root, config_is_file, tree);
        r
    }
}

/// A load never enters a hidden folder, nor `target`, `node_modules`, `dist`
/// or `build`: below the opened folder, no folder of the specbase and no
/// folder a file of it lies in is one of those.
pub proof fn law_loads_leave_out_hidden_and_build_folders(
    root: Text,
    config_is_file: bool,
    tree: FsEntry,
    sb: crate::model::Specbase,
)
    requires
        load_result(root, config_is_file, tree, Ok(sb)),
    ensures
        match crate::walk::walk_dir(tree, crate::paths::canonical_components(root), None, no_walk()) {
            Ok((w, _)) => {
                let rl = crate::paths::canonical_components(root).len();
                &&& sb.files@.len() == w.files.len()
                &&& forall|i: int| 0 <= i < w.files.len() ==> {
                    &&& (#[trigger] sb.files@[i])@.path == path_text(w.files[i].comps)
                    &&& sb.files@[i]@.rel == joined_rel(w.files[i].comps.skip(rl as int))
                    &&& crate::walk::clear_from(w.files[i].comps, rl, w.files[i].comps.len() - 1)
                }
                &&& sb.dirs@.len() == w.dirs.len()
                &&& forall|k: int| 0 <= k < w.dirs.len() ==> {
                    &&& (#[trigger] sb.dirs@[k])@.path == path_text(w.dirs[k].comps)
                    &&& crate::walk::clear_from(w.dirs[k].comps, rl, w.dirs[k].comps.len() as int)
                }
            },
            Err(_) => false,
        },
{
    let rc = crate::paths::canonical_components(root);
    let rl = rc.len();
    assert(crate::walk::walk_clear(no_walk(), rl));
    crate::walk::lemma_walk_clear(tree, rc, None, no_walk(), rl);
    match crate::walk::walk_dir(tree, rc, None, no_walk()) {
        Ok((w, _)) => {
            let fs = crate::model::file_views(sb.files@);
            assert forall|i: int| 0 <= i < w.files.len() implies {
                &&& (#[trigger] sb.files@[i])@.path == path_text(w.files[i].comps)
                &&& sb.files@[i]@.rel == joined_rel(w.files[i].comps.skip(rl as int))
                &&& crate::walk::clear_from(w.files[i].comps, rl, w.files[i].comps.len() - 1)
            } by {
                assert(fs[i] == sb.files@[i]@);
                assert(file_record(w.files[i], i as nat, rl, fs[i]));
            }
            assert forall|k: int| 0 <= k < w.dirs.len() implies {
                &&& (#[trigger] sb.dirs@[k])@.path == path_text(w.dirs[k].comps)
                &&& crate::walk::clear_from(w.dirs[k].comps, rl, w.dirs[k].comps.len() as int)
            } by {
                assert(sb.dirs@[k]@ == dir_record(w.dirs[k], k as nat, rl));
            }
        },
        Err(_) => {},
    }
}

} // verus!
