//! The in-memory model of a specbase: the folders, files, symbols and the
//! connections between them that the node map draws.
//!
//! The model keeps everything the parser recovers, including source positions
//! and paths the current views do not put on screen. Paths are kept as text,
//! `/` separated.

use vstd::prelude::*;

use crate::parser::{opt_text, pair_texts, ItemModel};
use crate::text::{string_texts, Text};

verus! {

pub type DirId = usize;

pub type FileId = usize;

/// A folder inside the opened specbase.
#[derive(Debug, Clone)]
pub struct SpecDir {
    pub id: DirId,
    pub name: String,
    pub rel: String,
    pub path: String,
    pub parent: Option<DirId>,
    pub dirs: Vec<DirId>,
    pub files: Vec<FileId>,
}

/// A single `.pi` file.
#[derive(Debug, Clone)]
pub struct SpecFile {
    pub id: FileId,
    pub name: String,
    pub rel: String,
    pub path: String,
    pub dir: DirId,
    pub symbols: Vec<Symbol>,
    pub statements: Vec<Statement>,
    /// True when the file is reachable from the project entry point.
    pub reached: bool,
    pub is_config: bool,
    pub is_entry: bool,
}

/// A top level declaration inside a `.pi` file.
#[derive(Debug, Clone)]
pub struct Symbol {
    pub name: String,
    /// The declaration keyword, e.g. `anchor`, `skill`, `piton-config`.
    pub kind: String,
    /// The keyword this declaration can be used as, from `... as <alias>`.
    pub kind_alias: Option<String>,
    pub exported: bool,
    pub is_abstract: bool,
    pub line: usize,
    /// Single line `key: value` pairs directly inside the declaration.
    pub fields: Vec<(String, String)>,
    /// Names referenced from the body via `@{...}`, `{...}` or `${...}`.
    pub refs: Vec<String>,
    pub reached: bool,
}

/// How a module level statement links one file to another.
#[derive(Debug, Clone, Copy, PartialEq, Eq, Structural)]
pub enum StatementKind {
    Use,
    Import,
    Export,
}

/// A `use` / `from ... import ...` / `from ... export ...` statement.
#[derive(Debug, Clone)]
pub struct Statement {
    pub kind: StatementKind,
    /// The module specifier exactly as written, e.g. `./ui/Layout`.
    pub module: String,
    pub items: Vec<StatementItem>,
    pub wildcard: bool,
    pub line: usize,
    /// The file the module specifier resolves to, when it is in this specbase.
    pub target: Option<FileId>,
    /// True when the specifier points at an external package (`@scope/name`).
    pub external: bool,
}

#[derive(Debug, Clone)]
pub struct StatementItem {
    /// The exported name in the target module.
    pub name: String,
    /// The name it is bound to locally.
    pub local: String,
}

/// One end of a connection: a file, and optionally a symbol inside it.
#[derive(Debug, Clone, Copy, PartialEq, Eq, Hash, Structural)]
pub struct EndPoint {
    pub file: FileId,
    pub symbol: Option<usize>,
}

#[derive(Debug, Clone, Copy, PartialEq, Eq, Hash, Structural)]
pub enum EdgeKind {
    /// A module level dependency created by an import/export statement.
    Import,
    /// A `use` statement, or a declaration written with a used keyword.
    Use,
    /// A `@{...}` reference from inside a declaration body.
    Reference,
}

#[derive(Debug, Clone, Copy, PartialEq, Eq, Hash, Structural)]
pub struct Edge {
    pub from: EndPoint,
    pub to: EndPoint,
    pub kind: EdgeKind,
}

/// Everything loaded from one opened directory.
#[derive(Debug, Clone)]
pub struct Specbase {
    /// The directory the user opened; contains `piton.config.pi`.
    pub root: String,
    /// The spec root that `/`-prefixed module specifiers resolve against.
    pub spec_root: String,
    pub entry: Option<FileId>,
    pub dirs: Vec<SpecDir>,
    pub files: Vec<SpecFile>,
    pub edges: Vec<Edge>,
    pub root_dir: DirId,
}

// ------------------------------------------------------------------ models

pub struct DirModel {
    pub id: nat,
    pub name: Text,
    pub rel: Text,
    pub path: Text,
    pub parent: Option<nat>,
    pub dirs: Seq<nat>,
    pub files: Seq<nat>,
}

pub struct SymbolView {
    pub name: Text,
    pub kind: Text,
    pub kind_alias: Option<Text>,
    pub exported: bool,
    pub is_abstract: bool,
    pub line: nat,
    pub fields: Seq<(Text, Text)>,
    pub refs: Seq<Text>,
    pub reached: bool,
}

pub struct StatementView {
    pub kind: StatementKind,
    pub module: Text,
    pub items: Seq<ItemModel>,
    pub wildcard: bool,
    pub line: nat,
    pub target: Option<nat>,
    pub external: bool,
}

pub struct FileModel {
    pub id: nat,
    pub name: Text,
    pub rel: Text,
    pub path: Text,
    pub dir: nat,
    pub symbols: Seq<SymbolView>,
    pub statements: Seq<StatementView>,
    pub reached: bool,
    pub is_config: bool,
    pub is_entry: bool,
}

pub open spec fn ids(v: Seq<usize>) -> Seq<nat> {
    v.map_values(|x: usize| x as nat)
}

pub open spec fn opt_id(o: Option<usize>) -> Option<nat> {
    match o {
        Some(x) => Some(x as nat),
        None => None,
    }
}

impl View for SpecDir {
    type V = DirModel;

    open spec fn view(&self) -> DirModel {
        DirModel {
            id: self.id as nat,
            name: self.name@,
            rel: self.rel@,
            path: self.path@,
            parent: opt_id(self.parent),
            dirs: ids(self.dirs@),
            files: ids(self.files@),
        }
    }
}

impl View for StatementItem {
    type V = ItemModel;

    open spec fn view(&self) -> ItemModel {
        ItemModel { name: self.name@, local: self.local@ }
    }
}

impl View for Symbol {
    type V = SymbolView;

    open spec fn view(&self) -> SymbolView {
        SymbolView {
            name: self.name@,
            kind: self.kind@,
            kind_alias: opt_text(self.kind_alias),
            exported: self.exported,
            is_abstract: self.is_abstract,
            line: self.line as nat,
            fields: self.fields@.map_values(|p: (String, String)| pair_texts(p)),
            refs: string_texts(self.refs@),
            reached: self.reached,
        }
    }
}

impl View for Statement {
    type V = StatementView;

    open spec fn view(&self) -> StatementView {
        StatementView {
            kind: self.kind,
            module: self.module@,
            items: self.items@.map_values(|i: StatementItem| i@),
            wildcard: self.wildcard,
            line: self.line as nat,
            target: opt_id(self.target),
            external: self.external,
        }
    }
}

impl View for SpecFile {
    type V = FileModel;

    open spec fn view(&self) -> FileModel {
        FileModel {
            id: self.id as nat,
            name: self.name@,
            rel: self.rel@,
            path: self.path@,
            dir: self.dir as nat,
            symbols: self.symbols@.map_values(|s: Symbol| s@),
            statements: self.statements@.map_values(|s: Statement| s@),
            reached: self.reached,
            is_config: self.is_config,
            is_entry: self.is_entry,
        }
    }
}

/// The first declaration of a file named `name`.
pub open spec fn symbol_index_spec(symbols: Seq<SymbolView>, name: Text) -> Option<nat> {
    if exists|i: int| 0 <= i < symbols.len() && (#[trigger] symbols[i]).name == name {
        Some(
            (choose|i: int|
                0 <= i < symbols.len() && symbols[i].name == name && forall|j: int|
                    0 <= j < i ==> (#[trigger] symbols[j]).name != name) as nat,
        )
    } else {
        None
    }
}

/// The number of declarations in files `0..n`.
pub open spec fn symbols_before(files: Seq<FileModel>, n: int) -> nat
    decreases n,
{
    if n <= 0 || n > files.len() {
        0
    } else {
        symbols_before(files, n - 1) + files[n - 1].symbols.len()
    }
}

/// The number of files in `0..n` that are not reached.
pub open spec fn unreached_files_before(files: Seq<FileModel>, n: int) -> nat
    decreases n,
{
    if n <= 0 || n > files.len() {
        0
    } else {
        unreached_files_before(files, n - 1) + if files[n - 1].reached {
            0nat
        } else {
            1nat
        }
    }
}

/// The number of declarations in `symbols[0..n]` that are not reached.
pub open spec fn unreached_in(symbols: Seq<SymbolView>, n: int) -> nat
    decreases n,
{
    if n <= 0 || n > symbols.len() {
        0
    } else {
        unreached_in(symbols, n - 1) + if symbols[n - 1].reached {
            0nat
        } else {
            1nat
        }
    }
}

/// The number of declarations in files `0..n` that are not reached.
pub open spec fn unreached_symbols_before(files: Seq<FileModel>, n: int) -> nat
    decreases n,
{
    if n <= 0 || n > files.len() {
        0
    } else {
        unreached_symbols_before(files, n - 1) + unreached_in(
            files[n - 1].symbols,
            files[n - 1].symbols.len() as int,
        )
    }
}

pub open spec fn file_views(files: Seq<SpecFile>) -> Seq<FileModel> {
    files.map_values(|f: SpecFile| f@)
}

impl SpecFile {
    /// The index of the first declaration named `name`.
    pub fn symbol_index(&self, name: &str) -> (r: Option<usize>)
        ensures
            opt_id(r) == symbol_index_spec(self@.symbols, name@),
    {
        let target = crate::text::chars_of(name);
        let ghost syms = self@.symbols;
        let mut i: usize = 0;
        while i < self.symbols.len()
            invariant
                i <= self.symbols@.len(),
                syms == self@.symbols,
                target@ == name@,
                forall|j: int| 0 <= j < i ==> (#[trigger] syms[j]).name != name@,
            decreases self.symbols@.len() - i,
        {
            let here = crate::text::chars_of(self.symbols[i].name.as_str());
            assert(syms[i as int] == self.symbols@[i as int]@);
            if crate::text::same(here.as_slice(), target.as_slice()) {
                proof {
                    let k = choose|k: int|
                        0 <= k < syms.len() && syms[k].name == name@ && forall|j: int|
                            0 <= j < k ==> (#[trigger] syms[j]).name != name@;
                    if k < i {
                    } else if k > i {
                        assert(syms[i as int].name == name@);
                    }
                }
                return Some(i);
            }
            i += 1;
        }
        None
    }
}

impl Specbase {
    pub fn file(&self, id: FileId) -> (r: &SpecFile)
        requires
            id < self.files@.len(),
        ensures
            *r == self.files@[id as int],
    {
        &self.files[id]
    }

    pub fn dir(&self, id: DirId) -> (r: &SpecDir)
        requires
            id < self.dirs@.len(),
        ensures
            *r == self.dirs@[id as int],
    {
        &self.dirs[id]
    }

    /// The number of declarations in the specbase.
    pub fn symbol_count(&self) -> (r: usize)
        requires
            symbols_before(file_views(self.files@), self.files@.len() as int) <= usize::MAX,
        ensures
            r == symbols_before(file_views(self.files@), self.files@.len() as int),
    {
        let ghost fs = file_views(self.files@);
        let mut total: usize = 0;
        let mut i: usize = 0;
        while i < self.files.len()
            invariant
                i <= self.files@.len(),
                fs == file_views(self.files@),
                total == symbols_before(fs, i as int),
                symbols_before(fs, self.files@.len() as int) <= usize::MAX,
            decreases self.files@.len() - i,
        {
            proof {
                lemma_symbols_before_grows(fs, (i + 1) as int, self.files@.len() as int);
            }
            assert(fs[i as int].symbols.len() == self.files@[i as int].symbols@.len());
            total = total + self.files[i].symbols.len();
            i += 1;
        }
        total
    }

    /// The number of files not reached from the project's entry points.
    pub fn unreached_files(&self) -> (r: usize)
        ensures
            r == unreached_files_before(file_views(self.files@), self.files@.len() as int),
    {
        let ghost fs = file_views(self.files@);
        let mut count: usize = 0;
        let mut i: usize = 0;
        while i < self.files.len()
            invariant
                i <= self.files@.len(),
                fs == file_views(self.files@),
                count == unreached_files_before(fs, i as int),
                count <= i,
            decreases self.files@.len() - i,
        {
            if !self.files[i].reached {
                count = count + 1;
            }
            i += 1;
        }
        count
    }

    /// The number of declarations not reached from the project's entry points.
    pub fn unreached_symbols(&self) -> (r: usize)
        requires
            symbols_before(file_views(self.files@), self.files@.len() as int) <= usize::MAX,
        ensures
            r == unreached_symbols_before(file_views(self.files@), self.files@.len() as int),
    {
        let ghost fs = file_views(self.files@);
        let mut count: usize = 0;
        let mut i: usize = 0;
        while i < self.files.len()
            invariant
                i <= self.files@.len(),
                fs == file_views(self.files@),
                count == unreached_symbols_before(fs, i as int),
                count <= symbols_before(fs, i as int),
                symbols_before(fs, self.files@.len() as int) <= usize::MAX,
            decreases self.files@.len() - i,
        {
            proof {
                lemma_symbols_before_grows(fs, (i + 1) as int, self.files@.len() as int);
            }
            let file = &self.files[i];
            let ghost syms = fs[i as int].symbols;
            let mut j: usize = 0;
            let mut here: usize = 0;
            while j < file.symbols.len()
                invariant
                    j <= file.symbols@.len(),
                    syms == file@.symbols,
                    here == unreached_in(syms, j as int),
                    here <= j,
                decreases file.symbols@.len() - j,
            {
                if !file.symbols[j].reached {
                    here = here + 1;
                }
                j += 1;
            }
            count = count + here;
            i += 1;
        }
        count
    }
}

pub proof fn lemma_symbols_before_grows(fs: Seq<FileModel>, a: int, b: int)
    requires
        0 <= a <= b <= fs.len(),
    ensures
        symbols_before(fs, a) <= symbols_before(fs, b),
    decreases b - a,
{
    if a < b {
        lemma_symbols_before_grows(fs, a, b - 1);
    }
}

// --------------------------------------------------------------------- laws

/// The declarations of `files` that are not reached, each named by its file
/// and its place in that file.
pub open spec fn unreached_declarations(files: Seq<FileModel>) -> Set<(int, int)> {
    Set::new(
        |p: (int, int)|
            0 <= p.0 < files.len() && 0 <= p.1 < files[p.0].symbols.len() && !files[p.0].symbols[p.1].reached,
    )
}

/// Those among the first files, and in file `n` among its first `k`
/// declarations.
pub open spec fn unreached_up_to(files: Seq<FileModel>, n: int, k: int) -> Set<(int, int)> {
    unreached_declarations(files).filter(|p: (int, int)| p.0 < n || (p.0 == n && p.1 < k))
}

proof fn lemma_unreached_up_to(files: Seq<FileModel>, n: int, k: int)
    requires
        0 <= n <= files.len(),
        0 <= k,
        n < files.len() ==> k <= files[n].symbols.len(),
        n == files.len() ==> k == 0,
    ensures
        unreached_up_to(files, n, k).finite(),
        unreached_up_to(files, n, k).len() == unreached_symbols_before(files, n) + if n < files.len() {
            unreached_in(files[n].symbols, k)
        } else {
            0
        },
        unreached_symbols_before(files, n) <= symbols_before(files, n),
    decreases n, k,
{
    if k > 0 {
        lemma_unreached_up_to(files, n, k - 1);
        let before = unreached_up_to(files, n, k - 1);
        let p = (n, k - 1);
        if files[n].symbols[k - 1].reached {
            assert(unreached_up_to(files, n, k) =~= before);
        } else {
            assert(unreached_up_to(files, n, k) =~= before.insert(p));
            assert(!before.contains(p));
        }
    } else if n > 0 {
        let len = files[n - 1].symbols.len() as int;
        lemma_unreached_up_to(files, n - 1, len);
        lemma_unreached_in_bounded(files[n - 1].symbols, len);
        assert(unreached_up_to(files, n, 0) =~= unreached_up_to(files, n - 1, len));
    } else {
        assert(unreached_up_to(files, 0, 0) =~= Set::<(int, int)>::empty());
    }
}

proof fn lemma_unreached_in_bounded(symbols: Seq<SymbolView>, k: int)
    requires
        0 <= k <= symbols.len(),
    ensures
        unreached_in(symbols, k) <= k,
    decreases k,
{
    if k > 0 {
        lemma_unreached_in_bounded(symbols, k - 1);
    }
}

/// What `unreached_symbols` counts: the declarations that are not reached,
/// as many as there are, and never more than there are declarations.
pub proof fn law_unreached_declarations_are_counted(files: Seq<FileModel>)
    ensures
        unreached_declarations(files).finite(),
        unreached_declarations(files).len() == unreached_symbols_before(files, files.len() as int),
        unreached_symbols_before(files, files.len() as int) <= symbols_before(files, files.len() as int),
{
    let n = files.len() as int;
    lemma_unreached_up_to(files, n, 0);
    assert(unreached_up_to(files, n, 0) =~= unreached_declarations(files));
}

} // verus!
