//! A lightweight structural parser for `.pi` files.
//!
//! It reads only what the node map needs: the module level statements, the top
//! level declarations, their first level fields, and the symbol references
//! written inside their bodies.

use vstd::prelude::*;

use crate::text::{
    alphabetic, alphanumeric, char_is_alphabetic, char_is_alphanumeric, chars_of, has_char,
    is_ascii_digit, is_ascii_lower, join_spaced, join_with_spaces, same_as, split_at_char,
    split_char, split_words, string_of, string_texts, texts, words, Text,
};

verus! {

#[derive(Debug, Clone, Copy, PartialEq, Eq, Structural)]
pub enum RawStatementKind {
    Use,
    Import,
    Export,
}

#[derive(Debug, Clone)]
pub struct RawItem {
    pub name: String,
    pub local: String,
}

#[derive(Debug, Clone)]
pub struct RawStatement {
    pub kind: RawStatementKind,
    pub module: String,
    pub items: Vec<RawItem>,
    pub wildcard: bool,
    pub line: usize,
}

#[derive(Debug, Clone)]
pub struct RawSymbol {
    pub name: String,
    pub kind: String,
    pub kind_alias: Option<String>,
    pub exported: bool,
    pub is_abstract: bool,
    pub line: usize,
    pub fields: Vec<(String, String)>,
    pub refs: Vec<String>,
}

#[derive(Debug, Clone)]
pub struct ParsedFile {
    pub statements: Vec<RawStatement>,
    pub symbols: Vec<RawSymbol>,
}

// ------------------------------------------------------------------ models

pub struct ItemModel {
    pub name: Text,
    pub local: Text,
}

pub struct StatementModel {
    pub kind: RawStatementKind,
    pub module: Text,
    pub items: Seq<ItemModel>,
    pub wildcard: bool,
    pub line: nat,
}

pub struct SymbolModel {
    pub name: Text,
    pub kind: Text,
    pub kind_alias: Option<Text>,
    pub exported: bool,
    pub is_abstract: bool,
    pub line: nat,
    pub fields: Seq<(Text, Text)>,
    pub refs: Seq<Text>,
}

pub struct ParsedModel {
    pub statements: Seq<StatementModel>,
    pub symbols: Seq<SymbolModel>,
}

pub open spec fn opt_text(o: Option<String>) -> Option<Text> {
    match o {
        Some(s) => Some(s@),
        None => None,
    }
}

pub open spec fn pair_texts(p: (String, String)) -> (Text, Text) {
    (p.0@, p.1@)
}

impl View for RawItem {
    type V = ItemModel;

    open spec fn view(&self) -> ItemModel {
        ItemModel { name: self.name@, local: self.local@ }
    }
}

impl View for RawStatement {
    type V = StatementModel;

    open spec fn view(&self) -> StatementModel {
        StatementModel {
            kind: self.kind,
            module: self.module@,
            items: self.items@.map_values(|i: RawItem| i@),
            wildcard: self.wildcard,
            line: self.line as nat,
        }
    }
}

impl View for RawSymbol {
    type V = SymbolModel;

    open spec fn view(&self) -> SymbolModel {
        SymbolModel {
            name: self.name@,
            kind: self.kind@,
            kind_alias: opt_text(self.kind_alias),
            exported: self.exported,
            is_abstract: self.is_abstract,
            line: self.line as nat,
            fields: self.fields@.map_values(|p: (String, String)| pair_texts(p)),
            refs: string_texts(self.refs@),
        }
    }
}

impl View for ParsedFile {
    type V = ParsedModel;

    open spec fn view(&self) -> ParsedModel {
        ParsedModel {
            statements: self.statements@.map_values(|s: RawStatement| s@),
            symbols: self.symbols@.map_values(|s: RawSymbol| s@),
        }
    }
}

// ------------------------------------------------------------------- words

/// Declaration keywords are lower case and may be hyphenated: `build-skill`.
pub open spec fn is_keyword(w: Text) -> bool {
    &&& w.len() > 0
    &&& is_ascii_lower(w[0])
    &&& forall|i: int|
        0 <= i < w.len() ==> is_ascii_lower(#[trigger] w[i]) || is_ascii_digit(w[i]) || w[i]
            == '-' || w[i] == '_'
}

/// A name starts with a letter or `_` and goes on with letters, digits, `_`
/// and `-`.
pub open spec fn is_name(w: Text) -> bool {
    &&& w.len() > 0
    &&& (char_is_alphabetic(w[0]) || w[0] == '_')
    &&& forall|i: int|
        0 <= i < w.len() ==> char_is_alphanumeric(#[trigger] w[i]) || w[i] == '_' || w[i] == '-'
}

/// What may stand between the braces of a reference.
pub open spec fn is_reference_body(w: Text) -> bool {
    &&& w.len() > 0
    &&& forall|i: int|
        0 <= i < w.len() ==> char_is_alphanumeric(#[trigger] w[i]) || w[i] == '_' || w[i] == '-'
            || w[i] == '.'
}

fn keyword(w: &[char]) -> (r: bool)
    ensures
        r == is_keyword(w@),
{
    if w.len() == 0 || !('a' <= w[0] && w[0] <= 'z') {
        return false;
    }
    let mut i: usize = 0;
    while i < w.len()
        invariant
            i <= w@.len(),
            forall|j: int|
                0 <= j < i ==> is_ascii_lower(#[trigger] w@[j]) || is_ascii_digit(w@[j]) || w@[j]
                    == '-' || w@[j] == '_',
        decreases w@.len() - i,
    {
        let c = w[i];
        if !(('a' <= c && c <= 'z') || ('0' <= c && c <= '9') || c == '-' || c == '_') {
            return false;
        }
        i += 1;
    }
    true
}

fn name_like(w: &[char]) -> (r: bool)
    ensures
        r == is_name(w@),
{
    if w.len() == 0 || !(alphabetic(w[0]) || w[0] == '_') {
        return false;
    }
    let mut i: usize = 0;
    while i < w.len()
        invariant
            i <= w@.len(),
            forall|j: int|
                0 <= j < i ==> char_is_alphanumeric(#[trigger] w@[j]) || w@[j] == '_' || w@[j]
                    == '-',
        decreases w@.len() - i,
    {
        let c = w[i];
        if !(alphanumeric(c) || c == '_' || c == '-') {
            return false;
        }
        i += 1;
    }
    true
}

fn reference_body(w: &[char]) -> (r: bool)
    ensures
        r == is_reference_body(w@),
{
    if w.len() == 0 {
        return false;
    }
    let mut i: usize = 0;
    while i < w.len()
        invariant
            i <= w@.len(),
            forall|j: int|
                0 <= j < i ==> char_is_alphanumeric(#[trigger] w@[j]) || w@[j] == '_' || w@[j]
                    == '-' || w@[j] == '.',
        decreases w@.len() - i,
    {
        let c = w[i];
        if !(alphanumeric(c) || c == '_' || c == '-' || c == '.') {
            return false;
        }
        i += 1;
    }
    true
}


// -------------------------------------------------------------- statements

/// The items of a `from ... import` / `export` statement, folded over its
/// comma separated parts: the items and whether a `*` was among them.
pub open spec fn items_fold(parts: Seq<Text>, n: nat) -> (Seq<ItemModel>, bool)
    decreases n,
{
    if n == 0 || n > parts.len() {
        (seq![], false)
    } else {
        let (items, wildcard) = items_fold(parts, (n - 1) as nat);
        let ws = words(parts[n - 1]);
        if ws.len() == 0 {
            (items, wildcard)
        } else if ws[0] == "*"@ {
            (items, true)
        } else {
            let local = if ws.len() > 1 {
                ws[1]
            } else {
                ws[0]
            };
            (items.push(ItemModel { name: ws[0], local }), wildcard)
        }
    }
}

/// `A`, `A B` (import `A` bound locally as `B`), `A, B`, or `*`.
pub open spec fn items_of(rest: Text) -> (Seq<ItemModel>, bool) {
    let parts = split_at_char(rest, ',');
    items_fold(parts, parts.len())
}

/// `use <module>` / `from <module> import ...` / `from <module> export ...`
pub open spec fn statement_of(line: Text, line_no: nat) -> Option<StatementModel> {
    let ws = words(line);
    if ws.len() >= 2 && ws[0] == "use"@ {
        Some(
            StatementModel {
                kind: RawStatementKind::Use,
                module: ws[1],
                items: seq![],
                wildcard: false,
                line: line_no,
            },
        )
    } else if ws.len() >= 3 && ws[0] == "from"@ && (ws[2] == "import"@ || ws[2] == "export"@) {
        let rest = join_spaced(ws.subrange(3, ws.len() as int));
        Some(
            StatementModel {
                kind: if ws[2] == "import"@ {
                    RawStatementKind::Import
                } else {
                    RawStatementKind::Export
                },
                module: ws[1],
                items: items_of(rest).0,
                wildcard: items_of(rest).1,
                line: line_no,
            },
        )
    } else {
        None
    }
}

pub open spec fn statement_view(o: Option<RawStatement>) -> Option<StatementModel> {
    match o {
        Some(s) => Some(s@),
        None => None,
    }
}

fn parse_items(rest: &[char]) -> (r: (Vec<RawItem>, bool))
    ensures
        (r.0@.map_values(|i: RawItem| i@), r.1) == items_of(rest@),
{
    let parts = split_char(rest, ',');
    let ghost ps = texts(parts@);
    let mut items: Vec<RawItem> = Vec::new();
    let mut wildcard = false;
    let mut k: usize = 0;
    while k < parts.len()
        invariant
            k <= parts@.len(),
            ps == texts(parts@),
            ps == split_at_char(rest@, ','),
            (items@.map_values(|i: RawItem| i@), wildcard) == items_fold(ps, k as nat),
        decreases parts@.len() - k,
    {
        let ws = split_words(parts[k].as_slice());
        let ghost before = items@.map_values(|i: RawItem| i@);
        assert(ps[k as int] == parts@[k as int]@);
        if ws.len() == 0 {
        } else if same_as(ws[0].as_slice(), "*") {
            wildcard = true;
        } else {
            let name = string_of(ws[0].as_slice());
            let local = if ws.len() > 1 {
                string_of(ws[1].as_slice())
            } else {
                string_of(ws[0].as_slice())
            };
            let item = RawItem { name, local };
            let ghost iv = item@;
            items.push(item);
            assert(items@.map_values(|i: RawItem| i@) =~= before.push(iv));
        }
        k += 1;
    }
    (items, wildcard)
}

fn parse_statement(line: &[char], line_no: usize) -> (r: Option<RawStatement>)
    ensures
        statement_view(r) == statement_of(line@, line_no as nat),
{
    let ws = split_words(line);
    if ws.len() > 0 {
        assert(texts(ws@)[0] == ws@[0]@);
    }
    if ws.len() >= 2 && same_as(ws[0].as_slice(), "use") {
        assert(texts(ws@)[1] == ws@[1]@);
        let module = string_of(ws[1].as_slice());
        let stmt = RawStatement {
            kind: RawStatementKind::Use,
            module,
            items: Vec::new(),
            wildcard: false,
            line: line_no,
        };
        assert(stmt@.items =~= seq![]);
        return Some(stmt);
    }
    if ws.len() >= 3 && same_as(ws[0].as_slice(), "from") {
        assert(texts(ws@)[1] == ws@[1]@);
        assert(texts(ws@)[2] == ws@[2]@);
        let is_import = same_as(ws[2].as_slice(), "import");
        let is_export = same_as(ws[2].as_slice(), "export");
        if !is_import && !is_export {
            return None;
        }
        let rest = join_with_spaces(&ws, 3);
        let (items, wildcard) = parse_items(rest.as_slice());
        let module = string_of(ws[1].as_slice());
        let kind = if is_import {
            RawStatementKind::Import
        } else {
            RawStatementKind::Export
        };
        let stmt = RawStatement { kind, module, items, wildcard, line: line_no };
        assert(stmt@.items == items_of(rest@).0);
        return Some(stmt);
    }
    None
}


// ------------------------------------------------------------ declarations

/// The words of a declaration head with `export` and `abstract` taken off.
pub open spec fn declaration_words(head: Text) -> (Seq<Text>, bool, bool) {
    let w0 = words(head);
    let exported = w0.len() > 0 && w0[0] == "export"@;
    let w1 = if exported {
        w0.drop_first()
    } else {
        w0
    };
    let is_abstract = w1.len() > 0 && w1[0] == "abstract"@;
    let w2 = if is_abstract {
        w1.drop_first()
    } else {
        w1
    };
    (w2, exported, is_abstract)
}

/// `[export] [abstract] <kind> <Name> [as <alias>]:`
pub open spec fn declaration_of(line: Text, line_no: nat) -> Option<SymbolModel> {
    if line.len() == 0 || line.last() != ':' {
        None
    } else {
        let head = line.drop_last();
        if head.len() > 0 && head.last() == ':' {
            None
        } else {
            let (w2, exported, is_abstract) = declaration_words(head);
            let has_alias = w2.len() >= 2 && w2[w2.len() - 2] == "as"@;
            let w3 = if has_alias {
                w2.subrange(0, w2.len() - 2)
            } else {
                w2
            };
            if w3.len() == 2 && is_keyword(w3[0]) && is_name(w3[1]) {
                Some(
                    SymbolModel {
                        name: w3[1],
                        kind: w3[0],
                        kind_alias: if has_alias {
                            Some(w2.last())
                        } else {
                            None
                        },
                        exported,
                        is_abstract,
                        line: line_no,
                        fields: seq![],
                        refs: seq![],
                    },
                )
            } else {
                None
            }
        }
    }
}

pub open spec fn symbol_view(o: Option<RawSymbol>) -> Option<SymbolModel> {
    match o {
        Some(s) => Some(s@),
        None => None,
    }
}

fn parse_declaration(line: &[char], line_no: usize) -> (r: Option<RawSymbol>)
    ensures
        symbol_view(r) == declaration_of(line@, line_no as nat),
{
    if line.len() == 0 || line[line.len() - 1] != ':' {
        return None;
    }
    let head = crate::text::slice_of(line, 0, line.len() - 1);
    assert(head@ =~= line@.drop_last());
    if head.len() > 0 && head[head.len() - 1] == ':' {
        return None;
    }
    let mut ws = split_words(head.as_slice());
    let ghost w0 = texts(ws@);
    let mut exported = false;
    let mut is_abstract = false;
    if ws.len() > 0 && same_as(ws[0].as_slice(), "export") {
        exported = true;
        ws.remove(0);
        assert(texts(ws@) =~= w0.drop_first());
    }
    let ghost w1 = texts(ws@);
    if ws.len() > 0 && same_as(ws[0].as_slice(), "abstract") {
        is_abstract = true;
        ws.remove(0);
        assert(texts(ws@) =~= w1.drop_first());
    }
    let ghost w2 = texts(ws@);
    assert(declaration_words(head@) == (w2, exported, is_abstract));
    let mut kind_alias: Option<String> = None;
    if ws.len() >= 2 && same_as(ws[ws.len() - 2].as_slice(), "as") {
        kind_alias = Some(string_of(ws[ws.len() - 1].as_slice()));
        let n = ws.len() - 2;
        ws.truncate(n);
        assert(texts(ws@) =~= w2.subrange(0, w2.len() - 2));
    }
    if ws.len() != 2 {
        return None;
    }
    if !keyword(ws[0].as_slice()) || !name_like(ws[1].as_slice()) {
        return None;
    }
    let sym = RawSymbol {
        name: string_of(ws[1].as_slice()),
        kind: string_of(ws[0].as_slice()),
        kind_alias,
        exported,
        is_abstract,
        line: line_no,
        fields: Vec::new(),
        refs: Vec::new(),
    };
    assert(sym@.fields =~= seq![]);
    assert(sym@.refs =~= seq![]);
    Some(sym)
}

// ------------------------------------------------------------------ fields

/// A `key: value` line; a `key:: type` line gives the type as its value.
pub open spec fn field_of(line: Text) -> Option<(Text, Text)> {
    let colon = crate::text::find_from(line, 0, ':');
    if colon >= line.len() {
        None
    } else {
        let key = crate::text::trim(line.subrange(0, colon));
        if key.len() == 0 || (!is_name(key) && !is_keyword(key)) {
            None
        } else {
            let v1 = crate::text::trim_start(line.subrange(colon + 1, line.len() as int));
            let v2 = if v1.len() > 0 && v1[0] == ':' {
                crate::text::trim_start(v1.drop_first())
            } else {
                v1
            };
            Some((key, crate::text::trim_end(v2)))
        }
    }
}

fn parse_field(line: &[char]) -> (r: Option<(Vec<char>, Vec<char>)>)
    ensures
        match r {
            Some(p) => field_of(line@) == Some((p.0@, p.1@)),
            None => field_of(line@) is None,
        },
{
    let colon = crate::text::find_char(line, 0, ':');
    proof {
        crate::text::lemma_find_from(line@, 0, ':');
    }
    if colon >= line.len() {
        return None;
    }
    let before = crate::text::slice_of(line, 0, colon);
    let key = crate::text::trimmed(before.as_slice());
    if key.len() == 0 || (!name_like(key.as_slice()) && !keyword(key.as_slice())) {
        return None;
    }
    let after = crate::text::slice_of(line, colon + 1, line.len());
    let mut value = crate::text::trimmed_start(after.as_slice());
    if value.len() > 0 && value[0] == ':' {
        let rest = crate::text::slice_of(value.as_slice(), 1, value.len());
        assert(rest@ =~= value@.drop_first());
        value = crate::text::trimmed_start(rest.as_slice());
    }
    let value = crate::text::trimmed_end(value.as_slice());
    Some((key, value))
}

// -------------------------------------------------------------- references

/// The `@{Name}`, `{Name}` and `${Name}` references written in `s` from
/// position `from` on; a `${...}` holding a `.` is a template, not a name.
pub open spec fn refs_from(s: Text, from: int) -> Seq<Text>
    decreases s.len() - from,
{
    if from < 0 || from >= s.len() {
        seq![]
    } else if s[from] != '{' {
        refs_from(s, from + 1)
    } else {
        let close = crate::text::find_from(s, from, '}');
        proof {
            crate::text::lemma_find_from(s, from, '}');
        }
        if close >= s.len() {
            seq![]
        } else {
            let inner = crate::text::trim(s.subrange(from + 1, close));
            let templated = from > 0 && s[from - 1] == '$';
            let here = if is_reference_body(inner) && !(templated && has_char(inner, '.')) {
                seq![inner]
            } else {
                seq![]
            };
            here + refs_from(s, close + 1)
        }
    }
}

pub open spec fn refs_in(s: Text) -> Seq<Text> {
    refs_from(s, 0)
}

fn collect_refs(line: &[char], out: &mut Vec<Vec<char>>)
    ensures
        texts(final(out)@) == texts(old(out)@) + refs_in(line@),
{
    let ghost start = texts(out@);
    let mut i: usize = 0;
    while i < line.len()
        invariant
            i <= line@.len(),
            start == texts(old(out)@),
            start + refs_in(line@) == texts(out@) + refs_from(line@, i as int),
        decreases line@.len() - i,
    {
        if line[i] != '{' {
            i += 1;
        } else {
            let close = crate::text::find_char(line, i, '}');
            proof {
                crate::text::lemma_find_from(line@, i as int, '}');
            }
            if close >= line.len() {
                assert(refs_from(line@, i as int) =~= seq![]);
                assert(start + refs_in(line@) =~= texts(out@));
                return;
            }
            assert(line@[i as int] == '{');
            let body = crate::text::slice_of(line, i + 1, close);
            let inner = crate::text::trimmed(body.as_slice());
            let templated = i > 0 && line[i - 1] == '$';
            let ghost before = texts(out@);
            if reference_body(inner.as_slice()) && !(templated && crate::text::contains_char(
                inner.as_slice(),
                '.',
            )) {
                let ghost iv = inner@;
                out.push(inner);
                assert(texts(out@) =~= before.push(iv));
                assert(refs_from(line@, i as int) =~= seq![iv] + refs_from(line@, close + 1));
            } else {
                assert(refs_from(line@, i as int) =~= refs_from(line@, close + 1));
            }
            assert(start + refs_in(line@) =~= texts(out@) + refs_from(line@, close + 1));
            i = close + 1;
        }
    }
    assert(refs_from(line@, i as int) =~= seq![]);
    assert(start + refs_in(line@) =~= texts(out@));
}

/// Collect `@{Name}`, `{Name}` and `${Name}` references from a line.
pub fn extract_refs(line: &str, out: &mut Vec<String>)
    ensures
        string_texts(final(out)@) == string_texts(old(out)@) + refs_in(line@),
{
    let chars = chars_of(line);
    let mut found: Vec<Vec<char>> = Vec::new();
    collect_refs(chars.as_slice(), &mut found);
    let strings = crate::text::strings_of(&found);
    let ghost before = string_texts(out@);
    let mut k: usize = 0;
    while k < strings.len()
        invariant
            k <= strings@.len(),
            string_texts(out@) == before + string_texts(strings@).take(k as int),
            string_texts(strings@) == refs_in(line@),
        decreases strings@.len() - k,
    {
        let ghost mid = string_texts(out@);
        out.push(strings[k].clone());
        assert(string_texts(out@) =~= mid.push(strings@[k as int]@));
        assert(string_texts(strings@).take(k + 1) =~= string_texts(strings@).take(k as int).push(
            strings@[k as int]@,
        ));
        k += 1;
    }
    assert(string_texts(strings@).take(strings@.len() as int) =~= string_texts(strings@));
}


// ------------------------------------------------------------------- files

/// What the parser holds after some lines: the statements and declarations
/// so far, and whether lines that are indented belong to the last
/// declaration.
pub struct ParseState {
    pub statements: Seq<StatementModel>,
    pub symbols: Seq<SymbolModel>,
    pub current: bool,
}

/// A declaration with its references replaced.
pub open spec fn with_refs(s: SymbolModel, refs: Seq<Text>) -> SymbolModel {
    SymbolModel { refs, ..s }
}

/// Whether the indentation of `line` takes at most four bytes.
pub open spec fn shallow(line: Text) -> bool {
    crate::text::utf8_len(line.take(crate::text::leading_spaces(line) as int)) <= 4
}

/// One line of a file, read into the state of the lines before it.
pub open spec fn parse_line(st: ParseState, raw: Text, line_no: nat) -> ParseState {
    let line = crate::text::trim_end(raw);
    let t = crate::text::trim_start(line);
    if t.len() == 0 || t[0] == '#' {
        st
    } else if crate::text::leading_spaces(line) == 0 {
        match statement_of(t, line_no) {
            Some(m) => ParseState { statements: st.statements.push(m), symbols: st.symbols, current: false },
            None => match declaration_of(t, line_no) {
                Some(d) => ParseState {
                    statements: st.statements,
                    symbols: st.symbols.push(d),
                    current: true,
                },
                None => ParseState { statements: st.statements, symbols: st.symbols, current: false },
            },
        }
    } else if !st.current || st.symbols.len() == 0 {
        st
    } else {
        let k = st.symbols.len() - 1;
        let sym = st.symbols[k];
        let fields = match field_of(t) {
            Some(kv) => if shallow(line) {
                sym.fields.push(kv)
            } else {
                sym.fields
            },
            None => sym.fields,
        };
        ParseState {
            statements: st.statements,
            symbols: st.symbols.update(k, SymbolModel { fields, ..with_refs(sym, sym.refs + refs_in(t)) }),
            current: st.current,
        }
    }
}

pub open spec fn parse_fold(ls: Seq<Text>, n: nat) -> ParseState
    decreases n,
{
    if n == 0 || n > ls.len() {
        ParseState { statements: seq![], symbols: seq![], current: false }
    } else {
        parse_line(parse_fold(ls, (n - 1) as nat), ls[n - 1], n)
    }
}

/// The statements and declarations of a source file, references as written.
pub open spec fn parse_state(src: Text) -> ParseState {
    parse_fold(crate::text::lines(src), crate::text::lines(src).len())
}

/// `out` is what `parse` gives for `src`: the lines read one by one, then the
/// references of every declaration sorted with repeats taken out.
pub open spec fn parsed_from(src: Text, out: ParsedModel) -> bool {
    let st = parse_state(src);
    &&& out.statements == st.statements
    &&& out.symbols.len() == st.symbols.len()
    &&& forall|k: int|
        0 <= k < out.symbols.len() ==> {
            &&& #[trigger] out.symbols[k] == with_refs(st.symbols[k], out.symbols[k].refs)
            &&& crate::text::strictly_sorted(out.symbols[k].refs)
            &&& forall|t: Text| out.symbols[k].refs.contains(t) <==> st.symbols[k].refs.contains(t)
        }
}

fn indent_at_most_four(line: &[char], lead: usize) -> (r: bool)
    requires
        lead == crate::text::leading_spaces(line@),
        lead <= line@.len(),
    ensures
        r == shallow(line@),
{
    let mut total: usize = 0;
    let mut i: usize = 0;
    while i < lead
        invariant
            i <= lead <= line@.len(),
            lead == crate::text::leading_spaces(line@),
            total == crate::text::utf8_len(line@.take(i as int)),
            total <= 4,
        decreases lead - i,
    {
        proof {
            crate::text::lemma_utf8_len_take(line@, i as int);
        }
        total = total + crate::text::width_utf8(line[i]);
        assert(total == crate::text::utf8_len(line@.take(i + 1)));
        if total > 4 {
            proof {
                crate::text::lemma_utf8_len_prefix_grows(line@, (i + 1) as int, lead as int);
                assert(crate::text::utf8_len(line@.take(lead as int)) > 4);
                assert(!shallow(line@));
            }
            return false;
        }
        i += 1;
    }
    true
}

/// The parser's state as the vectors `parse` keeps it: declarations with
/// their references held apart until the end.
pub open spec fn state_of(
    statements: Seq<RawStatement>,
    symbols: Seq<RawSymbol>,
    refs: Seq<Vec<Vec<char>>>,
    current: bool,
) -> ParseState {
    ParseState {
        statements: statements.map_values(|s: RawStatement| s@),
        symbols: Seq::new(symbols.len(), |k: int| with_refs(symbols[k]@, texts(refs[k]@))),
        current,
    }
}

fn parse_one_line(
    raw: &[char],
    line_no: usize,
    statements: &mut Vec<RawStatement>,
    symbols: &mut Vec<RawSymbol>,
    refs: &mut Vec<Vec<Vec<char>>>,
    current: &mut bool,
)
    requires
        old(symbols)@.len() == old(refs)@.len(),
    ensures
        final(symbols)@.len() == final(refs)@.len(),
        state_of(final(statements)@, final(symbols)@, final(refs)@, *final(current)) == parse_line(
            state_of(old(statements)@, old(symbols)@, old(refs)@, *old(current)),
            raw@,
            line_no as nat,
        ),
{
    let ghost st = state_of(statements@, symbols@, refs@, *current);
    let line = crate::text::trimmed_end(raw);
    let lead = crate::text::count_leading_spaces(line.as_slice(), 0, line.len());
    assert(line@.subrange(0, line@.len() as int) =~= line@);
    let t = crate::text::slice_of(line.as_slice(), lead, line.len());
    if t.len() == 0 || t[0] == '#' {
        return;
    }
    if lead == 0 {
        match parse_statement(t.as_slice(), line_no) {
            Some(stmt) => {
                let ghost sv = stmt@;
                statements.push(stmt);
                *current = false;
                assert(state_of(statements@, symbols@, refs@, *current).statements =~= st.statements.push(sv));
                assert(state_of(statements@, symbols@, refs@, *current).symbols =~= st.symbols);
            },
            None => {
                match parse_declaration(t.as_slice(), line_no) {
                    Some(sym) => {
                        let ghost sv = sym@;
                        symbols.push(sym);
                        refs.push(Vec::new());
                        *current = true;
                        assert(texts(refs@[refs@.len() - 1]@) =~= seq![]);
                        assert(sv.refs =~= seq![]);
                        assert(with_refs(sv, seq![]) == sv);
                        assert(state_of(statements@, symbols@, refs@, *current).symbols =~= st.symbols.push(sv));
                    },
                    None => {
                        *current = false;
                        assert(state_of(statements@, symbols@, refs@, *current).symbols =~= st.symbols);
                    },
                }
            },
        }
        return;
    }
    if !*current || symbols.len() == 0 {
        return;
    }
    let k = symbols.len() - 1;
    let ghost syms_before = symbols@;
    let ghost refs_before = refs@;
    let mut sym = symbols.pop().unwrap();
    let mut sym_refs = refs.pop().unwrap();
    let ghost old_fields = sym@.fields;
    let ghost old_refs = texts(sym_refs@);
    collect_refs(t.as_slice(), &mut sym_refs);
    match parse_field(t.as_slice()) {
        Some(kv) => {
            if indent_at_most_four(line.as_slice(), lead) {
                let key = string_of(kv.0.as_slice());
                let value = string_of(kv.1.as_slice());
                let pair = (key, value);
                let ghost pv = pair_texts(pair);
                sym.fields.push(pair);
                assert(sym@.fields =~= old_fields.push(pv));
            }
        },
        None => {},
    }
    let ghost new_sym = with_refs(sym@, texts(sym_refs@));
    symbols.push(sym);
    refs.push(sym_refs);
    assert(st.symbols[k as int] == with_refs(syms_before[k as int]@, old_refs));
    assert(state_of(statements@, symbols@, refs@, *current).symbols =~= st.symbols.update(k as int, new_sym));
}

/// Read the statements, declarations, fields and references of a `.pi` file.
pub fn parse(source: &str) -> (out: ParsedFile)
    ensures
        parsed_from(source@, out@),
{
    let chars = chars_of(source);
    let ls = crate::text::split_lines(chars.as_slice());
    let ghost lv = texts(ls@);
    let mut statements: Vec<RawStatement> = Vec::new();
    let mut symbols: Vec<RawSymbol> = Vec::new();
    let mut refs: Vec<Vec<Vec<char>>> = Vec::new();
    let mut current = false;
    let mut idx: usize = 0;
    assert(state_of(statements@, symbols@, refs@, current).statements =~= seq![]);
    assert(state_of(statements@, symbols@, refs@, current).symbols =~= seq![]);
    while idx < ls.len()
        invariant
            idx <= ls@.len(),
            lv == texts(ls@),
            lv == crate::text::lines(source@),
            symbols@.len() == refs@.len(),
            state_of(statements@, symbols@, refs@, current) == parse_fold(lv, idx as nat),
        decreases ls@.len() - idx,
    {
        assert(lv[idx as int] == ls@[idx as int]@);
        parse_one_line(ls[idx].as_slice(), idx + 1, &mut statements, &mut symbols, &mut refs, &mut current);
        idx += 1;
    }
    let ghost st = parse_fold(lv, idx as nat);
    assert(st == parse_state(source@));
    assert forall|j: int| 0 <= j < symbols@.len() implies with_refs(
        (#[trigger] symbols@[j])@,
        texts(refs@[j]@),
    ) == st.symbols[j] by {
        assert(state_of(statements@, symbols@, refs@, current).symbols[j] == with_refs(symbols@[j]@, texts(refs@[j]@)));
    }
    let mut k: usize = 0;
    while k < symbols.len()
        invariant
            k <= symbols@.len(),
            symbols@.len() == refs@.len(),
            symbols@.len() == st.symbols.len(),
            forall|j: int|
                k <= j < symbols@.len() ==> with_refs((#[trigger] symbols@[j])@, texts(refs@[j]@))
                    == st.symbols[j],
            forall|j: int|
                0 <= j < k ==> {
                    &&& #[trigger] symbols@[j]@ == with_refs(st.symbols[j], symbols@[j]@.refs)
                    &&& crate::text::strictly_sorted(symbols@[j]@.refs)
                    &&& forall|t: Text| symbols@[j]@.refs.contains(t) <==> st.symbols[j].refs.contains(t)
                },
        decreases symbols@.len() - k,
    {
        let sorted = crate::text::sorted_distinct(&refs[k]);
        let strings = crate::text::strings_of(&sorted);
        let ghost before = symbols@;
        symbols[k].refs = strings;
        assert forall|j: int| 0 <= j < symbols@.len() && j != k implies symbols@[j] == before[j] by {}
        k += 1;
    }
    let out = ParsedFile { statements, symbols };
    assert(out@.statements == st.statements);
    out
}

// --------------------------------------------------------------------- laws

/// A comma-separated part of an import or export list that names something:
/// it has a word, and its first word is not `*`.
pub open spec fn names_an_item(part: Text) -> bool {
    words(part).len() > 0 && words(part)[0] != "*"@
}

/// A part that brings a module in whole: its first word is `*`.
pub open spec fn brings_all(part: Text) -> bool {
    words(part).len() > 0 && words(part)[0] == "*"@
}

proof fn lemma_items_by_part(parts: Seq<Text>, n: nat)
    requires
        n <= parts.len(),
    ensures
        ({
            let named = parts.take(n as int).filter(|p: Text| names_an_item(p));
            let (items, wildcard) = items_fold(parts, n);
            &&& items.len() == named.len()
            &&& forall|i: int| 0 <= i < items.len() ==> {
                &&& (#[trigger] items[i]).name == words(named[i])[0]
                &&& items[i].local == if words(named[i]).len() > 1 {
                    words(named[i])[1]
                } else {
                    words(named[i])[0]
                }
            }
            &&& wildcard <==> exists|k: int| 0 <= k < n && #[trigger] brings_all(parts[k])
        }),
    decreases n,
{
    let f = |p: Text| names_an_item(p);
    if n == 0 {
        assert(parts.take(0) =~= Seq::<Text>::empty());
        assert(Seq::<Text>::empty().filter(f) =~= Seq::<Text>::empty()) by {
            reveal(Seq::filter);
        }
    } else {
        lemma_items_by_part(parts, (n - 1) as nat);
        let prev = parts.take(n - 1);
        assert(parts.take(n as int) =~= prev.push(parts[n - 1]));
        prev.lemma_filter_push(parts[n - 1], f);
        let (items0, w0) = items_fold(parts, (n - 1) as nat);
        let (items, wildcard) = items_fold(parts, n);
        if wildcard {
            if !w0 {
                assert(brings_all(parts[n - 1]));
            }
        }
        if exists|k: int| 0 <= k < n && #[trigger] brings_all(parts[k]) {
            let k = choose|k: int| 0 <= k < n && #[trigger] brings_all(parts[k]);
            if k < n - 1 {
                assert(w0);
            }
        }
    }
}

/// In a `from M import ...` or `from M export ...` list, each
/// comma-separated part that names something brings in one item, in order:
/// named by the part's first word, bound locally to its second word, or to
/// the name where there is none. A part `*` brings the module in whole, and
/// nothing else does.
pub proof fn law_each_part_names_an_item(rest: Text)
    ensures
        ({
            let parts = split_at_char(rest, ',');
            let named = parts.filter(|p: Text| names_an_item(p));
            let (items, wildcard) = items_of(rest);
            &&& items.len() == named.len()
            &&& forall|i: int| 0 <= i < items.len() ==> {
                &&& (#[trigger] items[i]).name == words(named[i])[0]
                &&& items[i].local == if words(named[i]).len() > 1 {
                    words(named[i])[1]
                } else {
                    words(named[i])[0]
                }
            }
            &&& wildcard <==> exists|k: int| 0 <= k < parts.len() && #[trigger] brings_all(parts[k])
        }),
{
    let parts = split_at_char(rest, ',');
    lemma_items_by_part(parts, parts.len());
    assert(parts.take(parts.len() as int) =~= parts);
}

} // verus!
