use overlook::parser::{extract_refs, parse, RawStatementKind};

#[test]
fn parses_statements() {
    let parsed = parse(
        "use @piton/belay\n\
         from ./Stack import Stack\n\
         from /concept import Application Concept\n\
         from ./skills export *\n",
    );
    assert_eq!(parsed.statements.len(), 4);
    assert_eq!(parsed.statements[0].kind, RawStatementKind::Use);
    assert_eq!(parsed.statements[0].module, "@piton/belay");
    assert_eq!(parsed.statements[2].items[0].name, "Application");
    assert_eq!(parsed.statements[2].items[0].local, "Concept");
    assert!(parsed.statements[3].wildcard);
    assert_eq!(parsed.statements[3].kind, RawStatementKind::Export);
}

#[test]
fn parses_declarations_and_fields() {
    let parsed = parse(
        "export anchor Stack:\n    language: Rust\n    platforms:\n        - Windows\n",
    );
    assert_eq!(parsed.symbols.len(), 1);
    let symbol = &parsed.symbols[0];
    assert_eq!(symbol.kind, "anchor");
    assert_eq!(symbol.name, "Stack");
    assert!(symbol.exported);
    assert_eq!(symbol.fields[0], ("language".into(), "Rust".into()));
    assert_eq!(symbol.fields[1], ("platforms".into(), String::new()));
}

#[test]
fn a_field_type_is_not_a_declaration() {
    let parsed = parse("export skill S:\n    scope:: string\n");
    assert_eq!(parsed.symbols.len(), 1);
    assert_eq!(parsed.symbols[0].fields[0], ("scope".into(), "string".into()));
}

#[test]
fn collects_references() {
    let mut refs = Vec::new();
    extract_refs("        A @{NodeMap} and {Stack} and ${self.scope}", &mut refs);
    assert_eq!(refs, vec!["NodeMap", "Stack"]);

    let mut refs = Vec::new();
    extract_refs("Use ${__BELAY_SHAPE__} to guide", &mut refs);
    assert_eq!(refs, vec!["__BELAY_SHAPE__"]);
}

#[test]
fn keeps_the_declaration_keyword_alias() {
    let parsed = parse("export abstract skill BuildSkill as build-skill:\n");
    let symbol = &parsed.symbols[0];
    assert!(symbol.is_abstract);
    assert_eq!(symbol.kind_alias.as_deref(), Some("build-skill"));
}
