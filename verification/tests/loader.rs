use overlook::loader::LoadError;
use overlook::model::{EdgeKind, EndPoint, Specbase};
use overlook::node_map::{neighbours, node_outline, Outline};
use overlook::walk::FsEntry;

const ROOT: &str = "/home/someone/overlook";

fn file(name: &str, text: &str) -> FsEntry {
    FsEntry {
        name: name.to_string(),
        is_dir: false,
        text: text.to_string(),
        error: None,
        entries: Vec::new(),
    }
}

fn dir(name: &str, entries: Vec<FsEntry>) -> FsEntry {
    FsEntry {
        name: name.to_string(),
        is_dir: true,
        text: String::new(),
        error: None,
        entries,
    }
}

fn spec_tree() -> FsEntry {
    dir(
        "spec",
        vec![
            file(
                "index.pi",
                "# The project's entry point.\n\
                 from ./shape export *\n\
                 from ./concept import NodeMap\n\
                 from ./agent/skills/BuildApplication import BuildApplication\n\
                 from ./agent/skills/Testing import Testing\n\
                 from ./agent/commands import *\n\
                 \n\
                 export concept Overlook:\n    \
                 A tool to look over @{NodeMap} and @{BuildApplication}.\n",
            ),
            dir(
                "shape",
                vec![
                    file(
                        "index.pi",
                        "from ./Application export *\nfrom ./Stack export *\nfrom ./ui/Layout export *\n",
                    ),
                    file(
                        "Application.pi",
                        "from ./Stack import Stack\n\nexport shape Application:\n    name: Overlook\n    built on @{Stack}\n",
                    ),
                    file(
                        "Stack.pi",
                        "export anchor Stack:\n    language: Rust\n    platforms:\n        - Linux\n",
                    ),
                    dir(
                        "ui",
                        vec![
                            file(
                                "Toolbar.pi",
                                "export anchor Toolbar:\n    buttons: many\n",
                            ),
                            file(
                                "Layout.pi",
                                "from ./Toolbar import Toolbar\n\nexport anchor Layout:\n    A window with a @{Toolbar} along the top.\n",
                            ),
                        ],
                    ),
                ],
            ),
            dir(
                "concept",
                vec![
                    file("index.pi", "from ./ui/NodeMap export NodeMap\n"),
                    dir(
                        "ui",
                        vec![file(
                            "NodeMap.pi",
                            "export concept NodeMap:\n    Draws the files as boxes.\n",
                        )],
                    ),
                ],
            ),
            dir(
                "lib",
                vec![file(
                    "build-skill.pi",
                    "export abstract skill BuildSkill as build-skill:\n    scope:: string\n",
                )],
            ),
            dir(
                "agent",
                vec![
                    dir(
                        "skills",
                        vec![
                            file(
                                "BuildApplication.pi",
                                "use /lib/build-skill\nfrom /shape/Application import Application\n\nexport build-skill BuildApplication:\n    Builds @{Application}.\n",
                            ),
                            file("Testing.pi", "export skill Testing:\n    scope: tests\n"),
                        ],
                    ),
                    dir("commands", vec![file("index.pi", "# No commands yet.\n")]),
                ],
            ),
        ],
    )
}

fn src_tree() -> FsEntry {
    dir("src", vec![file("main.rs", "fn main() {}\n"), file("lib.rs", "")])
}

fn project_tree() -> FsEntry {
    dir(
        "overlook",
        vec![
            file("Cargo.toml", "[package]\nname = \"overlook\"\n"),
            file(
                "piton.config.pi",
                "piton-config Overlook:\n    root: spec\n    entry: spec/index.pi\n",
            ),
            src_tree(),
            dir("target", vec![file("stale.pi", "export anchor Stale:\n")]),
            dir(".git", vec![file("HEAD.pi", "export anchor Head:\n")]),
            spec_tree(),
        ],
    )
}

fn fixture() -> Specbase {
    Specbase::load(ROOT, true, &project_tree()).expect("this project is a Piton project")
}

#[test]
fn reads_the_config() {
    let specbase = fixture();
    assert_eq!(specbase.spec_root, format!("{}/spec", specbase.root));
    let entry = specbase.entry.expect("entry is declared in the config");
    assert_eq!(specbase.file(entry).rel, "spec/index.pi");
}

#[test]
fn finds_every_pi_file() {
    let specbase = fixture();
    let names: Vec<&str> = specbase.files.iter().map(|f| f.rel.as_str()).collect();
    assert!(names.contains(&"piton.config.pi"));
    assert!(names.contains(&"spec/shape/ui/Layout.pi"));
    assert!(names.contains(&"spec/lib/build-skill.pi"));
}

#[test]
fn reads_declarations() {
    let specbase = fixture();
    let file = specbase
        .files
        .iter()
        .find(|f| f.rel == "spec/lib/build-skill.pi")
        .unwrap();
    let symbol = &file.symbols[0];
    assert_eq!(symbol.name, "BuildSkill");
    assert_eq!(symbol.kind, "skill");
    assert_eq!(symbol.kind_alias.as_deref(), Some("build-skill"));
    assert!(symbol.is_abstract);
    assert!(symbol.exported);
}

#[test]
fn resolves_relative_and_rooted_modules() {
    let specbase = fixture();
    let layout = specbase
        .files
        .iter()
        .find(|f| f.rel == "spec/shape/ui/Layout.pi")
        .unwrap();
    for statement in &layout.statements {
        let target = statement.target.expect("resolves inside the specbase");
        assert!(specbase.file(target).rel.starts_with("spec/shape/ui/"));
    }

    let skill = specbase
        .files
        .iter()
        .find(|f| f.rel == "spec/agent/skills/BuildApplication.pi")
        .unwrap();
    let rooted = skill
        .statements
        .iter()
        .find(|s| s.module == "/shape/Application")
        .unwrap();
    let target = rooted.target.unwrap();
    assert_eq!(specbase.file(target).rel, "spec/shape/Application.pi");
}

#[test]
fn connects_anchors_through_body_references() {
    let specbase = fixture();
    let layout = specbase
        .files
        .iter()
        .find(|f| f.rel == "spec/shape/ui/Layout.pi")
        .unwrap();
    let toolbar = specbase
        .files
        .iter()
        .find(|f| f.rel == "spec/shape/ui/Toolbar.pi")
        .unwrap();

    let connected = specbase.edges.iter().any(|e| {
        e.kind == EdgeKind::Reference
            && e.from == EndPoint { file: layout.id, symbol: Some(0) }
            && e.to == EndPoint { file: toolbar.id, symbol: Some(0) }
    });
    assert!(connected, "Layout references the Toolbar anchor");
}

#[test]
fn a_used_keyword_connects_to_its_declaration() {
    let specbase = fixture();
    let skill = specbase
        .files
        .iter()
        .find(|f| f.rel == "spec/agent/skills/BuildApplication.pi")
        .unwrap();
    let library = specbase
        .files
        .iter()
        .find(|f| f.rel == "spec/lib/build-skill.pi")
        .unwrap();
    let connected = specbase.edges.iter().any(|e| {
        e.kind == EdgeKind::Use
            && e.from.file == skill.id
            && e.to == EndPoint { file: library.id, symbol: Some(0) }
    });
    assert!(connected, "`build-skill` comes from the BuildSkill declaration");
}

#[test]
fn follows_re_exports_when_reaching_symbols() {
    let specbase = fixture();
    for file in &specbase.files {
        assert!(file.reached, "{} should be reachable", file.rel);
    }
    let concept = specbase
        .files
        .iter()
        .find(|f| f.rel == "spec/concept/ui/NodeMap.pi")
        .unwrap();
    assert!(
        concept.symbols[0].reached,
        "NodeMap is reached through the concept index"
    );
}

#[test]
fn a_directory_without_a_config_is_rejected() {
    let root = format!("{ROOT}/src");
    assert!(matches!(
        Specbase::load(&root, false, &src_tree()),
        Err(LoadError::MissingConfig(_))
    ));
}

#[test]
fn a_file_is_never_laid_out_twice_when_it_points_both_ways() {
    let specbase = fixture();
    for file in 0..specbase.files.len() {
        let (incoming, outgoing) = neighbours(&specbase, file);
        for id in &incoming {
            assert!(
                !outgoing.contains(id),
                "a neighbour belongs to one column only"
            );
        }
        assert!(!incoming.contains(&file) && !outgoing.contains(&file));
    }
}

#[test]
fn every_edge_joins_two_things_of_the_specbase() {
    let specbase = fixture();
    assert!(!specbase.edges.is_empty());
    for edge in &specbase.edges {
        for end in [edge.from, edge.to] {
            assert!(end.file < specbase.files.len());
            if let Some(symbol) = end.symbol {
                assert!(symbol < specbase.files[end.file].symbols.len());
            }
        }
        if edge.kind == EdgeKind::Reference {
            assert_ne!(edge.from, edge.to, "nothing refers to itself");
        }
    }
}

#[test]
fn edges_come_in_order_and_once_each() {
    let specbase = fixture();
    let key = |e: &overlook::model::Edge| (e.from.file, e.from.symbol, e.to.file, e.to.symbol);
    for pair in specbase.edges.windows(2) {
        assert!(key(&pair[0]) <= key(&pair[1]));
        assert!(pair[0] != pair[1]);
    }
}

#[test]
fn skipped_and_empty_folders_are_left_out() {
    let specbase = fixture();
    let rels: Vec<&str> = specbase.files.iter().map(|f| f.rel.as_str()).collect();
    assert!(!rels.iter().any(|r| r.starts_with("target/") || r.starts_with(".git/")));
    let dirs: Vec<&str> = specbase.dirs.iter().map(|d| d.rel.as_str()).collect();
    assert!(!dirs.contains(&"src"), "a folder without .pi files is dropped");
    assert_eq!(specbase.dirs[specbase.root_dir].rel, "");
    assert_eq!(specbase.dirs[specbase.root_dir].name, "overlook");
    assert_eq!(specbase.files.len(), 13);
    assert_eq!(specbase.unreached_files(), 0);
}

#[test]
fn files_are_numbered_in_name_order_folder_by_folder() {
    let specbase = fixture();
    let rels: Vec<&str> = specbase.files.iter().map(|f| f.rel.as_str()).collect();
    assert_eq!(rels[0], "piton.config.pi");
    assert_eq!(rels[1], "spec/agent/commands/index.pi");
    assert_eq!(rels[6], "spec/index.pi");
    let config = specbase.file(0);
    assert!(config.is_config && !config.is_entry);
    assert!(specbase.file(6).is_entry);
    assert_eq!(specbase.entry, Some(6));
    assert_eq!(config.path, format!("{ROOT}/piton.config.pi"));
}

#[test]
fn a_folder_that_cannot_be_listed_stops_the_load() {
    let mut tree = project_tree();
    tree.entries.push(FsEntry {
        name: "notes".to_string(),
        is_dir: true,
        text: String::new(),
        error: Some("Permission denied (os error 13)".to_string()),
        entries: Vec::new(),
    });
    match Specbase::load(ROOT, true, &tree) {
        Err(LoadError::Io(message)) => {
            assert_eq!(message, format!("{ROOT}/notes: Permission denied (os error 13)"))
        }
        other => panic!("expected an error, got {other:?}"),
    }
}

#[test]
fn a_module_outside_the_specbase_is_left_unresolved() {
    let tree = dir(
        "p",
        vec![
            file("piton.config.pi", "piton-config P:\n    entry: index.pi\n"),
            file("index.pi", "use @piton/belay\nfrom ./Missing import Thing\n\nexport anchor Home:\n    see @{Thing}\n"),
        ],
    );
    let specbase = Specbase::load("/p", true, &tree).unwrap();
    let index = specbase.files.iter().find(|f| f.rel == "index.pi").unwrap();
    assert!(index.statements[0].external);
    assert!(index.statements[0].target.is_none());
    assert!(!index.statements[1].external);
    assert!(index.statements[1].target.is_none());
    assert!(index.reached);
    assert_eq!(specbase.spec_root, "/p");
    assert!(specbase.edges.is_empty());
}

#[test]
fn what_no_root_needs_is_left_unreached() {
    let tree = dir(
        "p",
        vec![
            file("piton.config.pi", "piton-config P:\n    entry: main.pi\n"),
            file("main.pi", "from ./used import Used\n\nanchor Main:\n    needs @{Used}\n"),
            file("used.pi", "export anchor Used:\n    ok\nanchor Private:\n    hidden\n"),
            file("stray.pi", "export anchor Stray:\n"),
        ],
    );
    let specbase = Specbase::load("/p", true, &tree).unwrap();
    let by_rel = |rel: &str| specbase.files.iter().find(|f| f.rel == rel).unwrap();
    assert!(by_rel("main.pi").reached);
    assert!(by_rel("used.pi").reached);
    assert!(by_rel("used.pi").symbols[0].reached);
    assert!(!by_rel("used.pi").symbols[1].reached, "nothing asks for Private");
    assert!(!by_rel("stray.pi").reached);
    assert!(!by_rel("main.pi").symbols[0].reached, "Main is not exported");
    assert_eq!(specbase.unreached_files(), 1);
    assert_eq!(specbase.unreached_symbols(), 4, "P, Main, Private and Stray");
    assert_eq!(specbase.symbol_count(), 5);
}

#[test]
fn neighbours_list_each_file_once_on_one_side() {
    let specbase = fixture();
    let layout = specbase.files.iter().find(|f| f.rel == "spec/shape/ui/Layout.pi").unwrap().id;
    let toolbar = specbase.files.iter().find(|f| f.rel == "spec/shape/ui/Toolbar.pi").unwrap().id;
    let shape = specbase.files.iter().find(|f| f.rel == "spec/shape/index.pi").unwrap().id;
    let (incoming, outgoing) = neighbours(&specbase, layout);
    assert_eq!(outgoing, vec![toolbar]);
    assert_eq!(incoming, vec![shape]);
}

#[test]
fn a_node_is_outlined_by_selection_pointer_and_reach() {
    let sel = node_outline(Some(2), None, None, 2, false);
    assert_eq!(sel.outline, Outline::Selected);
    assert!(!sel.dashed);
    assert_eq!(node_outline(None, Some(2), Some(2), 2, true).outline, Outline::Selected);
    assert_eq!(node_outline(Some(1), None, Some(2), 2, true).outline, Outline::Hovered);
    let unreached = node_outline(None, None, None, 2, false);
    assert_eq!(unreached.outline, Outline::Unreached);
    assert!(unreached.dashed);
    let plain = node_outline(None, None, Some(5), 2, true);
    assert_eq!(plain.outline, Outline::Plain);
    assert!(!plain.dashed);
}

#[test]
fn a_demanded_module_that_re_exports_itself_whole_is_never_finished() {
    let tree = dir(
        "p",
        vec![
            file("piton.config.pi", "piton-config P:\n    entry: main.pi\n"),
            file("main.pi", "from ./a import *\n"),
            file("a.pi", "from ./b export *\nexport anchor A:\n"),
            file("b.pi", "from ./a export *\nexport anchor B:\n"),
        ],
    );
    assert!(Specbase::load_or_loop("/p", true, &tree).is_none());
}

#[test]
fn whole_re_exports_that_nothing_demands_are_loaded() {
    let tree = dir(
        "p",
        vec![
            file("piton.config.pi", "piton-config P:\n    entry: main.pi\n"),
            file("main.pi", "from ./c export *\nanchor Main:\n"),
            file("c.pi", "export anchor C:\n"),
            file("a.pi", "from ./b export *\n"),
            file("b.pi", "from ./a export *\n"),
        ],
    );
    let loaded = Specbase::load_or_loop("/p", true, &tree).expect("the load finishes");
    let specbase = loaded.expect("this project is a Piton project");
    let by_rel = |rel: &str| specbase.files.iter().find(|f| f.rel == rel).unwrap();
    assert!(by_rel("c.pi").reached);
    assert!(by_rel("c.pi").symbols[0].reached);
    assert!(!by_rel("a.pi").reached);
    assert!(!by_rel("b.pi").reached);
}
