use overlook::paths::{find_last_dot, join_norm, path_string, pi_name, rel_string, with_extension_pi};

fn chars(s: &str) -> Vec<char> {
    s.chars().collect()
}

fn components(parts: &[&str]) -> Vec<Vec<char>> {
    parts.iter().map(|p| chars(p)).collect()
}

fn text(cs: &[char]) -> String {
    cs.iter().collect()
}

#[test]
fn a_relative_path_is_read_on_from_the_base() {
    let base = components(&["home", "someone", "spec"]);
    let joined = join_norm(&base, &chars("core/./types"));
    assert_eq!(joined, components(&["home", "someone", "spec", "core", "types"]));
}

#[test]
fn going_up_drops_a_component_and_never_passes_the_root() {
    let base = components(&["home", "spec"]);
    assert_eq!(join_norm(&base, &chars("../other")), components(&["home", "other"]));
    assert_eq!(join_norm(&base, &chars("../../../../top")), components(&["top"]));
}

#[test]
fn an_absolute_path_starts_again_from_the_root() {
    let base = components(&["home", "spec"]);
    assert_eq!(join_norm(&base, &chars("/etc//piton")), components(&["etc", "piton"]));
    assert_eq!(join_norm(&base, &chars("/")), components(&[]));
}

#[test]
fn the_extension_is_replaced_or_added() {
    assert_eq!(with_extension_pi(&components(&["a", "types.txt"])), components(&["a", "types.pi"]));
    assert_eq!(with_extension_pi(&components(&["a", "types"])), components(&["a", "types.pi"]));
    assert_eq!(with_extension_pi(&components(&["a", ".hidden"])), components(&["a", ".hidden.pi"]));
    assert_eq!(with_extension_pi(&components(&["a", "x.tar.gz"])), components(&["a", "x.tar.pi"]));
    assert_eq!(with_extension_pi(&components(&[])), components(&[]));
}

#[test]
fn only_names_with_the_pi_extension_are_spec_files() {
    assert!(pi_name(&chars("types.pi")));
    assert!(pi_name(&chars("a.b.pi")));
    assert!(!pi_name(&chars(".pi")));
    assert!(!pi_name(&chars("types.pix")));
    assert!(!pi_name(&chars("types")));
    assert!(!pi_name(&chars("pi")));
}

#[test]
fn the_last_dot_is_found() {
    assert_eq!(find_last_dot(&chars("a.b.c")), Some(3));
    assert_eq!(find_last_dot(&chars(".x")), Some(0));
    assert_eq!(find_last_dot(&chars("none")), None);
    assert_eq!(find_last_dot(&chars("")), None);
}

#[test]
fn paths_are_written_out_with_slashes() {
    assert_eq!(text(&path_string(&components(&[]))), "/");
    assert_eq!(text(&path_string(&components(&["home", "spec", "a.pi"]))), "/home/spec/a.pi");
    let comps = components(&["home", "spec", "core", "a\\b.pi"]);
    assert_eq!(text(&rel_string(&comps, 2)), "core/a/b.pi");
    assert_eq!(text(&rel_string(&comps, 4)), "");
}

#[test]
fn normalizing_twice_changes_nothing() {
    let base = components(&["home", "spec"]);
    let once = join_norm(&base, &chars("./a/../b//c/."));
    assert_eq!(once, components(&["home", "spec", "b", "c"]));
    let text = path_string(&once);
    let twice = join_norm(&components(&["elsewhere"]), &text);
    assert_eq!(twice, once);
    assert!(once.iter().all(|c| !c.is_empty() && *c != chars(".") && *c != chars("..")));
}
