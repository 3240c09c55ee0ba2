use overlook::lsp::{offset_of, path_of, position_of, uri, Position, Problem, Severity};

#[test]
fn a_problem_falls_on_the_text_it_is_about() {
    let text = "anchor A:\n    key: nope\n";
    let problem = Problem {
        severity: Severity::Error,
        message: String::new(),
        start: Position { line: 1, character: 9 },
        end: Position { line: 1, character: 13 },
    };

    let range = problem.range_in(text);
    assert_eq!(&text[range], "nope");
}

#[test]
fn an_empty_problem_range_still_covers_something() {
    let text = "anchor A:\n";
    let problem = Problem {
        severity: Severity::Warning,
        message: String::new(),
        start: Position { line: 0, character: 7 },
        end: Position { line: 0, character: 7 },
    };

    let range = problem.range_in(text);
    assert!(!range.is_empty(), "there is something to underline");
}

#[test]
fn positions_and_offsets_agree_with_each_other() {
    let text = "anchor A:\n    key: value\nlast";

    assert_eq!(offset_of(text, Position { line: 0, character: 0 }), 0);
    assert_eq!(offset_of(text, Position { line: 1, character: 4 }), 14);
    assert_eq!(&text[offset_of(text, Position { line: 1, character: 9 })..][..5], "value");
    assert_eq!(position_of(text, 14), Position { line: 1, character: 4 });
    assert_eq!(position_of(text, 0), Position::default());

    for offset in 0..=text.len() {
        assert_eq!(
            offset_of(text, position_of(text, offset)),
            offset,
            "the position of {offset} points back at it"
        );
    }
}

#[test]
fn positions_count_the_characters_the_protocol_counts() {
    let text = "key: 🌲🌲 here";
    let after_trees = text.find(" here").unwrap();

    let position = position_of(text, after_trees);
    assert_eq!(position.character, 9, "two trees are two units each");
    assert_eq!(offset_of(text, position), after_trees);
}

#[test]
fn a_uri_and_a_path_round_trip_through_each_other() {
    for path in [
        "/home/someone/overlook/spec/index.pi",
        "/tmp/a directory/Thing.pi",
        "/tmp/over look/spec/ui/Node Map.pi",
    ] {
        assert_eq!(path_of(&uri(path)), Some(path.to_string()), "{}", path);
    }
    assert!(!uri("/a b").contains(' '), "spaces are escaped");
    assert_eq!(path_of("not a uri"), None);
}

fn empty_problem_at(line: u32, character: u32) -> Problem {
    Problem {
        severity: Severity::Error,
        message: String::new(),
        start: Position { line, character },
        end: Position { line, character },
    }
}

#[test]
fn an_empty_problem_takes_the_whole_character_it_sits_on() {
    assert_eq!(empty_problem_at(0, 0).range_in("é"), 0..2);
    assert_eq!(empty_problem_at(0, 1).range_in("aéb"), 1..3);
    assert_eq!(empty_problem_at(0, 0).range_in("😀x"), 0..4);
    assert_eq!(empty_problem_at(0, 1).range_in("ab"), 1..2);
}

#[test]
fn an_empty_problem_at_the_end_stays_empty() {
    assert_eq!(empty_problem_at(0, 1).range_in("a"), 1..1);
    assert_eq!(empty_problem_at(5, 0).range_in("a\nb"), 3..3);
}
