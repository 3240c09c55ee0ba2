use overlook::highlight::{first_overlap, push_token, sections, Class, Span};

fn runs(spans: &[Span]) -> Vec<(usize, usize, Class)> {
    spans.iter().map(|s| (s.range.start, s.range.end, s.class)).collect()
}

#[test]
fn runs_of_one_class_are_drawn_as_one() {
    let mut spans = Vec::new();
    push_token(&mut spans, 0..6, Class::Keyword);
    push_token(&mut spans, 6..7, Class::Plain);
    push_token(&mut spans, 7..13, Class::Keyword);
    push_token(&mut spans, 13..14, Class::Keyword);
    push_token(&mut spans, 14..19, Class::Declaration);
    assert_eq!(
        runs(&spans),
        vec![(0, 6, Class::Keyword), (7, 14, Class::Keyword), (14, 19, Class::Declaration)]
    );
}

#[test]
fn the_gaps_between_runs_are_laid_out_plain() {
    let mut spans = Vec::new();
    push_token(&mut spans, 2..4, Class::Name);
    push_token(&mut spans, 6..8, Class::Number);
    let laid_out = sections(&spans, 10);
    assert_eq!(
        runs(&laid_out),
        vec![
            (0, 2, Class::Plain),
            (2, 4, Class::Name),
            (4, 6, Class::Plain),
            (6, 8, Class::Number),
            (8, 10, Class::Plain),
        ]
    );
    assert_eq!(runs(&sections(&Vec::new(), 3)), vec![(0, 3, Class::Plain)]);
}

#[test]
fn a_run_is_underlined_by_the_first_mark_that_reaches_into_it() {
    let marks = vec![0..2, 5..9, 7..12];
    assert_eq!(first_overlap(&marks, &(6..8)), Some(1));
    assert_eq!(first_overlap(&marks, &(2..5)), None);
    assert_eq!(first_overlap(&marks, &(9..10)), Some(2));
}
