use overlook::model::EdgeKind;
use overlook::node_map::{canvas_step, edge_tone, topmost, CanvasAction, CanvasEvent, CanvasState, EdgeTone};

fn state(selected: Option<usize>, dragging: Option<usize>, focused: bool) -> CanvasState {
    CanvasState { selected, dragging, focused }
}

#[test]
fn a_click_selects_what_it_hits() {
    let (next, action) = canvas_step(state(Some(1), None, false), CanvasEvent::Click { hit: Some(4) });
    assert_eq!(next, state(Some(4), None, false));
    assert_eq!(action, CanvasAction::Nothing);
    let (next, _) = canvas_step(next, CanvasEvent::Click { hit: None });
    assert_eq!(next.selected, None);
}

#[test]
fn only_the_primary_button_picks_a_node_up() {
    let (next, _) = canvas_step(state(None, None, false), CanvasEvent::DragStart { primary: true, hit: Some(2) });
    assert_eq!(next.dragging, Some(2));
    let (next, _) = canvas_step(next, CanvasEvent::DragStop);
    assert_eq!(next.dragging, None);
    let (next, _) = canvas_step(state(Some(3), None, false), CanvasEvent::DragStart { primary: false, hit: Some(2) });
    assert_eq!(next, state(Some(3), None, false), "the middle button pans and leaves the selection");
}

#[test]
fn double_clicks_focus_leave_the_focus_or_fit() {
    let (next, action) = canvas_step(state(None, Some(1), false), CanvasEvent::DoubleClick { hit: Some(5) });
    assert_eq!(next, state(Some(5), None, true));
    assert_eq!(action, CanvasAction::Focus(Some(5)));
    let (next, action) = canvas_step(next, CanvasEvent::DoubleClick { hit: None });
    assert_eq!(next, state(Some(5), None, false));
    assert_eq!(action, CanvasAction::Focus(None));
    let (next, action) = canvas_step(next, CanvasEvent::DoubleClick { hit: None });
    assert_eq!(next, state(Some(5), None, false));
    assert_eq!(action, CanvasAction::FitAll);
}

#[test]
fn escape_leaves_the_focus() {
    let (next, action) = canvas_step(state(Some(2), None, true), CanvasEvent::Escape);
    assert_eq!(next, state(Some(2), None, false));
    assert_eq!(action, CanvasAction::Focus(None));
    let (next, action) = canvas_step(next, CanvasEvent::Escape);
    assert_eq!(next, state(Some(2), None, false));
    assert_eq!(action, CanvasAction::Nothing);
}

#[test]
fn the_last_node_drawn_is_the_one_hit() {
    assert_eq!(topmost(&vec![true, false, true, false]), Some(2));
    assert_eq!(topmost(&vec![false, false]), None);
    assert_eq!(topmost(&vec![]), None);
}

#[test]
fn connections_of_the_highlighted_node_stand_out() {
    assert_eq!(edge_tone(Some(1), Some(2), 1, 3, EdgeKind::Import), EdgeTone::Highlight);
    assert_eq!(edge_tone(Some(1), Some(2), 2, 3, EdgeKind::Import), EdgeTone::Dimmed(EdgeKind::Import));
    assert_eq!(edge_tone(None, Some(2), 4, 2, EdgeKind::Use), EdgeTone::Highlight);
    assert_eq!(edge_tone(None, None, 4, 2, EdgeKind::Reference), EdgeTone::Base(EdgeKind::Reference));
}
