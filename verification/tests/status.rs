use overlook::application::{Message, MessageKind};
use overlook::status::{status_items, Counts, StatusBar, StatusGroup, StatusItem, Tone};
use overlook::toolbar::Icon;

fn texts(groups: &[StatusGroup]) -> Vec<Vec<String>> {
    groups.iter().map(|g| g.items.iter().map(|i| i.text.clone()).collect()).collect()
}

fn counts(unreached_files: usize, unreached_declarations: usize) -> Counts {
    Counts { files: 12, declarations: 140, unreached_files, unreached_declarations }
}

#[test]
fn an_item_is_text_with_an_optional_icon() {
    let plain = StatusItem::text("42 files");
    assert!(plain.icon.is_none());
    assert_eq!(plain.text, "42 files");
    assert_eq!(plain.color, Tone::Dim);

    let with_icon = StatusItem::icon_text(Icon::File, "index.pi");
    assert_eq!(with_icon.icon, Some(Icon::File));
    assert_eq!(with_icon.text, "index.pi");
}

#[test]
fn an_item_can_be_recoloured_and_given_a_tooltip() {
    let item = StatusItem::text("unreached")
        .color(Tone::Warn)
        .tooltip("Not reached from the entry point");
    assert_eq!(item.color, Tone::Warn);
    assert_eq!(item.tooltip.as_deref(), Some("Not reached from the entry point"));
}

#[test]
fn a_bar_keeps_its_left_and_right_groups_apart() {
    let mut bar = StatusBar::default();
    bar.left.push(StatusGroup::new(vec![StatusItem::text("/tmp")]));
    bar.left.push(StatusGroup::new(vec![StatusItem::text("3 files")]));
    bar.right.push(StatusGroup::new(vec![StatusItem::text("100%")]));

    assert_eq!(bar.left.len(), 2);
    assert_eq!(bar.right.len(), 1);
    assert_eq!(bar.left[0].items[0].text, "/tmp", "the first left group is the far left one");
}

#[test]
fn the_status_bar_says_when_no_directory_is_open() {
    let bar = status_items(None, None, None, None, None, "100");
    assert_eq!(texts(&bar.left), vec![vec!["No directory open".to_string()]]);
    assert_eq!(bar.left[0].items[0].color, Tone::Faint);
    assert_eq!(bar.left[0].items[0].icon, Some(Icon::FolderOpen));
    assert!(bar.right.is_empty());
}

#[test]
fn the_status_bar_shows_the_absolute_path_at_the_far_left() {
    let root = "/home/someone/overlook";
    let bar = status_items(Some(root), Some(counts(0, 0)), None, None, None, "100");
    let far_left = &bar.left[0].items[0];
    assert_eq!(far_left.text, root);
    assert!(far_left.text.starts_with('/'));
    assert_eq!(far_left.tooltip.as_deref(), Some("Currently open directory"));
    assert_eq!(far_left.color, Tone::Text);
}

#[test]
fn focusing_names_the_focused_node_in_the_status_bar() {
    let bar = status_items(Some("/p"), Some(counts(0, 0)), None, Some("Layout.pi"), None, "100");
    let focus = &bar.left.last().unwrap().items[0];
    assert_eq!(focus.text, "Focused on Layout.pi");
    assert_eq!(focus.icon, Some(Icon::Focus));
    assert_eq!(focus.color, Tone::Accent);
    assert_eq!(focus.tooltip.as_deref(), Some("Press Escape to leave focus"));
}

#[test]
fn the_counts_and_what_is_unreached_are_told() {
    let bar = status_items(Some("/p"), Some(counts(2, 7)), None, None, None, "85");
    assert_eq!(
        texts(&bar.left),
        vec![
            vec!["/p".to_string()],
            vec!["12 files".to_string(), "140 declarations".to_string()],
            vec!["2 files, 7 declarations unreached".to_string()],
        ]
    );
    assert_eq!(bar.left[2].items[0].color, Tone::Warn);
    assert_eq!(texts(&bar.right), vec![vec!["85%".to_string()]]);

    let all_reached = status_items(Some("/p"), Some(counts(0, 0)), None, None, None, "85");
    assert_eq!(all_reached.left.len(), 2);
}

#[test]
fn only_an_error_is_reported_in_the_bar() {
    let error = Message { text: "No piton.config.pi in /p".to_string(), kind: MessageKind::Error };
    let bar = status_items(None, None, Some(&error), None, None, "100");
    assert_eq!(bar.left.len(), 2);
    assert_eq!(bar.left[1].items[0].text, "No piton.config.pi in /p");
    assert_eq!(bar.left[1].items[0].color, Tone::Danger);

    let info = Message { text: "Opened /p".to_string(), kind: MessageKind::Info };
    let bar = status_items(None, None, Some(&info), None, None, "100");
    assert_eq!(bar.left.len(), 1);
}

#[test]
fn the_selected_file_is_shown_at_the_right() {
    let bar = status_items(Some("/p"), Some(counts(0, 0)), None, None, Some(("spec/ui/Layout.pi", 3)), "100");
    assert_eq!(
        texts(&bar.right),
        vec![
            vec!["spec/ui/Layout.pi".to_string(), "3 declarations".to_string()],
            vec!["100%".to_string()],
        ]
    );
    assert_eq!(bar.right[0].items[0].icon, Some(Icon::File));
}
