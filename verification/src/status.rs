//! The status bar: a slim row of grouped text and icons describing the
//! current state, and what it says for the state the application is in.

use vstd::prelude::*;

use crate::application::{decimal, push_decimal, push_text, Message, MessageKind};
use crate::text::{chars_of, string_of, Text};
use crate::toolbar::Icon;

verus! {

/// The colour of the theme an item is drawn in.
#[derive(Debug, Clone, Copy, PartialEq, Eq, Structural)]
pub enum Tone {
    Text,
    Dim,
    Faint,
    Warn,
    Danger,
    Accent,
}

#[derive(Debug)]
pub struct StatusItem {
    pub icon: Option<Icon>,
    pub text: String,
    pub color: Tone,
    pub tooltip: Option<String>,
}

/// What an item shows.
pub struct ItemView {
    pub icon: Option<Icon>,
    pub text: Text,
    pub color: Tone,
    pub tooltip: Option<Text>,
}

impl View for StatusItem {
    type V = ItemView;

    open spec fn view(&self) -> ItemView {
        ItemView {
            icon: self.icon,
            text: self.text@,
            color: self.color,
            tooltip: match self.tooltip {
                Some(t) => Some(t@),
                None => None,
            },
        }
    }
}

/// An item showing `text`, dimmed, with no icon and no tooltip.
pub open spec fn plain(text: Text) -> ItemView {
    ItemView { icon: None, text, color: Tone::Dim, tooltip: None }
}

/// An item showing `icon` before `text`, dimmed, with no tooltip.
pub open spec fn with_icon(icon: Icon, text: Text) -> ItemView {
    ItemView { icon: Some(icon), text, color: Tone::Dim, tooltip: None }
}

pub open spec fn recoloured(item: ItemView, color: Tone) -> ItemView {
    ItemView { color, ..item }
}

pub open spec fn explained(item: ItemView, tooltip: Text) -> ItemView {
    ItemView { tooltip: Some(tooltip), ..item }
}

fn string_from(s: &str) -> (r: String)
    ensures
        r@ == s@,
{
    let cs = chars_of(s);
    string_of(cs.as_slice())
}

impl StatusItem {
    pub fn text(text: &str) -> (r: StatusItem)
        ensures
            r@ == plain(text@),
    {
        StatusItem { icon: None, text: string_from(text), color: Tone::Dim, tooltip: None }
    }

    pub fn icon_text(icon: Icon, text: &str) -> (r: StatusItem)
        ensures
            r@ == with_icon(icon, text@),
    {
        StatusItem { icon: Some(icon), text: string_from(text), color: Tone::Dim, tooltip: None }
    }

    pub fn color(self, color: Tone) -> (r: StatusItem)
        ensures
            r@ == recoloured(self@, color),
    {
        StatusItem { color, ..self }
    }

    pub fn tooltip(self, tooltip: &str) -> (r: StatusItem)
        ensures
            r@ == explained(self@, tooltip@),
    {
        StatusItem { tooltip: Some(string_from(tooltip)), ..self }
    }
}

/// Items shown together, separated from neighbouring groups.
#[derive(Debug)]
pub struct StatusGroup {
    pub items: Vec<StatusItem>,
}

impl View for StatusGroup {
    type V = Seq<ItemView>;

    open spec fn view(&self) -> Seq<ItemView> {
        self.items@.map_values(|i: StatusItem| i@)
    }
}

impl StatusGroup {
    pub fn new(items: Vec<StatusItem>) -> (r: StatusGroup)
        ensures
            r.items@ == items@,
    {
        StatusGroup { items }
    }
}

#[derive(Debug)]
pub struct StatusBar {
    /// Groups laid out from the left; the first is the far left group.
    pub left: Vec<StatusGroup>,
    /// Groups laid out from the right.
    pub right: Vec<StatusGroup>,
}

pub open spec fn groups(gs: Seq<StatusGroup>) -> Seq<Seq<ItemView>> {
    gs.map_values(|g: StatusGroup| g@)
}

impl Default for StatusBar {
    fn default() -> (r: StatusBar)
        ensures
            r.left@.len() == 0,
            r.right@.len() == 0,
    {
        StatusBar { left: Vec::new(), right: Vec::new() }
    }
}

// -------------------------------------------------------- what it says

/// What a specbase that is open counts: its files, its declarations, and
/// those of each not reached.
pub struct Counts {
    pub files: usize,
    pub declarations: usize,
    pub unreached_files: usize,
    pub unreached_declarations: usize,
}

pub open spec fn text_of(s: Option<&str>) -> Option<Text> {
    match s {
        Some(t) => Some(t@),
        None => None,
    }
}

pub open spec fn counted(n: usize, what: Text) -> Text {
    decimal(n as nat) + what
}

/// The far left item: the open directory, or that none is.
pub open spec fn far_left_spec(open_dir: Option<Text>) -> ItemView {
    match open_dir {
        Some(p) => explained(recoloured(with_icon(Icon::FolderOpen, p), Tone::Text), "Currently open directory"@),
        None => recoloured(with_icon(Icon::FolderOpen, "No directory open"@), Tone::Faint),
    }
}

/// With a specbase open, its counts and, where anything is not reached, how
/// much.
pub open spec fn counted_spec(counts: Option<Counts>) -> Seq<Seq<ItemView>> {
    match counts {
        Some(c) => {
            let sizes = seq![seq![
                plain(counted(c.files, " files"@)),
                plain(counted(c.declarations, " declarations"@)),
            ]];
            if c.unreached_files + c.unreached_declarations > 0 {
                sizes + seq![seq![recoloured(with_icon(Icon::Warning,
                    counted(c.unreached_files, " files, "@) + counted(c.unreached_declarations, " declarations unreached"@)),
                    Tone::Warn)]]
            } else {
                sizes
            }
        },
        None => seq![],
    }
}

/// A message that reports an error; other messages are not shown here.
pub open spec fn error_spec(message: Option<&Message>) -> Seq<Seq<ItemView>> {
    match message {
        Some(m) if m.kind == MessageKind::Error => seq![seq![recoloured(with_icon(Icon::Warning, m.text@), Tone::Danger)]],
        _ => seq![],
    }
}

pub open spec fn focus_spec(focused: Option<Text>) -> Seq<Seq<ItemView>> {
    match focused {
        Some(name) => seq![seq![explained(recoloured(with_icon(Icon::Focus, "Focused on "@ + name), Tone::Accent),
            "Press Escape to leave focus"@)]],
        None => seq![],
    }
}

/// The left groups: the open directory at the far left; then, with a
/// specbase open, its counts and, where anything is not reached, how much;
/// an error being reported; and the file the canvas is focused on.
pub open spec fn left_spec(
    open_dir: Option<Text>,
    counts: Option<Counts>,
    error: Option<&Message>,
    focused: Option<Text>,
) -> Seq<Seq<ItemView>> {
    seq![seq![far_left_spec(open_dir)]] + counted_spec(counts) + error_spec(error) + focus_spec(focused)
}

/// The right groups: the selected file, by its path below the root and
/// with its declarations counted; and, with a specbase open, the zoom.
pub open spec fn right_spec(
    counts: Option<Counts>,
    selected: Option<(Text, usize)>,
    zoom_percent: Text,
) -> Seq<Seq<ItemView>> {
    let selected_groups = match selected {
        Some((rel, n)) => seq![seq![
            recoloured(with_icon(Icon::File, rel), Tone::Text),
            plain(counted(n, " declarations"@)),
        ]],
        None => seq![],
    };
    let zoom_groups = match counts {
        Some(_) => seq![seq![plain(zoom_percent + "%"@)]],
        None => seq![],
    };
    selected_groups + zoom_groups
}

fn counted_text(n: usize, what: &str) -> (r: String)
    ensures
        r@ == counted(n, what@),
{
    let mut out: Vec<char> = Vec::new();
    push_decimal(&mut out, n);
    push_text(&mut out, what);
    string_of(out.as_slice())
}

fn one(item: StatusItem) -> (r: StatusGroup)
    ensures
        r@ == seq![item@],
{
    let mut items: Vec<StatusItem> = Vec::new();
    items.push(item);
    let r = StatusGroup { items };
    assert(r@ =~= seq![item@]);
    r
}

fn two(a: StatusItem, b: StatusItem) -> (r: StatusGroup)
    ensures
        r@ == seq![a@, b@],
{
    let mut items: Vec<StatusItem> = Vec::new();
    items.push(a);
    items.push(b);
    let r = StatusGroup { items };
    assert(r@ =~= seq![a@, b@]);
    r
}

fn push_group(gs: &mut Vec<StatusGroup>, g: StatusGroup)
    ensures
        groups(final(gs)@) == groups(old(gs)@) + seq![g@],
{
    let ghost before = groups(gs@);
    let ghost gv = g@;
    gs.push(g);
    assert(groups(gs@) =~= before + seq![gv]);
}

/// What the status bar says: `open_dir` is the folder that is open, with
/// `counts` its specbase's; `message` the message being shown; `focused` the
/// name of the file the canvas is focused on; `selected` the selected file's
/// path below the root and its number of declarations; `zoom_percent` the
/// canvas's zoom, in percent, as written out.
pub fn status_items(
    open_dir: Option<&str>,
    counts: Option<Counts>,
    message: Option<&Message>,
    focused: Option<&str>,
    selected: Option<(&str, usize)>,
    zoom_percent: &str,
) -> (r: StatusBar)
    ensures
        groups(r.left@) == left_spec(text_of(open_dir), counts, message, text_of(focused)),
        groups(r.right@) == right_spec(
            counts,
            match selected {
                Some((rel, n)) => Some((rel@, n)),
                None => None,
            },
            zoom_percent@,
        ),
{
    let mut left: Vec<StatusGroup> = Vec::new();
    let far_left = match open_dir {
        Some(path) => StatusItem::icon_text(Icon::FolderOpen, path).color(Tone::Text).tooltip(
            "Currently open directory",
        ),
        None => StatusItem::icon_text(Icon::FolderOpen, "No directory open").color(Tone::Faint),
    };
    push_group(&mut left, one(far_left));
    let ghost g1 = groups(left@);
    assert(g1 =~= seq![seq![far_left_spec(text_of(open_dir))]]);
    let ghost cv = counts;
    let has_counts = counts.is_some();
    match counts {
        Some(c) => {
            push_group(
                &mut left,
                two(
                    StatusItem { icon: None, text: counted_text(c.files, " files"), color: Tone::Dim, tooltip: None },
                    StatusItem {
                        icon: None,
                        text: counted_text(c.declarations, " declarations"),
                        color: Tone::Dim,
                        tooltip: None,
                    },
                ),
            );
            if c.unreached_files > 0 || c.unreached_declarations > 0 {
                let mut out: Vec<char> = Vec::new();
                push_decimal(&mut out, c.unreached_files);
                push_text(&mut out, " files, ");
                push_decimal(&mut out, c.unreached_declarations);
                push_text(&mut out, " declarations unreached");
                assert(out@ =~= counted(c.unreached_files, " files, "@) + counted(
                    c.unreached_declarations,
                    " declarations unreached"@,
                ));
                let item = StatusItem {
                    icon: Some(Icon::Warning),
                    text: string_of(out.as_slice()),
                    color: Tone::Warn,
                    tooltip: None,
                };
                push_group(&mut left, one(item));
            }
            assert(groups(left@) =~= g1 + counted_spec(cv));
        },
        None => {
            assert(groups(left@) =~= g1 + counted_spec(cv));
        },
    }
    let ghost g2 = groups(left@);
    match message {
        Some(m) => {
            if m.kind == MessageKind::Error {
                push_group(
                    &mut left,
                    one(StatusItem::icon_text(Icon::Warning, m.text.as_str()).color(Tone::Danger)),
                );
            }
        },
        None => {},
    }
    assert(groups(left@) =~= g2 + error_spec(message));
    let ghost g3 = groups(left@);
    match focused {
        Some(name) => {
            let mut out: Vec<char> = Vec::new();
            push_text(&mut out, "Focused on ");
            push_text(&mut out, name);
            let item = StatusItem {
                icon: Some(Icon::Focus),
                text: string_of(out.as_slice()),
                color: Tone::Accent,
                tooltip: None,
            }.tooltip("Press Escape to leave focus");
            push_group(&mut left, one(item));
        },
        None => {},
    }
    assert(groups(left@) =~= g3 + focus_spec(text_of(focused)));
    let mut right: Vec<StatusGroup> = Vec::new();
    match selected {
        Some((rel, n)) => {
            push_group(
                &mut right,
                two(
                    StatusItem::icon_text(Icon::File, rel).color(Tone::Text),
                    StatusItem {
                        icon: None,
                        text: counted_text(n, " declarations"),
                        color: Tone::Dim,
                        tooltip: None,
                    },
                ),
            );
        },
        None => {},
    }
    if has_counts {
        let mut out: Vec<char> = Vec::new();
        push_text(&mut out, zoom_percent);
        push_text(&mut out, "%");
        push_group(
            &mut right,
            one(StatusItem { icon: None, text: string_of(out.as_slice()), color: Tone::Dim, tooltip: None }),
        );
    }
    StatusBar { left, right }
}

} // verus!
