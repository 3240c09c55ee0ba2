//! A reusable toolbar's buttons: text only, icon only, or icon and text
//! together, arranged in groups.

use vstd::prelude::*;

use crate::status::Tone;

verus! {

/// The small pictures a button can show.
#[derive(Debug, Clone, Copy, PartialEq, Eq, Structural)]
pub enum Icon {
    FolderOpen,
    Info,
    Power,
    Fit,
    ZoomIn,
    ZoomOut,
    File,
    Graph,
    Warning,
    Focus,
    Save,
    Revert,
    Close,
}

/// What a button shows.
#[derive(Debug, Clone)]
pub enum ButtonContent {
    Text(String),
    Icon(Icon),
    IconText(Icon, String),
}

#[derive(Debug, Clone)]
pub struct ToolbarButton {
    /// Identifies the button when it is clicked.
    pub id: &'static str,
    pub content: ButtonContent,
    pub tooltip: Option<String>,
    pub enabled: bool,
    pub active: bool,
    pub danger: bool,
}

/// A button as it is made: enabled, not active, not dangerous, without a
/// tooltip.
pub open spec fn plain_button(b: ToolbarButton, id: &'static str) -> bool {
    &&& b.id@ == id@
    &&& b.tooltip is None
    &&& b.enabled
    &&& !b.active
    &&& !b.danger
}

/// The background a button is drawn on.
#[derive(Debug, Clone, Copy, PartialEq, Eq, Structural)]
pub enum ButtonFill {
    /// Nothing behind the button.
    Clear,
    /// The pointer rests on it.
    Hovered,
    /// It stands for something that is on.
    Active,
    /// It is being pressed.
    Pressed,
}

/// How a button answers the pointer and how it is drawn.
#[derive(Debug, Clone, Copy, PartialEq, Eq, Structural)]
pub struct ButtonLook {
    /// Whether it takes clicks, or only notices the pointer.
    pub clickable: bool,
    pub fill: ButtonFill,
    /// The colour of its icon and text.
    pub color: Tone,
}

/// The look of a button: `pointer_over` and `pointer_down` say where the
/// pointer is, and count only for a button that is enabled.
pub open spec fn look_spec(enabled: bool, active: bool, danger: bool, pointer_over: bool, pointer_down: bool) -> ButtonLook {
    let hovered = pointer_over && enabled;
    let pressed = pointer_down && enabled;
    ButtonLook {
        clickable: enabled,
        fill: if pressed {
            ButtonFill::Pressed
        } else if active {
            ButtonFill::Active
        } else if hovered {
            ButtonFill::Hovered
        } else {
            ButtonFill::Clear
        },
        color: if !enabled {
            Tone::Faint
        } else if danger && hovered {
            Tone::Danger
        } else if hovered || active {
            Tone::Text
        } else {
            Tone::Dim
        },
    }
}

impl ToolbarButton {
    /// How the button looks with the pointer where it is.
    pub fn look(&self, pointer_over: bool, pointer_down: bool) -> (r: ButtonLook)
        ensures
            r == look_spec(self.enabled, self.active, self.danger, pointer_over, pointer_down),
    {
        let hovered = pointer_over && self.enabled;
        let pressed = pointer_down && self.enabled;
        let fill = if pressed {
            ButtonFill::Pressed
        } else if self.active {
            ButtonFill::Active
        } else if hovered {
            ButtonFill::Hovered
        } else {
            ButtonFill::Clear
        };
        let color = if !self.enabled {
            Tone::Faint
        } else if self.danger && hovered {
            Tone::Danger
        } else if hovered || self.active {
            Tone::Text
        } else {
            Tone::Dim
        };
        ButtonLook { clickable: self.enabled, fill, color }
    }

    pub fn text(id: &'static str, label: &str) -> (r: Self)
        ensures
            plain_button(r, id),
            r.content matches ButtonContent::Text(t) && t@ == label@,
    {
        Self::new(id, ButtonContent::Text(label.to_owned()))
    }

    pub fn icon(id: &'static str, icon: Icon) -> (r: Self)
        ensures
            plain_button(r, id),
            r.content matches ButtonContent::Icon(i) && i == icon,
    {
        Self::new(id, ButtonContent::Icon(icon))
    }

    pub fn icon_text(id: &'static str, icon: Icon, label: &str) -> (r: Self)
        ensures
            plain_button(r, id),
            r.content matches ButtonContent::IconText(i, t) && i == icon && t@ == label@,
    {
        Self::new(id, ButtonContent::IconText(icon, label.to_owned()))
    }

    fn new(id: &'static str, content: ButtonContent) -> (r: Self)
        ensures
            plain_button(r, id),
            r.content == content,
    {
        ToolbarButton { id, content, tooltip: None, enabled: true, active: false, danger: false }
    }

    pub fn tooltip(self, text: &str) -> (r: Self)
        ensures
            r.tooltip matches Some(t) && t@ == text@,
            r.id == self.id,
            r.content == self.content,
            r.enabled == self.enabled,
            r.active == self.active,
            r.danger == self.danger,
    {
        let mut b = self;
        b.tooltip = Some(text.to_owned());
        b
    }

    pub fn enabled(self, enabled: bool) -> (r: Self)
        ensures
            r == (ToolbarButton { enabled, ..self }),
    {
        let mut b = self;
        b.enabled = enabled;
        b
    }

    /// Marks the button as showing a state that is currently on.
    pub fn active(self, active: bool) -> (r: Self)
        ensures
            r == (ToolbarButton { active, ..self }),
    {
        let mut b = self;
        b.active = active;
        b
    }

    pub fn danger(self, danger: bool) -> (r: Self)
        ensures
            r == (ToolbarButton { danger, ..self }),
    {
        let mut b = self;
        b.danger = danger;
        b
    }
}

/// Buttons that belong together; groups are drawn with a separator between.
#[derive(Debug, Clone)]
pub struct ToolbarGroup {
    pub buttons: Vec<ToolbarButton>,
}

impl ToolbarGroup {
    pub fn new(buttons: Vec<ToolbarButton>) -> (r: Self)
        ensures
            r.buttons == buttons,
    {
        ToolbarGroup { buttons }
    }
}

impl Default for ToolbarGroup {
    fn default() -> (r: Self)
        ensures
            r.buttons@.len() == 0,
    {
        ToolbarGroup { buttons: Vec::new() }
    }
}

#[derive(Debug, Clone, Copy, PartialEq, Eq, Structural)]
pub enum ToolbarDirection {
    Horizontal,
    Vertical,
}

} // verus!
