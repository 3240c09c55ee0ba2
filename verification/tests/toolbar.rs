use overlook::status::Tone;
use overlook::toolbar::ButtonFill;
use overlook::toolbar::{ButtonContent, Icon, ToolbarButton};

#[test]
fn a_button_can_be_text_icon_or_both() {
    assert!(matches!(
        ToolbarButton::text("a", "Open").content,
        ButtonContent::Text(text) if text == "Open"
    ));
    assert!(matches!(
        ToolbarButton::icon("b", Icon::Fit).content,
        ButtonContent::Icon(Icon::Fit)
    ));
    assert!(matches!(
        ToolbarButton::icon_text("c", Icon::Info, "About").content,
        ButtonContent::IconText(Icon::Info, text) if text == "About"
    ));
}

#[test]
fn a_new_button_is_enabled_and_otherwise_plain() {
    let button = ToolbarButton::text("id", "Label");
    assert_eq!(button.id, "id");
    assert!(button.enabled);
    assert!(!button.active);
    assert!(!button.danger);
    assert!(button.tooltip.is_none());
}

#[test]
fn the_builders_set_one_thing_each() {
    let button = ToolbarButton::icon("focus", Icon::Focus)
        .tooltip("Focus")
        .enabled(false)
        .active(true)
        .danger(true);
    assert_eq!(button.tooltip.as_deref(), Some("Focus"));
    assert!(!button.enabled);
    assert!(button.active);
    assert!(button.danger);
}

#[test]
fn a_button_looks_as_the_pointer_and_its_state_say() {
    let plain = ToolbarButton::text("open", "Open");
    let look = plain.look(false, false);
    assert!(look.clickable);
    assert_eq!(look.fill, ButtonFill::Clear);
    assert_eq!(look.color, Tone::Dim);
    assert_eq!(plain.look(true, false).fill, ButtonFill::Hovered);
    assert_eq!(plain.look(true, false).color, Tone::Text);
    assert_eq!(plain.look(true, true).fill, ButtonFill::Pressed);

    let exit = ToolbarButton::text("exit", "Exit").danger(true);
    assert_eq!(exit.look(true, false).color, Tone::Danger);
    assert_eq!(exit.look(false, false).color, Tone::Dim);

    let off = ToolbarButton::text("save", "Save").enabled(false);
    let look = off.look(true, true);
    assert!(!look.clickable);
    assert_eq!(look.fill, ButtonFill::Clear);
    assert_eq!(look.color, Tone::Faint);

    let on = ToolbarButton::text("focus", "Focus").active(true);
    assert_eq!(on.look(false, false).fill, ButtonFill::Active);
    assert_eq!(on.look(false, false).color, Tone::Text);
}
