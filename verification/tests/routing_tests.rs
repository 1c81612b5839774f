//! Event routing, focus navigation, and session tests.

use webgl_gui::builders::ButtonResult;
use webgl_gui::draw::DrawCmd;
use webgl_gui::event::{Event, Key, MouseButton};
use webgl_gui::geom::{Color, Vec2};
use webgl_gui::gui::{Component, Gui};
use webgl_gui::text::FixedWidthFont;
use webgl_gui::theme::Theme;
use webgl_gui::widget::{Button, Row, Widget, WidgetId};

fn test_theme() -> Theme<FixedWidthFont> {
    Theme {
        font: FixedWidthFont { advance_x: 1, line_height: 5 },
        label_color: Color { r: 10, g: 0, b: 0, a: 255 },
        button_text_color: Color { r: 11, g: 0, b: 0, a: 255 },
        button_fill_color: Color { r: 12, g: 0, b: 0, a: 255 },
        button_border_color: Color { r: 13, g: 0, b: 0, a: 255 },
        button_selected_fill_color: Color { r: 14, g: 0, b: 0, a: 255 },
        button_active_fill_color: Color { r: 15, g: 0, b: 0, a: 255 },
        padding: 0,
    }
}

fn key(name: &str, shift: bool) -> Event {
    Event::KeyDown(Key {
        key: name.to_string(),
        code: name.to_string(),
        shift,
        ctrl: false,
        alt: false,
    })
}

/// A test component that simply hands back the events routed to it, so a
/// test can inspect a bucket's exact contents.
struct Probe {
    id: WidgetId,
}

impl Component for Probe {
    type Res = Vec<Event>;

    fn spec_id(&self) -> WidgetId {
        self.id
    }

    fn id(&self) -> WidgetId {
        self.id
    }

    fn update(&mut self, events: Vec<Event>) -> Vec<Event> {
        events
    }
}

/// Two 10-character buttons side by side under a 1x5 font, each of
/// minimum width 14, with equal flex in a 120-wide surface: the leftover
/// 92 splits into shares of 46, so button 1 spans x 0..60 and button 2
/// spans x 60..120.
fn two_button_gui() -> (Gui, Theme<FixedWidthFont>) {
    let theme = test_theme();
    let mut gui = Gui::new();
    let a = Button::new(1, "aaaaaaaaaa").widget();
    let b = Button::new(2, "bbbbbbbbbb").widget();
    let root = Row::new(3).child(1, a).child(1, b).widget();
    gui.draw(&theme, Vec2 { x: 120, y: 7 }, None, root);
    (gui, theme)
}

/// With no prior draw call, every event is returned unhandled and no
/// component receives anything.
#[test]
fn no_frame_means_all_unhandled() {
    let mut gui = Gui::new();
    let events = vec![key("a", false), Event::FocusGained];
    let mut res = gui.handle_events(&events, &[1, 2]);
    let mut probe = Box::new(Probe { id: 1 });
    assert_eq!(res.update_component(&mut probe).len(), 0);
    let unhandled = res.unhandled_events();
    assert_eq!(unhandled.len(), 2);
    assert!(matches!(unhandled[1], Event::FocusGained));
}

/// An empty batch with no prior draw: nothing handled, nothing delivered.
#[test]
fn empty_batch_no_frame() {
    let mut gui = Gui::new();
    let mut res = gui.handle_events(&[], &[1]);
    let mut probe = Box::new(Probe { id: 1 });
    assert_eq!(res.update_component(&mut probe).len(), 0);
    assert_eq!(res.unhandled_events().len(), 0);
}

/// First-match exclusivity: a broadcast-class event goes to the first
/// component in traversal order, and only to it.
#[test]
fn broadcast_goes_to_first_component_only() {
    let (mut gui, _theme) = two_button_gui();
    let mut res = gui.handle_events(&[Event::FocusGained], &[1, 2]);
    let mut first = Box::new(Probe { id: 1 });
    let mut second = Box::new(Probe { id: 2 });
    let got1 = res.update_component(&mut first);
    let got2 = res.update_component(&mut second);
    assert_eq!(got1.len(), 1);
    assert!(matches!(got1[0], Event::FocusGained));
    assert_eq!(got2.len(), 0);
    assert_eq!(res.unhandled_events().len(), 0);
}

/// A mouse-down inside a component's rectangle is delivered to it with the
/// position translated into the component's local frame.
#[test]
fn mouse_down_is_hit_tested_and_translated() {
    let (mut gui, _theme) = two_button_gui();
    // Button 2 occupies x 60..120 (each button: min width 14, leftover
    // 120-28=92, share 46 each, so widths 60 and 60).
    let click = Event::MouseDown(MouseButton::Left, Vec2 { x: 63, y: 2 });
    let mut res = gui.handle_events(&[click], &[1, 2]);
    let mut second = Box::new(Probe { id: 2 });
    let got = res.update_component(&mut second);
    assert_eq!(got.len(), 1);
    match &got[0] {
        Event::MouseDown(MouseButton::Left, p) => {
            assert_eq!(*p, Vec2 { x: 3, y: 2 });
        },
        _ => panic!("unexpected delivery"),
    }
}

/// Click-to-focus: a primary mouse-down inside component 2 makes it
/// active, so the next key event is delivered to it and not to the
/// previously active component 1.
#[test]
fn click_to_focus_overrides_prior_state() {
    let (mut gui, _theme) = two_button_gui();
    // The first routing call seeds the focus at component 1.
    let mut res1 = gui.handle_events(&[key("x", false)], &[1, 2]);
    let mut first = Box::new(Probe { id: 1 });
    assert_eq!(res1.update_component(&mut first).len(), 1);
    // A primary click on component 2 moves the focus there.
    let click = Event::MouseDown(MouseButton::Left, Vec2 { x: 70, y: 3 });
    let mut res2 = gui.handle_events(&[click, key("y", false)], &[1, 2]);
    let mut first = Box::new(Probe { id: 1 });
    let mut second = Box::new(Probe { id: 2 });
    assert_eq!(res2.update_component(&mut first).len(), 0);
    let got = res2.update_component(&mut second);
    // The click and then the key event, in arrival order.
    assert_eq!(got.len(), 2);
    assert!(matches!(got[0], Event::MouseDown(MouseButton::Left, _)));
    assert!(matches!(got[1], Event::KeyDown(_)));
}

/// Key events go only to the active component; with none active and no
/// ordered components, they are unhandled.
#[test]
fn key_events_need_an_active_component() {
    let (mut gui, _theme) = two_button_gui();
    let mut res = gui.handle_events(&[key("x", false)], &[]);
    assert_eq!(res.unhandled_events().len(), 1);
}

/// Focus cycling with wraparound: with 3 ordered components (none of them
/// in the drawn tree, so Tab is never consumed), Tab steps 0 -> 1 -> 2 and
/// wraps to 0; Shift+Tab steps back from 0 to 2. Cycled Tab presses are
/// consumed by the navigation, not unhandled.
#[test]
fn tab_cycles_and_wraps() {
    let theme = test_theme();
    let mut gui = Gui::new();
    // A tree without components: nothing consumes key events.
    gui.draw(&theme, Vec2 { x: 50, y: 10 }, None, Widget::label(9, "hi"));
    let ordered: Vec<u64> = vec![10, 20, 30];

    // Seeded at index 0; three Tabs: 1, 2, wrap to 0.
    let mut res = gui.handle_events(
        &[key("Tab", false), key("Tab", false), key("Tab", false)],
        &ordered,
    );
    assert_eq!(res.unhandled_events().len(), 0);

    // Shift+Tab from 0 wraps back to 2. Observe the state through the
    // active-fill color of a button drawn with id 30.
    let mut res2 = gui.handle_events(&[key("Tab", true)], &ordered);
    assert_eq!(res2.unhandled_events().len(), 0);
    let r = gui.draw(
        &theme,
        Vec2 { x: 50, y: 10 },
        None,
        Button::new(30, "zz").widget(),
    );
    let cmds = r.commands();
    match &cmds[0] {
        DrawCmd::FillRect { color, .. } => {
            assert_eq!(*color, test_theme().button_active_fill_color);
        },
        _ => panic!("expected a fill command first"),
    }
}

/// A Tab with no ordered components falls through as unhandled.
#[test]
fn tab_without_components_is_unhandled() {
    let theme = test_theme();
    let mut gui = Gui::new();
    gui.draw(&theme, Vec2 { x: 50, y: 10 }, None, Widget::label(9, "hi"));
    let mut res = gui.handle_events(&[key("Tab", false)], &[]);
    assert_eq!(res.unhandled_events().len(), 1);
}

/// Mouse enter/leave and pointer-lock events are never delivered to
/// components; they fall through as unhandled.
#[test]
fn informational_events_are_unhandled() {
    let (mut gui, _theme) = two_button_gui();
    let events = vec![
        Event::MouseEnter,
        Event::MouseLeave,
        Event::PointerLocked,
        Event::PointerUnlocked,
    ];
    let mut res = gui.handle_events(&events, &[1, 2]);
    let mut first = Box::new(Probe { id: 1 });
    assert_eq!(res.update_component(&mut first).len(), 0);
    assert_eq!(res.unhandled_events().len(), 4);
}

/// A mouse-down outside every component is unhandled.
#[test]
fn miss_click_is_unhandled() {
    let (mut gui, _theme) = two_button_gui();
    let click = Event::MouseDown(MouseButton::Left, Vec2 { x: 5, y: 500 });
    let mut res = gui.handle_events(&[click], &[1, 2]);
    assert_eq!(res.unhandled_events().len(), 1);
}

/// A button reports a press for a primary click or Enter or space, and for
/// nothing else.
#[test]
fn button_press_detection() {
    let mut b = Box::new(Button::new(1, "ok"));
    let r: ButtonResult = webgl_gui::gui::Component::update(
        &mut *b,
        vec![key("a", false), key("Enter", false)],
    );
    assert!(r.pressed());
    let r2: ButtonResult = webgl_gui::gui::Component::update(&mut *b, vec![key("a", false)]);
    assert!(!r2.pressed());
    let r3: ButtonResult = webgl_gui::gui::Component::update(
        &mut *b,
        vec![Event::MouseDown(MouseButton::Left, Vec2 { x: 0, y: 0 })],
    );
    assert!(r3.pressed());
    let r4: ButtonResult = webgl_gui::gui::Component::update(
        &mut *b,
        vec![Event::MouseDown(MouseButton::Right, Vec2 { x: 0, y: 0 })],
    );
    assert!(!r4.pressed());
}

/// The draw pass reports the root's rendered size and emits label text.
#[test]
fn draw_reports_rendered_size_and_commands() {
    let theme = test_theme();
    let mut gui = Gui::new();
    let r = gui.draw(&theme, Vec2 { x: 80, y: 40 }, None, Widget::label(1, "hello"));
    // A label records the full allocated rectangle.
    assert_eq!(r.rendered_size(), Vec2 { x: 80, y: 40 });
    let cmds = r.commands();
    assert_eq!(cmds.len(), 1);
    match &cmds[0] {
        DrawCmd::Text { x, y, text, color } => {
            assert_eq!((*x, *y), (0, 0));
            assert_eq!(text, "hello");
            assert_eq!(*color, test_theme().label_color);
        },
        _ => panic!("expected a text command"),
    }
}

/// A hovered button is drawn with the selected fill color.
#[test]
fn hovered_button_uses_selected_fill() {
    let theme = test_theme();
    let mut gui = Gui::new();
    let r = gui.draw(
        &theme,
        Vec2 { x: 30, y: 10 },
        Some(Vec2 { x: 3, y: 3 }),
        Button::new(1, "ok").widget(),
    );
    match &r.commands()[0] {
        DrawCmd::FillRect { color, .. } => {
            assert_eq!(*color, test_theme().button_selected_fill_color);
        },
        _ => panic!("expected a fill command first"),
    }
}

/// Mouse button codes map in the host's reporting order.
#[test]
fn mouse_button_codes() {
    assert_eq!(MouseButton::from_code(0), Some(MouseButton::Left));
    assert_eq!(MouseButton::from_code(1), Some(MouseButton::Middle));
    assert_eq!(MouseButton::from_code(2), Some(MouseButton::Right));
    assert_eq!(MouseButton::from_code(3), Some(MouseButton::Back));
    assert_eq!(MouseButton::from_code(4), Some(MouseButton::Forward));
    assert_eq!(MouseButton::from_code(5), None);
}

/// Modifier keys are recognized by their logical value.
#[test]
fn modifier_keys() {
    let shift = Key {
        key: "Shift".to_string(),
        code: "ShiftLeft".to_string(),
        shift: true,
        ctrl: false,
        alt: false,
    };
    assert!(shift.is_modifier());
    let a = Key {
        key: "a".to_string(),
        code: "KeyA".to_string(),
        shift: false,
        ctrl: false,
        alt: false,
    };
    assert!(!a.is_modifier());
}

/// Scroll and window-resize events are broadcast-class: they go to the
/// first component in traversal order, like focus events.
#[test]
fn scroll_and_resize_go_to_first_component() {
    let (mut gui, _theme) = two_button_gui();
    let events = vec![
        Event::Scroll(1),
        Event::WindowResized(Vec2 { x: 640, y: 480 }),
    ];
    let mut res = gui.handle_events(&events, &[1, 2]);
    let mut first = Box::new(Probe { id: 1 });
    let mut second = Box::new(Probe { id: 2 });
    let got1 = res.update_component(&mut first);
    assert_eq!(got1.len(), 2);
    assert!(matches!(got1[0], Event::Scroll(1)));
    assert!(matches!(got1[1], Event::WindowResized(_)));
    assert_eq!(res.update_component(&mut second).len(), 0);
    assert_eq!(res.unhandled_events().len(), 0);
}

/// Key-up events follow the same active-component rule as key-down.
#[test]
fn key_up_goes_to_active_component() {
    let (mut gui, _theme) = two_button_gui();
    let up = Event::KeyUp(Key {
        key: "a".to_string(),
        code: "KeyA".to_string(),
        shift: false,
        ctrl: false,
        alt: false,
    });
    // Seeding makes component 1 active at the start of the call.
    let mut res = gui.handle_events(&[up], &[1, 2]);
    let mut first = Box::new(Probe { id: 1 });
    let got = res.update_component(&mut first);
    assert_eq!(got.len(), 1);
    assert!(matches!(got[0], Event::KeyUp(_)));
}

/// Mouse-up and mouse-move are hit-tested and translated like mouse-down,
/// but move no focus.
#[test]
fn mouse_up_and_move_are_hit_tested() {
    let (mut gui, _theme) = two_button_gui();
    let events = vec![
        Event::MouseUp(MouseButton::Left, Vec2 { x: 61, y: 1 }),
        Event::MouseMove { pos: Vec2 { x: 62, y: 2 }, movement: Vec2 { x: 1, y: 1 } },
    ];
    let mut res = gui.handle_events(&events, &[1, 2]);
    let mut second = Box::new(Probe { id: 2 });
    let got = res.update_component(&mut second);
    assert_eq!(got.len(), 2);
    match &got[0] {
        Event::MouseUp(MouseButton::Left, p) => assert_eq!(*p, Vec2 { x: 1, y: 1 }),
        _ => panic!("expected a translated mouse-up"),
    }
    match &got[1] {
        Event::MouseMove { pos, movement } => {
            assert_eq!(*pos, Vec2 { x: 2, y: 2 });
            assert_eq!(*movement, Vec2 { x: 1, y: 1 });
        },
        _ => panic!("expected a translated mouse-move"),
    }
    // No focus change: a key event still goes to the seeded component 1.
    let mut res2 = gui.handle_events(&[key("z", false)], &[1, 2]);
    let mut first = Box::new(Probe { id: 1 });
    assert_eq!(res2.update_component(&mut first).len(), 1);
}
