//! A retained-mode widget layout and event-routing engine.
//!
//! The library keeps a tree of widgets, computes a minimum size for every
//! node (bottom up) and a screen rectangle for every node (top down, with
//! flex-weighted distribution of leftover space), renders each widget as a
//! list of drawing commands for an external surface, and routes input
//! events through the tree to stateful components while managing keyboard
//! focus.

pub mod builders;
pub mod draw;
pub mod event;
pub mod geom;
pub mod gui;
pub mod laws;
pub mod layout;
pub mod rects;
pub mod router;
pub mod text;
pub mod theme;
pub mod widget;

pub use builders::ButtonResult;
pub use draw::DrawCmd;
pub use event::{Event, Key, Keycode, MouseButton};
pub use geom::{Color, Recti, Vec2};
pub use gui::{Component, Gui, GuiEventResult, GuiResult};
pub use text::{FixedWidthFont, TextMeasure};
pub use theme::Theme;
pub use widget::{Widget, WidgetId};
