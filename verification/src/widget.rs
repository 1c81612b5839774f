//! The widget tree.
//!
//! A widget is one node of the UI for a frame: it has an identity, a
//! minimum size, an ordered list of children, and (for leaf widgets) its
//! own visuals. The widget vocabulary is small and fixed, so the tree is a
//! tagged enum rather than an open trait. `Button` is the only widget kind
//! that is a *component*: a focus- and event-receiving unit.
//!
//! Widget ids must be unique within one tree snapshot; the layout and
//! routing contracts are stated under that invariant. A component must not
//! contain another component in its subtree — the router's first-match rule
//! would always hand events to the outer one, so that configuration is
//! disallowed.

use vstd::prelude::*;
use crate::geom::Color;

verus! {

/// The identity of one tree node, unique within a tree snapshot. The
/// caller chooses ids; a widget reused across frames must keep its id so
/// that focus follows it.
pub type WidgetId = u64;

/// One node of the widget tree.
pub enum Widget {
    Label(Label),
    Button(Button),
    TextBox(TextBox),
    MessageBox(MessageBox),
    NoFill(NoFill),
    Col(Col),
    Row(Row),
    Overlap(Overlap),
    Empty(Empty),
    Padding(Padding),
    Inset(Inset),
}

/// A single line of text.
pub struct Label {
    pub id: WidgetId,
    pub text: String,
}

/// A clickable component with a text caption.
pub struct Button {
    pub id: WidgetId,
    pub text: String,
}

/// Multi-line text in a single color, split on newlines.
pub struct TextBox {
    pub id: WidgetId,
    pub text: String,
    pub lines: Vec<String>,
    pub text_color: Color,
}

/// A scrollback of individually colored lines, keeping at most
/// `max_lines` of them.
pub struct MessageBox {
    pub id: WidgetId,
    pub lines: Vec<(String, Color)>,
    pub max_lines: usize,
}

/// Makes its child its minimum possible size rather than filling the
/// available rectangle. Holds exactly one child.
pub struct NoFill {
    pub id: WidgetId,
    pub children: Vec<Widget>,
}

/// A vertical stack. `flexes[i]` is the flex weight of `children[i]`,
/// controlling how leftover vertical space is divided.
pub struct Col {
    pub id: WidgetId,
    pub children: Vec<Widget>,
    pub flexes: Vec<u32>,
}

/// A horizontal stack. `flexes[i]` is the flex weight of `children[i]`,
/// controlling how leftover horizontal space is divided.
pub struct Row {
    pub id: WidgetId,
    pub children: Vec<Widget>,
    pub flexes: Vec<u32>,
}

/// Stacks all children in the same rectangle, drawn in order.
pub struct Overlap {
    pub id: WidgetId,
    pub children: Vec<Widget>,
}

/// Takes no space and draws nothing.
pub struct Empty {
    pub id: WidgetId,
}

/// A square spacer of the theme's padding size.
pub struct Padding {
    pub id: WidgetId,
}

/// Surrounds its child with the theme's padding on all sides. Holds
/// exactly one child.
pub struct Inset {
    pub id: WidgetId,
    pub children: Vec<Widget>,
}

impl Widget {
    /// The node's identity.
    pub open spec fn wid(self) -> WidgetId {
        match self {
            Widget::Label(w) => w.id,
            Widget::Button(w) => w.id,
            Widget::TextBox(w) => w.id,
            Widget::MessageBox(w) => w.id,
            Widget::NoFill(w) => w.id,
            Widget::Col(w) => w.id,
            Widget::Row(w) => w.id,
            Widget::Overlap(w) => w.id,
            Widget::Empty(w) => w.id,
            Widget::Padding(w) => w.id,
            Widget::Inset(w) => w.id,
        }
    }

    /// True for the root widget of a component.
    pub open spec fn spec_is_component(self) -> bool {
        self is Button
    }

    /// The node's children, in traversal, draw and event order.
    pub open spec fn spec_children(self) -> Seq<Widget> {
        match self {
            Widget::NoFill(w) => w.children@,
            Widget::Inset(w) => w.children@,
            Widget::Col(w) => w.children@,
            Widget::Row(w) => w.children@,
            Widget::Overlap(w) => w.children@,
            _ => Seq::empty(),
        }
    }

    /// The flex weight of each child. Only stacks distribute space, so
    /// every other widget kind has no weights.
    pub open spec fn spec_flexes(self) -> Seq<u32> {
        match self {
            Widget::Col(w) => w.flexes@,
            Widget::Row(w) => w.flexes@,
            _ => Seq::empty(),
        }
    }

    /// Structural well-formedness: wrappers hold exactly one child, stacks
    /// hold one flex weight per child, recursively.
    pub open spec fn wf(self) -> bool
        decreases self, 0int,
    {
        match self {
            Widget::NoFill(w) => w.children@.len() == 1 && children_wf(
                w.children@,
                w.children@.len() as int,
            ),
            Widget::Inset(w) => w.children@.len() == 1 && children_wf(
                w.children@,
                w.children@.len() as int,
            ),
            Widget::Col(w) => w.flexes@.len() == w.children@.len() && children_wf(
                w.children@,
                w.children@.len() as int,
            ),
            Widget::Row(w) => w.flexes@.len() == w.children@.len() && children_wf(
                w.children@,
                w.children@.len() as int,
            ),
            Widget::Overlap(w) => children_wf(w.children@, w.children@.len() as int),
            _ => true,
        }
    }

    /// The set of ids of every node in the subtree.
    pub open spec fn widget_ids(self) -> Set<WidgetId>
        decreases self, 0int,
    {
        match self {
            Widget::NoFill(w) => children_ids(w.children@, w.children@.len() as int).insert(w.id),
            Widget::Inset(w) => children_ids(w.children@, w.children@.len() as int).insert(w.id),
            Widget::Col(w) => children_ids(w.children@, w.children@.len() as int).insert(w.id),
            Widget::Row(w) => children_ids(w.children@, w.children@.len() as int).insert(w.id),
            Widget::Overlap(w) => children_ids(w.children@, w.children@.len() as int).insert(w.id),
            _ => Set::empty().insert(self.wid()),
        }
    }

    /// Ids are unique within the subtree: no id occurs twice.
    pub open spec fn ids_unique(self) -> bool
        decreases self, 0int,
    {
        match self {
            Widget::NoFill(w) => !children_ids(w.children@, w.children@.len() as int).contains(
                w.id,
            ) && children_unique(w.children@, w.children@.len() as int),
            Widget::Inset(w) => !children_ids(w.children@, w.children@.len() as int).contains(
                w.id,
            ) && children_unique(w.children@, w.children@.len() as int),
            Widget::Col(w) => !children_ids(w.children@, w.children@.len() as int).contains(w.id)
                && children_unique(w.children@, w.children@.len() as int),
            Widget::Row(w) => !children_ids(w.children@, w.children@.len() as int).contains(w.id)
                && children_unique(w.children@, w.children@.len() as int),
            Widget::Overlap(w) => !children_ids(w.children@, w.children@.len() as int).contains(
                w.id,
            ) && children_unique(w.children@, w.children@.len() as int),
            _ => true,
        }
    }
}

impl Widget {
    /// The node's identity.
    pub fn id(&self) -> (r: WidgetId)
        ensures
            r == self.wid(),
    {
        match self {
            Widget::Label(w) => w.id,
            Widget::Button(w) => w.id,
            Widget::TextBox(w) => w.id,
            Widget::MessageBox(w) => w.id,
            Widget::NoFill(w) => w.id,
            Widget::Col(w) => w.id,
            Widget::Row(w) => w.id,
            Widget::Overlap(w) => w.id,
            Widget::Empty(w) => w.id,
            Widget::Padding(w) => w.id,
            Widget::Inset(w) => w.id,
        }
    }

    /// True for the root widget of a component.
    pub fn is_component(&self) -> (r: bool)
        ensures
            r == self.spec_is_component(),
    {
        matches!(self, Widget::Button(_))
    }
}

/// `widget_ids`, `ids_unique` and `wf` recurse per widget kind; this
/// restates them uniformly over `spec_children`, which is how the layout
/// and routing proofs use them.
pub proof fn lemma_widget_structure(w: Widget)
    ensures
        w.widget_ids() == children_ids(w.spec_children(), w.spec_children().len() as int).insert(
            w.wid(),
        ),
        w.ids_unique() == (!children_ids(w.spec_children(), w.spec_children().len() as int).contains(
            w.wid(),
        ) && children_unique(w.spec_children(), w.spec_children().len() as int)),
        w.wf() ==> children_wf(w.spec_children(), w.spec_children().len() as int),
{
}

/// The first `n` widgets of `cs` are each well-formed.
pub open spec fn children_wf(cs: Seq<Widget>, n: int) -> bool
    decreases cs, n,
{
    if n <= 0 || n > cs.len() {
        true
    } else {
        children_wf(cs, n - 1) && cs[n - 1].wf()
    }
}

/// The ids occurring in the subtrees of the first `n` widgets of `cs`.
pub open spec fn children_ids(cs: Seq<Widget>, n: int) -> Set<WidgetId>
    decreases cs, n,
{
    if n <= 0 || n > cs.len() {
        Set::empty()
    } else {
        children_ids(cs, n - 1).union(cs[n - 1].widget_ids())
    }
}

/// Each of the first `n` widgets of `cs` has unique ids in its own
/// subtree, and no id occurs in two of those subtrees.
pub open spec fn children_unique(cs: Seq<Widget>, n: int) -> bool
    decreases cs, n,
{
    if n <= 0 || n > cs.len() {
        true
    } else {
        &&& children_unique(cs, n - 1)
        &&& cs[n - 1].ids_unique()
        &&& children_ids(cs, n - 1).disjoint(cs[n - 1].widget_ids())
    }
}

} // verus!
