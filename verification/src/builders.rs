//! Construction of widgets and the behavior of the built-in component.
//!
//! Containers are built in the builder style: a stack accepts children one
//! at a time with a flex weight, the other containers take their children
//! directly. The caller supplies each widget's id; ids must be unique
//! within the tree handed to a draw call, and a widget reused across
//! frames keeps its id so focus follows it.

use vstd::prelude::*;
use crate::event::{Event, MouseButton};
use crate::geom::Color;
use crate::gui::Component;
use crate::widget::{
    Button, Col, Empty, Inset, Label, MessageBox, NoFill, Overlap, Padding, Row, TextBox, Widget,
    WidgetId,
};

verus! {

/// The lines of a text, split on newline characters: always at least one
/// line, with a trailing newline producing a trailing empty line.
pub open spec fn s_split_lines(s: Seq<char>) -> Seq<Seq<char>>
    decreases s.len(),
{
    if s.len() == 0 {
        seq![Seq::empty()]
    } else {
        let rest = s_split_lines(s.drop_last());
        if s.last() == '\n' {
            rest.push(Seq::empty())
        } else {
            rest.update(rest.len() - 1, rest.last().push(s.last()))
        }
    }
}

/// Splitting yields at least one line.
pub proof fn lemma_split_lines_len(s: Seq<char>)
    ensures
        s_split_lines(s).len() >= 1,
    decreases s.len(),
{
    if s.len() > 0 {
        lemma_split_lines_len(s.drop_last());
    }
}

/// Splits a text into its lines, on newline characters.
#[verifier::loop_isolation(false)]
fn split_lines(text: &str) -> (lines: Vec<String>)
    ensures
        lines@.map_values(|l: String| l@) == s_split_lines(text@),
{
    let n = text.unicode_len();
    let mut lines: Vec<String> = Vec::new();
    let mut start: usize = 0;
    let mut i: usize = 0;
    proof {
        assert(text@.subrange(0, 0) =~= Seq::<char>::empty());
        assert(lines@.map_values(|l: String| l@).push(text@.subrange(0, 0)) =~= s_split_lines(
            text@.subrange(0, 0),
        ));
    }
    while i < n
        invariant
            start <= i <= n,
            n == text@.len(),
            lines@.map_values(|l: String| l@).push(text@.subrange(start as int, i as int))
                =~= s_split_lines(text@.subrange(0, i as int)),
        decreases n - i,
    {
        let c = text.get_char(i);
        proof {
            assert(text@.subrange(0, i as int + 1).drop_last() =~= text@.subrange(0, i as int));
            assert(text@.subrange(0, i as int + 1).last() == text@[i as int]);
        }
        if c == '\n' {
            let piece = text.substring_char(start, i).to_owned();
            lines.push(piece);
            start = i + 1;
            proof {
                assert(text@.subrange(start as int, i as int + 1) =~= Seq::<char>::empty());
                assert(lines@.map_values(|l: String| l@).push(
                    text@.subrange(start as int, i as int + 1),
                ) =~= s_split_lines(text@.subrange(0, i as int + 1)));
            }
        } else {
            proof {
                let prev = s_split_lines(text@.subrange(0, i as int));
                let lines0 = lines@.map_values(|l: String| l@);
                assert(prev =~= lines0.push(text@.subrange(start as int, i as int)));
                assert(prev.last() == text@.subrange(start as int, i as int));
                assert(text@.subrange(start as int, i as int).push(text@[i as int])
                    =~= text@.subrange(start as int, i as int + 1));
                assert(prev.update(
                    prev.len() - 1,
                    text@.subrange(start as int, i as int + 1),
                ) =~= lines0.push(text@.subrange(start as int, i as int + 1)));
                assert(lines@.map_values(|l: String| l@).push(
                    text@.subrange(start as int, i as int + 1),
                ) =~= s_split_lines(text@.subrange(0, i as int + 1)));
            }
        }
        i = i + 1;
    }
    proof {
        assert(text@.subrange(0, n as int) =~= text@);
    }
    let last = text.substring_char(start, n).to_owned();
    lines.push(last);
    proof {
        assert(lines@.map_values(|l: String| l@) =~= s_split_lines(text@));
    }
    lines
}

impl Label {
    /// A single line of text.
    pub fn new(id: WidgetId, text: &str) -> (r: Label)
        ensures
            r.id == id,
            r.text@ == text@,
    {
        Label { id, text: text.to_owned() }
    }
}

/// The outcome of updating a `Button` with a batch of events.
pub struct ButtonResult {
    pressed: bool,
}

impl ButtonResult {
    /// Whether the button was pressed.
    pub closed spec fn spec_pressed(self) -> bool {
        self.pressed
    }

    /// Whether the button was pressed.
    pub fn pressed(&self) -> (r: bool)
        ensures
            r == self.spec_pressed(),
    {
        self.pressed
    }
}

/// An event that presses a button: a primary-button click, or Enter or the
/// space bar on the keyboard (a key event only reaches the button while it
/// is the active component).
pub open spec fn s_presses(e: Event) -> bool {
    match e {
        Event::MouseDown(b, _) => b == MouseButton::Left,
        Event::KeyDown(k) => k.key@ == "Enter"@ || k.key@ == " "@,
        _ => false,
    }
}

impl Button {
    /// A clickable component with a text caption.
    pub fn new(id: WidgetId, text: &str) -> (r: Button)
        ensures
            r.id == id,
            r.text@ == text@,
    {
        Button { id, text: text.to_owned() }
    }

    /// Whether any of the events presses the button.
    #[verifier::loop_isolation(false)]
    pub fn pressed_by(&self, events: &Vec<Event>) -> (r: bool)
        ensures
            r == exists|i: int| 0 <= i < events@.len() && s_presses(events@[i]),
    {
        let mut i: usize = 0;
        while i < events.len()
            invariant
                i <= events.len(),
                forall|j: int| 0 <= j < i as int ==> !s_presses(events@[j]),
            decreases events.len() - i,
        {
            let hit = match &events[i] {
                Event::MouseDown(MouseButton::Left, _) => true,
                Event::KeyDown(k) => k.key == "Enter".to_owned() || k.key == " ".to_owned(),
                _ => false,
            };
            if hit {
                proof {
                    assert(s_presses(events@[i as int]));
                }
                return true;
            }
            i = i + 1;
        }
        false
    }

    /// The widget-tree node for this button.
    pub fn widget(self) -> (w: Widget)
        ensures
            w == Widget::Button(self),
    {
        Widget::Button(self)
    }
}

impl Clone for Button {
    fn clone(&self) -> (r: Self)
        ensures
            r == *self,
    {
        Button { id: self.id, text: self.text.clone() }
    }
}

impl Component for Button {
    type Res = ButtonResult;

    closed spec fn spec_id(&self) -> WidgetId {
        self.id
    }

    fn id(&self) -> WidgetId {
        self.id
    }

    fn update(&mut self, events: Vec<Event>) -> ButtonResult {
        let pressed = self.pressed_by(&events);
        ButtonResult { pressed }
    }
}

impl Widget {
    /// The widget-tree node for a label.
    pub fn label(id: WidgetId, text: &str) -> (w: Widget)
        ensures
            w matches Widget::Label(l) && l.id == id && l.text@ == text@,
    {
        Widget::Label(Label::new(id, text))
    }
}

impl TextBox {
    /// Multi-line text in a single color (initially black), split on
    /// newlines.
    pub fn new(id: WidgetId, text: &str) -> (r: TextBox)
        ensures
            r.id == id,
            r.text@ == text@,
            r.lines@.map_values(|l: String| l@) == s_split_lines(text@),
            r.text_color == (Color { r: 0, g: 0, b: 0, a: 255 }),
    {
        let lines = split_lines(text);
        TextBox { id, text: text.to_owned(), lines, text_color: Color::black() }
    }

    /// The same text box with another text color.
    pub fn text_color(self, color: Color) -> (r: TextBox)
        ensures
            r == (TextBox { text_color: color, ..self }),
    {
        TextBox { text_color: color, ..self }
    }

    /// The widget-tree node for this text box.
    pub fn widget(self) -> (w: Widget)
        ensures
            w == Widget::TextBox(self),
    {
        Widget::TextBox(self)
    }
}

impl MessageBox {
    /// An empty scrollback keeping at most `max_lines` lines.
    pub fn new(id: WidgetId, max_lines: usize) -> (r: MessageBox)
        ensures
            r.id == id,
            r.lines@ == Seq::<(String, Color)>::empty(),
            r.max_lines == max_lines,
    {
        MessageBox { id, lines: Vec::new(), max_lines }
    }

    /// Appends a line, dropping the oldest line when over the limit.
    pub fn add_line(&mut self, color: Color, line: String)
        ensures
            final(self).id == old(self).id,
            final(self).max_lines == old(self).max_lines,
            ({
                let grown = old(self).lines@.push((line, color));
                final(self).lines@ == if grown.len() > old(self).max_lines {
                    grown.drop_first()
                } else {
                    grown
                }
            }),
    {
        self.lines.push((line, color));
        if self.lines.len() > self.max_lines {
            self.lines.remove(0);
            proof {
                assert(self.lines@ =~= old(self).lines@.push((line, color)).drop_first());
            }
        }
    }

    /// The widget-tree node for this message box.
    pub fn widget(self) -> (w: Widget)
        ensures
            w == Widget::MessageBox(self),
    {
        Widget::MessageBox(self)
    }
}

impl NoFill {
    /// Wraps a child so it is laid out at its minimum size rather than
    /// filling the available rectangle.
    pub fn new(id: WidgetId, child: Widget) -> (r: Widget)
        ensures
            r matches Widget::NoFill(x) && x.id == id && x.children@ == seq![child],
    {
        let mut children: Vec<Widget> = Vec::new();
        children.push(child);
        proof {
            assert(children@ =~= seq![child]);
        }
        Widget::NoFill(NoFill { id, children })
    }
}

impl Inset {
    /// Surrounds a child with the theme's padding on all sides.
    pub fn new(id: WidgetId, child: Widget) -> (r: Widget)
        ensures
            r matches Widget::Inset(x) && x.id == id && x.children@ == seq![child],
    {
        let mut children: Vec<Widget> = Vec::new();
        children.push(child);
        proof {
            assert(children@ =~= seq![child]);
        }
        Widget::Inset(Inset { id, children })
    }
}

impl Col {
    /// An empty vertical stack.
    pub fn new(id: WidgetId) -> (r: Col)
        ensures
            r.id == id,
            r.children@ == Seq::<Widget>::empty(),
            r.flexes@ == Seq::<u32>::empty(),
    {
        Col { id, children: Vec::new(), flexes: Vec::new() }
    }

    /// Appends a child. The flex weight controls how leftover vertical
    /// space is distributed.
    pub fn child(self, flex: u32, child: Widget) -> (r: Col)
        ensures
            r.id == self.id,
            r.children@ == self.children@.push(child),
            r.flexes@ == self.flexes@.push(flex),
    {
        let mut c = self;
        c.children.push(child);
        c.flexes.push(flex);
        c
    }

    /// Appends several children at once, each with its flex weight.
    #[verifier::loop_isolation(false)]
    pub fn children(self, children: Vec<(u32, Widget)>) -> (r: Col)
        ensures
            r.id == self.id,
            r.children@ == self.children@ + children@.map_values(|p: (u32, Widget)| p.1),
            r.flexes@ == self.flexes@ + children@.map_values(|p: (u32, Widget)| p.0),
    {
        let mut c = self;
        let ghost added = children@;
        let mut i: usize = 0;
        for pair in it: children
            invariant
                c.id == self.id,
                c.children@ == self.children@ + it.seq().take(it.index()).map_values(
                    |p: (u32, Widget)| p.1,
                ),
                c.flexes@ == self.flexes@ + it.seq().take(it.index()).map_values(
                    |p: (u32, Widget)| p.0,
                ),
        {
            let (flex, w) = pair;
            c.children.push(w);
            c.flexes.push(flex);
            proof {
                assert(c.children@ =~= self.children@ + it.seq().take(it.index() + 1).map_values(
                    |p: (u32, Widget)| p.1,
                ));
                assert(c.flexes@ =~= self.flexes@ + it.seq().take(it.index() + 1).map_values(
                    |p: (u32, Widget)| p.0,
                ));
            }
        }
        proof {
            assert(c.children@ =~= self.children@ + children@.map_values(
                |p: (u32, Widget)| p.1,
            ));
            assert(c.flexes@ =~= self.flexes@ + children@.map_values(|p: (u32, Widget)| p.0));
        }
        c
    }

    /// The widget-tree node for this stack.
    pub fn widget(self) -> (w: Widget)
        ensures
            w == Widget::Col(self),
    {
        Widget::Col(self)
    }
}

impl Row {
    /// An empty horizontal stack.
    pub fn new(id: WidgetId) -> (r: Row)
        ensures
            r.id == id,
            r.children@ == Seq::<Widget>::empty(),
            r.flexes@ == Seq::<u32>::empty(),
    {
        Row { id, children: Vec::new(), flexes: Vec::new() }
    }

    /// Appends a child. The flex weight controls how leftover horizontal
    /// space is distributed.
    pub fn child(self, flex: u32, child: Widget) -> (r: Row)
        ensures
            r.id == self.id,
            r.children@ == self.children@.push(child),
            r.flexes@ == self.flexes@.push(flex),
    {
        let mut c = self;
        c.children.push(child);
        c.flexes.push(flex);
        c
    }

    /// Appends several children at once, each with its flex weight.
    #[verifier::loop_isolation(false)]
    pub fn children(self, children: Vec<(u32, Widget)>) -> (r: Row)
        ensures
            r.id == self.id,
            r.children@ == self.children@ + children@.map_values(|p: (u32, Widget)| p.1),
            r.flexes@ == self.flexes@ + children@.map_values(|p: (u32, Widget)| p.0),
    {
        let mut c = self;
        for pair in it: children
            invariant
                c.id == self.id,
                c.children@ == self.children@ + it.seq().take(it.index()).map_values(
                    |p: (u32, Widget)| p.1,
                ),
                c.flexes@ == self.flexes@ + it.seq().take(it.index()).map_values(
                    |p: (u32, Widget)| p.0,
                ),
        {
            let (flex, w) = pair;
            c.children.push(w);
            c.flexes.push(flex);
            proof {
                assert(c.children@ =~= self.children@ + it.seq().take(it.index() + 1).map_values(
                    |p: (u32, Widget)| p.1,
                ));
                assert(c.flexes@ =~= self.flexes@ + it.seq().take(it.index() + 1).map_values(
                    |p: (u32, Widget)| p.0,
                ));
            }
        }
        proof {
            assert(c.children@ =~= self.children@ + children@.map_values(
                |p: (u32, Widget)| p.1,
            ));
            assert(c.flexes@ =~= self.flexes@ + children@.map_values(|p: (u32, Widget)| p.0));
        }
        c
    }

    /// The widget-tree node for this stack.
    pub fn widget(self) -> (w: Widget)
        ensures
            w == Widget::Row(self),
    {
        Widget::Row(self)
    }
}

impl Overlap {
    /// An empty overlap: children share the parent's rectangle, drawn in
    /// order.
    pub fn new(id: WidgetId) -> (r: Overlap)
        ensures
            r.id == id,
            r.children@ == Seq::<Widget>::empty(),
    {
        Overlap { id, children: Vec::new() }
    }

    /// Appends a child.
    pub fn child(self, child: Widget) -> (r: Overlap)
        ensures
            r.id == self.id,
            r.children@ == self.children@.push(child),
    {
        let mut c = self;
        c.children.push(child);
        c
    }

    /// Appends several children at once.
    #[verifier::loop_isolation(false)]
    pub fn children(self, children: Vec<Widget>) -> (r: Overlap)
        ensures
            r.id == self.id,
            r.children@ == self.children@ + children@,
    {
        let mut c = self;
        for w in it: children
            invariant
                c.id == self.id,
                c.children@ == self.children@ + it.seq().take(it.index()),
        {
            c.children.push(w);
            proof {
                assert(c.children@ =~= self.children@ + it.seq().take(it.index() + 1));
            }
        }
        proof {
            assert(c.children@ =~= self.children@ + children@);
        }
        c
    }

    /// The widget-tree node for this overlap.
    pub fn widget(self) -> (w: Widget)
        ensures
            w == Widget::Overlap(self),
    {
        Widget::Overlap(self)
    }
}

impl Empty {
    /// A widget that takes no space and draws nothing.
    pub fn new(id: WidgetId) -> (w: Widget)
        ensures
            w == Widget::Empty((Empty { id })),
    {
        Widget::Empty(Empty { id })
    }
}

impl Padding {
    /// A square spacer of the theme's padding size.
    pub fn new(id: WidgetId) -> (w: Widget)
        ensures
            w == Widget::Padding((Padding { id })),
    {
        Widget::Padding(Padding { id })
    }
}

} // verus!
