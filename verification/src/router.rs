//! The event router: recursive hit-test and dispatch over a widget tree,
//! against the rectangles of a previously laid-out frame.
//!
//! For one event, the tree is walked pre-order (parent before children, in
//! child order). The first component that accepts the event consumes it:
//! key events are accepted only by the active component, mouse events by a
//! component whose rectangle contains the position (delivered translated
//! into the component's local frame), and focus, resize and scroll events
//! by the first component reached. Mouse enter/leave and pointer-lock
//! events are never delivered to components.

use vstd::prelude::*;
use std::collections::HashMap;
use crate::event::Event;
use crate::geom::{Recti, Vec2};
use crate::rects::{rect_size_ok, rects_ready};
use crate::widget::{children_ids, Widget, WidgetId};

verus! {

/// Whether a component whose stored rectangle is `rect` accepts the event,
/// given the currently active component.
pub open spec fn s_accepts(id: WidgetId, e: Event, rect: Recti, active: Option<WidgetId>) -> bool {
    match e {
        Event::KeyDown(_) => active == Some(id),
        Event::KeyUp(_) => active == Some(id),
        Event::MouseDown(_, p) => rect.spec_contains_point(p),
        Event::MouseUp(_, p) => rect.spec_contains_point(p),
        Event::MouseMove { pos, movement } => rect.spec_contains_point(pos),
        Event::MouseEnter => false,
        Event::MouseLeave => false,
        Event::FocusGained => true,
        Event::FocusLost => true,
        Event::WindowResized(_) => true,
        Event::PointerLocked => false,
        Event::PointerUnlocked => false,
        Event::Scroll(_) => true,
    }
}

/// The event as the component receives it: mouse positions are translated
/// into the component's local frame by subtracting its rectangle's origin.
pub open spec fn s_delivered(e: Event, rect: Recti) -> Event {
    match e {
        Event::MouseDown(b, p) => Event::MouseDown(
            b,
            (Vec2 { x: (p.x - rect.start.x) as i32, y: (p.y - rect.start.y) as i32 }),
        ),
        Event::MouseUp(b, p) => Event::MouseUp(
            b,
            (Vec2 { x: (p.x - rect.start.x) as i32, y: (p.y - rect.start.y) as i32 }),
        ),
        Event::MouseMove { pos, movement } => Event::MouseMove {
            pos: (Vec2 { x: (pos.x - rect.start.x) as i32, y: (pos.y - rect.start.y) as i32 }),
            movement,
        },
        _ => e,
    }
}

/// The component that consumes the event: the first one in pre-order
/// traversal that accepts it, if any.
pub open spec fn s_route(
    w: Widget,
    e: Event,
    rm: Map<WidgetId, Recti>,
    active: Option<WidgetId>,
) -> Option<WidgetId>
    decreases w, 0int,
{
    match w {
        Widget::Button(b) => if s_accepts(b.id, e, rm[b.id], active) {
            Some(b.id)
        } else {
            None
        },
        Widget::NoFill(x) => s_route_children(x.children@, x.children@.len() as int, e, rm, active),
        Widget::Inset(x) => s_route_children(x.children@, x.children@.len() as int, e, rm, active),
        Widget::Col(c) => s_route_children(c.children@, c.children@.len() as int, e, rm, active),
        Widget::Row(r) => s_route_children(r.children@, r.children@.len() as int, e, rm, active),
        Widget::Overlap(o) => s_route_children(o.children@, o.children@.len() as int, e, rm, active),
        _ => None,
    }
}

/// The first of the first `n` children (in order) whose subtree consumes
/// the event.
pub open spec fn s_route_children(
    cs: Seq<Widget>,
    n: int,
    e: Event,
    rm: Map<WidgetId, Recti>,
    active: Option<WidgetId>,
) -> Option<WidgetId>
    decreases cs, n,
{
    if n <= 0 || n > cs.len() {
        None
    } else {
        match s_route_children(cs, n - 1, e, rm, active) {
            Some(c) => Some(c),
            None => s_route(cs[n - 1], e, rm, active),
        }
    }
}

/// Whoever consumes the event lies in the tree.
pub proof fn lemma_route_in_tree(
    w: Widget,
    e: Event,
    rm: Map<WidgetId, Recti>,
    active: Option<WidgetId>,
)
    ensures
        match s_route(w, e, rm, active) {
            Some(c) => w.widget_ids().contains(c),
            None => true,
        },
    decreases w, 1int,
{
    assert(w.widget_ids().contains(w.wid()));
    match w {
        Widget::NoFill(x) => {
            lemma_route_children_in_tree(x.children@, x.children@.len() as int, e, rm, active);
        },
        Widget::Inset(x) => {
            lemma_route_children_in_tree(x.children@, x.children@.len() as int, e, rm, active);
        },
        Widget::Col(c) => {
            lemma_route_children_in_tree(c.children@, c.children@.len() as int, e, rm, active);
        },
        Widget::Row(r) => {
            lemma_route_children_in_tree(r.children@, r.children@.len() as int, e, rm, active);
        },
        Widget::Overlap(o) => {
            lemma_route_children_in_tree(o.children@, o.children@.len() as int, e, rm, active);
        },
        _ => {},
    }
}

proof fn lemma_route_children_in_tree(
    cs: Seq<Widget>,
    n: int,
    e: Event,
    rm: Map<WidgetId, Recti>,
    active: Option<WidgetId>,
)
    ensures
        match s_route_children(cs, n, e, rm, active) {
            Some(c) => children_ids(cs, n).contains(c),
            None => true,
        },
    decreases cs, n,
{
    if 0 < n <= cs.len() {
        lemma_route_children_in_tree(cs, n - 1, e, rm, active);
        lemma_route_in_tree(cs[n - 1], e, rm, active);
        if s_route_children(cs, n - 1, e, rm, active) is Some {
            crate::layout::lemma_children_ids_subset(cs, n - 1, n);
        }
    }
}

/// Once some prefix of the children consumes an event, longer prefixes
/// agree on the consumer.
pub proof fn lemma_route_children_stable(
    cs: Seq<Widget>,
    i: int,
    n: int,
    e: Event,
    rm: Map<WidgetId, Recti>,
    active: Option<WidgetId>,
)
    requires
        0 <= i <= n <= cs.len(),
        s_route_children(cs, i, e, rm, active) is Some,
    ensures
        s_route_children(cs, n, e, rm, active) == s_route_children(cs, i, e, rm, active),
    decreases n,
{
    if i < n {
        lemma_route_children_stable(cs, i, n - 1, e, rm, active);
    }
}

/// The bucket of events recorded for a component so far.
pub open spec fn s_bucket(m: Map<WidgetId, Vec<Event>>, id: WidgetId) -> Seq<Event> {
    if m.contains_key(id) {
        m[id]@
    } else {
        Seq::empty()
    }
}

/// Routes one event through the widget tree against the stored rectangles.
/// If a component consumes it, the delivered form of the event is appended
/// to that component's bucket in `events_out` and the call returns the
/// component's id; otherwise nothing changes.
pub fn widget_handle_event(
    widget: &Widget,
    event: &Event,
    widget_rects: &HashMap<WidgetId, Recti>,
    events_out: &mut HashMap<WidgetId, Vec<Event>>,
    active_component_id: Option<WidgetId>,
) -> (r: Option<WidgetId>)
    requires
        rects_ready(*widget, widget_rects@),
    ensures
        r == s_route(*widget, *event, widget_rects@, active_component_id),
        match s_route(*widget, *event, widget_rects@, active_component_id) {
            Some(cid) => {
                &&& final(events_out)@.dom() =~= old(events_out)@.dom().insert(cid)
                &&& final(events_out)@[cid]@ == s_bucket(old(events_out)@, cid).push(
                    s_delivered(*event, widget_rects@[cid]),
                )
                &&& forall|k: WidgetId| #[trigger]
                    old(events_out)@.dom().contains(k) && k != cid
                        ==> final(events_out)@.contains_key(k) && final(events_out)@[k] == old(
                        events_out,
                    )@[k]
            },
            None => final(events_out)@ == old(events_out)@,
        },
    decreases *widget,
{
    let ghost w = *widget;
    let ghost rm = widget_rects@;
    proof {
        assert(w.widget_ids().contains(w.wid()));
    }
    match widget {
        Widget::Button(b) => {
            let rect: Recti = match widget_rects.get(&b.id) {
                Some(rc) => *rc,
                None => {
                    proof {
                        assert(false);
                    }
                    Recti { start: (Vec2 { x: 0, y: 0 }), end: (Vec2 { x: 0, y: 0 }) }
                },
            };
            proof {
                assert(rect == rm[b.id]);
                assert(rect_size_ok(rect));
            }
            let is_active = match active_component_id {
                Some(a) => a == b.id,
                None => false,
            };
            let delivered: Option<Event> = match event {
                Event::KeyDown(_) => if is_active {
                    Some(event.clone())
                } else {
                    None
                },
                Event::KeyUp(_) => if is_active {
                    Some(event.clone())
                } else {
                    None
                },
                Event::MouseDown(btn, p) => if rect.contains_point(*p) {
                    Some(
                        Event::MouseDown(
                            *btn,
                            Vec2 { x: p.x - rect.start.x, y: p.y - rect.start.y },
                        ),
                    )
                } else {
                    None
                },
                Event::MouseUp(btn, p) => if rect.contains_point(*p) {
                    Some(
                        Event::MouseUp(*btn, Vec2 { x: p.x - rect.start.x, y: p.y - rect.start.y }),
                    )
                } else {
                    None
                },
                Event::MouseMove { pos, movement } => if rect.contains_point(*pos) {
                    Some(
                        Event::MouseMove {
                            pos: Vec2 { x: pos.x - rect.start.x, y: pos.y - rect.start.y },
                            movement: *movement,
                        },
                    )
                } else {
                    None
                },
                Event::MouseEnter => None,
                Event::MouseLeave => None,
                Event::FocusGained => Some(event.clone()),
                Event::FocusLost => Some(event.clone()),
                Event::WindowResized(_) => Some(event.clone()),
                Event::PointerLocked => None,
                Event::PointerUnlocked => None,
                Event::Scroll(_) => Some(event.clone()),
            };
            match delivered {
                Some(ev) => {
                    proof {
                        assert(ev == s_delivered(*event, rm[b.id]));
                        assert(s_route(w, *event, rm, active_component_id) == Some(b.id));
                    }
                    let mut bucket: Vec<Event> = match events_out.remove(&b.id) {
                        Some(v) => v,
                        None => Vec::new(),
                    };
                    bucket.push(ev);
                    events_out.insert(b.id, bucket);
                    proof {
                        assert(events_out@.dom() =~= old(events_out)@.dom().insert(b.id));
                    }
                    Some(b.id)
                },
                None => {
                    proof {
                        assert(s_route(w, *event, rm, active_component_id) is None);
                    }
                    None
                },
            }
        },
        Widget::NoFill(x) => route_children(
            &x.children,
            event,
            widget_rects,
            events_out,
            active_component_id,
            Ghost(w),
        ),
        Widget::Inset(x) => route_children(
            &x.children,
            event,
            widget_rects,
            events_out,
            active_component_id,
            Ghost(w),
        ),
        Widget::Col(c) => route_children(
            &c.children,
            event,
            widget_rects,
            events_out,
            active_component_id,
            Ghost(w),
        ),
        Widget::Row(rw) => route_children(
            &rw.children,
            event,
            widget_rects,
            events_out,
            active_component_id,
            Ghost(w),
        ),
        Widget::Overlap(o) => route_children(
            &o.children,
            event,
            widget_rects,
            events_out,
            active_component_id,
            Ghost(w),
        ),
        _ => None,
    }
}

/// Routes one event through a list of children, stopping at the first
/// subtree that consumes it.
#[verifier::loop_isolation(false)]
fn route_children(
    children: &Vec<Widget>,
    event: &Event,
    widget_rects: &HashMap<WidgetId, Recti>,
    events_out: &mut HashMap<WidgetId, Vec<Event>>,
    active_component_id: Option<WidgetId>,
    parent: Ghost<Widget>,
) -> (r: Option<WidgetId>)
    requires
        parent@.spec_children() == children@,
        rects_ready(parent@, widget_rects@),
    ensures
        r == s_route_children(
            children@,
            children@.len() as int,
            *event,
            widget_rects@,
            active_component_id,
        ),
        match s_route_children(
            children@,
            children@.len() as int,
            *event,
            widget_rects@,
            active_component_id,
        ) {
            Some(cid) => {
                &&& final(events_out)@.dom() =~= old(events_out)@.dom().insert(cid)
                &&& final(events_out)@[cid]@ == s_bucket(old(events_out)@, cid).push(
                    s_delivered(*event, widget_rects@[cid]),
                )
                &&& forall|k: WidgetId| #[trigger]
                    old(events_out)@.dom().contains(k) && k != cid
                        ==> final(events_out)@.contains_key(k) && final(events_out)@[k] == old(
                        events_out,
                    )@[k]
            },
            None => final(events_out)@ == old(events_out)@,
        },
    decreases children@,
{
    let ghost cs = children@;
    let ghost n = children@.len() as int;
    let ghost rm = widget_rects@;
    let mut i: usize = 0;
    while i < children.len()
        invariant
            i <= children.len(),
            s_route_children(cs, i as int, *event, rm, active_component_id) is None,
            events_out@ == old(events_out)@,
        decreases children.len() - i,
    {
        let ghost ii = i as int;
        proof {
            crate::widget::lemma_widget_structure(parent@);
            assert forall|k: WidgetId| #[trigger] cs[ii].widget_ids().contains(
                k,
            ) implies widget_rects@.contains_key(k) && rect_size_ok(widget_rects@[k]) by {
                assert(children_ids(cs, ii + 1).contains(k));
                crate::layout::lemma_children_ids_subset(cs, ii + 1, n);
                assert(children_ids(cs, n).contains(k));
                assert(parent@.widget_ids().contains(k));
            }
        }
        let consumed = widget_handle_event(
            &children[i],
            event,
            widget_rects,
            events_out,
            active_component_id,
        );
        match consumed {
            Some(cid) => {
                proof {
                    lemma_route_children_stable(cs, ii + 1, n, *event, rm, active_component_id);
                }
                return Some(cid);
            },
            None => {},
        }
        i = i + 1;
    }
    None
}

} // verus!
