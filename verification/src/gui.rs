//! The session object: holds the keyboard-focus state and the last
//! rendered frame (tree plus rect map), draws a freshly built tree, and
//! routes batches of input events against the *previous* frame's
//! rectangles.
//!
//! The active-component state machine: a click that a component consumes
//! with the primary button makes that component active; an unconsumed Tab
//! key-down moves the active index forward, Shift+Tab backward, modulo the
//! length of the caller-supplied ordered-component list. At the start of a
//! routing call with a nonempty list and no active component, the first
//! listed component becomes active. Nothing else changes the state, and it
//! persists across frames.

use vstd::prelude::*;
use std::collections::HashMap;
use crate::draw::{draw_widget, s_draw_cmds, DrawCmd};
use crate::event::{Event, MouseButton};
use crate::geom::{Recti, Vec2};
use crate::layout::{compute_widget_min_size, min_fits};
use crate::rects::{
    compute_rects, lemma_rects_ready, rect_fits, rect_map_ok, rect_view, rects_ready, s_own_rect,
    RectS,
};
use crate::router::{s_delivered, s_route, widget_handle_event};
use crate::theme::Theme;
use crate::text::TextMeasure;
use crate::widget::{Widget, WidgetId};

verus! {

/// A stateful unit that receives routed input events: the application-side
/// face of a component widget.
pub trait Component {
    /// The result of updating the component with a batch of events; for a
    /// button, for instance, whether it was pressed.
    type Res;

    /// The component's identity: must equal the id of its widget in the
    /// drawn tree.
    spec fn spec_id(&self) -> WidgetId;

    /// The component's identity.
    fn id(&self) -> (r: WidgetId)
        ensures
            r == self.spec_id(),
    ;

    /// Consumes the events routed to this component and updates its state.
    fn update(&mut self, events: Vec<Event>) -> Self::Res;
}

/// What `Gui::draw` produced: the size actually used and the drawing
/// commands for the external renderer.
pub struct GuiResult {
    rendered_size: Vec2,
    commands: Vec<DrawCmd>,
}

impl GuiResult {
    /// The rendered size, as a mathematical value.
    pub closed spec fn spec_rendered_size(self) -> Vec2 {
        self.rendered_size
    }

    /// The emitted drawing commands, as a mathematical value.
    pub closed spec fn spec_commands(self) -> Seq<DrawCmd> {
        self.commands@
    }

    /// The actual rendered size of the GUI.
    pub fn rendered_size(&self) -> (r: Vec2)
        ensures
            r == self.spec_rendered_size(),
    {
        self.rendered_size
    }

    /// The drawing commands for the external renderer, in order.
    pub fn commands(&self) -> (r: &Vec<DrawCmd>)
        ensures
            r@ == self.spec_commands(),
    {
        &self.commands
    }
}

/// The routing outcome of one batch of events: the events each component
/// consumed, in arrival order, and the events no component consumed.
pub struct GuiEventResult {
    component_events: HashMap<WidgetId, Vec<Event>>,
    unhandled_events: Vec<Event>,
}

impl GuiEventResult {
    /// The per-component buckets, as a map to event sequences.
    pub closed spec fn buckets(self) -> Map<WidgetId, Seq<Event>> {
        deep_buckets(self.component_events@)
    }

    /// The events no component consumed, in arrival order.
    pub closed spec fn spec_unhandled(self) -> Seq<Event> {
        self.unhandled_events@
    }

    /// Updates the given component with the events routed to it (none, if
    /// its bucket is empty), removing its bucket. The result is whatever
    /// the component's own `update` returns.
    pub fn update_component<C: Component>(&mut self, component: &mut Box<C>) -> (res: C::Res)
        ensures
            final(self).buckets() == old(self).buckets().remove(old(component).spec_id()),
            final(self).spec_unhandled() == old(self).spec_unhandled(),
    {
        let cid = component.id();
        let events: Vec<Event> = match self.component_events.remove(&cid) {
            Some(v) => v,
            None => Vec::new(),
        };
        proof {
            assert(self.buckets() =~= old(self).buckets().remove(old(component).spec_id()));
        }
        component.update(events)
    }

    /// Takes all events that no component consumed, leaving none behind.
    pub fn unhandled_events(&mut self) -> (r: Vec<Event>)
        ensures
            r@ == old(self).spec_unhandled(),
            final(self).spec_unhandled() == Seq::<Event>::empty(),
            final(self).buckets() == old(self).buckets(),
    {
        let mut taken: Vec<Event> = Vec::new();
        std::mem::swap(&mut self.unhandled_events, &mut taken);
        taken
    }
}

/// The per-component buckets of an executable map, as event sequences.
pub open spec fn deep_buckets(m: Map<WidgetId, Vec<Event>>) -> Map<WidgetId, Seq<Event>> {
    Map::new(|k: WidgetId| m.contains_key(k), |k: WidgetId| m[k]@)
}

/// The id of the active component, if any.
pub open spec fn s_active_id(a: Option<(usize, WidgetId)>) -> Option<WidgetId> {
    match a {
        Some((i, id)) => Some(id),
        None => None,
    }
}

/// The position of the first occurrence of `id` in `ordered`, searching
/// from `i`.
pub open spec fn s_first_index(ordered: Seq<WidgetId>, id: WidgetId, i: int) -> Option<int>
    decreases ordered.len() - i,
{
    if i < 0 || i >= ordered.len() {
        None
    } else if ordered[i] == id {
        Some(i)
    } else {
        s_first_index(ordered, id, i + 1)
    }
}

/// A Tab key-down without shift: cycle focus forward.
pub open spec fn s_is_tab(e: Event) -> bool {
    match e {
        Event::KeyDown(k) => k.key@ == "Tab"@ && !k.shift,
        _ => false,
    }
}

/// A Tab key-down with shift: cycle focus backward.
pub open spec fn s_is_shift_tab(e: Event) -> bool {
    match e {
        Event::KeyDown(k) => k.key@ == "Tab"@ && k.shift,
        _ => false,
    }
}

/// A primary-button mouse-down: the click that moves focus.
pub open spec fn s_is_primary_down(e: Event) -> bool {
    match e {
        Event::MouseDown(b, _) => b == MouseButton::Left,
        _ => false,
    }
}

/// One step of the session's event machine: route the event; a consuming
/// component gets the delivered event appended to its bucket, and a primary
/// click makes the consumer active (if it is in the ordered list). An
/// unconsumed Tab cycles the active index; anything else unconsumed is
/// unhandled. The result is (new active state, delivery, unhandled?).
pub open spec fn s_step(
    tree: Widget,
    rm: Map<WidgetId, Recti>,
    ordered: Seq<WidgetId>,
    active: Option<(usize, WidgetId)>,
    e: Event,
) -> (Option<(usize, WidgetId)>, Option<(WidgetId, Event)>, bool) {
    match s_route(tree, e, rm, s_active_id(active)) {
        Some(cid) => {
            let delivered = s_delivered(e, rm[cid]);
            let new_active = if s_is_primary_down(e) {
                match s_first_index(ordered, cid, 0) {
                    Some(i) => Some((i as usize, cid)),
                    None => active,
                }
            } else {
                active
            };
            (new_active, Some((cid, delivered)), false)
        },
        None => {
            match active {
                Some((ai, aid)) => {
                    let n = ordered.len() as int;
                    if n > 0 && s_is_tab(e) {
                        let ni = (ai as int % n + 1) % n;
                        (Some((ni as usize, ordered[ni])), None, false)
                    } else if n > 0 && s_is_shift_tab(e) {
                        let ni = (ai as int % n + n - 1) % n;
                        (Some((ni as usize, ordered[ni])), None, false)
                    } else {
                        (active, None, true)
                    }
                },
                None => (active, None, true),
            }
        },
    }
}

/// The machine folded over the first `n` events, from the given state:
/// the final active state, the per-component buckets, and the unhandled
/// events, both in arrival order.
pub open spec fn s_run(
    tree: Widget,
    rm: Map<WidgetId, Recti>,
    ordered: Seq<WidgetId>,
    active: Option<(usize, WidgetId)>,
    events: Seq<Event>,
    n: int,
) -> (Option<(usize, WidgetId)>, Map<WidgetId, Seq<Event>>, Seq<Event>)
    decreases n,
{
    if n <= 0 || n > events.len() {
        (active, Map::empty(), Seq::empty())
    } else {
        let prev = s_run(tree, rm, ordered, active, events, n - 1);
        let st = s_step(tree, rm, ordered, prev.0, events[n - 1]);
        (
            st.0,
            match st.1 {
                Some((cid, ev)) => prev.1.insert(
                    cid,
                    (if prev.1.contains_key(cid) {
                        prev.1[cid]
                    } else {
                        Seq::empty()
                    }).push(ev),
                ),
                None => prev.1,
            },
            if st.2 {
                prev.2.push(events[n - 1])
            } else {
                prev.2
            },
        )
    }
}

/// The active state a routing call starts from: with a nonempty component
/// list and no active component, the first listed component becomes
/// active.
pub open spec fn s_seeded(
    active: Option<(usize, WidgetId)>,
    ordered: Seq<WidgetId>,
) -> Option<(usize, WidgetId)> {
    if ordered.len() > 0 && active is None {
        Some((0usize, ordered[0]))
    } else {
        active
    }
}

/// The GUI session: owns the focus state and the last rendered frame.
pub struct Gui {
    active_component: Option<(usize, WidgetId)>,
    last_render: Option<(Widget, HashMap<WidgetId, Recti>)>,
}

impl Gui {
    /// The active component: its index into the ordered-component list of
    /// the most recent routing call, and its widget id.
    pub closed spec fn spec_active(self) -> Option<(usize, WidgetId)> {
        self.active_component
    }

    /// The stored frame: the last drawn tree and its rect map.
    pub closed spec fn spec_rendered(self) -> Option<(Widget, Map<WidgetId, Recti>)> {
        match self.last_render {
            Some((w, m)) => Some((w, m@)),
            None => None,
        }
    }

    /// The session invariant: any stored frame is a well-formed tree whose
    /// every node has a recorded rectangle of representable size.
    pub closed spec fn wf(self) -> bool {
        match self.last_render {
            Some((tree, rm)) => tree.wf() && rects_ready(tree, rm@),
            None => true,
        }
    }

    /// A fresh session: nothing rendered, no active component.
    pub fn new() -> (r: Gui)
        ensures
            r.wf(),
            r.spec_active() is None,
            r.spec_rendered() is None,
    {
        Gui { active_component: None, last_render: None }
    }

    /// Draws the GUI: computes every widget's minimum size (bottom up) and
    /// screen rectangle (top down from the surface rectangle at the
    /// origin), emits the drawing commands pre-order, and stores the tree
    /// and rect map for routing the next event batch.
    pub fn draw<F: TextMeasure>(
        &mut self,
        theme: &Theme<F>,
        surface_size: Vec2,
        cursor_pos: Option<Vec2>,
        widget: Widget,
    ) -> (res: GuiResult)
        requires
            old(self).wf(),
            widget.wf(),
            widget.ids_unique(),
            theme.spec_wf(),
            min_fits(widget, *theme),
            rect_fits(
                widget,
                (0int, 0int, surface_size.x as int, surface_size.y as int),
                *theme,
            ),
        ensures
            final(self).wf(),
            final(self).spec_active() == old(self).spec_active(),
            match final(self).spec_rendered() {
                Some((tree, rm)) => {
                    &&& tree == widget
                    &&& rm.dom() == widget.widget_ids()
                    &&& rect_map_ok(
                        widget,
                        (0int, 0int, surface_size.x as int, surface_size.y as int),
                        *theme,
                        rm,
                    )
                    &&& res.spec_commands() == s_draw_cmds(
                        widget,
                        rm,
                        *theme,
                        cursor_pos,
                        s_active_id(old(self).spec_active()),
                    )
                },
                None => false,
            },
            ({
                let own = s_own_rect(
                    widget,
                    (0int, 0int, surface_size.x as int, surface_size.y as int),
                    *theme,
                );
                res.spec_rendered_size().x as int == own.2 - own.0
                    && res.spec_rendered_size().y as int == own.3 - own.1
            }),
    {
        let ghost t = *theme;
        let ghost surf: RectS = (0int, 0int, surface_size.x as int, surface_size.y as int);
        let mut min_sizes: HashMap<WidgetId, Vec2> = HashMap::new();
        compute_widget_min_size(&widget, theme, &mut min_sizes, surface_size);
        let rect = Recti {
            start: (Vec2 { x: 0, y: 0 }),
            end: (Vec2 { x: surface_size.x, y: surface_size.y }),
        };
        let mut widget_rects: HashMap<WidgetId, Recti> = HashMap::new();
        proof {
            assert(rect_view(rect) == surf);
            assert(widget_rects@.dom().disjoint(widget.widget_ids()));
        }
        compute_rects(&widget, rect, theme, &min_sizes, &mut widget_rects);
        proof {
            assert(widget_rects@.dom() =~= widget.widget_ids());
        }
        let active_id: Option<WidgetId> = match self.active_component {
            Some((_, id)) => Some(id),
            None => None,
        };
        proof {
            lemma_rects_ready(widget, surf, t, widget_rects@);
        }
        let mut cmds: Vec<DrawCmd> = Vec::new();
        draw_widget(&widget, theme, &widget_rects, &mut cmds, cursor_pos, active_id);
        let root_id = widget.id();
        let own: Recti = match widget_rects.get(&root_id) {
            Some(rc) => *rc,
            None => {
                proof {
                    assert(widget.widget_ids().contains(widget.wid()));
                    assert(false);
                }
                rect
            },
        };
        proof {
            assert(rect_view(own) == s_own_rect(widget, surf, t));
        }
        let rendered_size = own.size();
        self.last_render = Some((widget, widget_rects));
        GuiResult { rendered_size, commands: cmds }
    }

    /// Routes a batch of events, in order, against the most recently drawn
    /// frame, updating the active-component state as described at the
    /// module level, and returns the partitioned result. With no frame
    /// drawn yet, every event is unhandled and nothing changes.
    ///
    /// `ordered_components` must list component ids of the last drawn
    /// tree, in the order Tab cycles through them.
    pub fn handle_events(&mut self, events: &[Event], ordered_components: &[WidgetId]) -> (res:
        GuiEventResult)
        requires
            old(self).wf(),
        ensures
            final(self).wf(),
            final(self).spec_rendered() == old(self).spec_rendered(),
            match old(self).spec_rendered() {
                None => {
                    &&& final(self).spec_active() == old(self).spec_active()
                    &&& res.buckets() =~= Map::<WidgetId, Seq<Event>>::empty()
                    &&& res.spec_unhandled() == events@
                },
                Some((tree, rm)) => {
                    let start = s_seeded(old(self).spec_active(), ordered_components@);
                    let run = s_run(tree, rm, ordered_components@, start, events@, events@.len() as int);
                    &&& final(self).spec_active() == run.0
                    &&& res.buckets() =~= run.1
                    &&& res.spec_unhandled() == run.2
                },
            },
    {
        let ghost pre_active = self.active_component;
        match &self.last_render {
            None => {
                let mut unhandled: Vec<Event> = Vec::new();
                let mut i: usize = 0;
                #[verifier::loop_isolation(false)]
                while i < events.len()
                    invariant
                        i <= events.len(),
                        unhandled@ == events@.take(i as int),
                    decreases events.len() - i,
                {
                    unhandled.push(events[i].clone());
                    proof {
                        assert(unhandled@ =~= events@.take(i as int + 1));
                    }
                    i = i + 1;
                }
                let ce: HashMap<WidgetId, Vec<Event>> = HashMap::new();
                proof {
                    assert(unhandled@ =~= events@);
                    assert(deep_buckets(ce@) =~= Map::<WidgetId, Seq<Event>>::empty());
                }
                GuiEventResult { component_events: ce, unhandled_events: unhandled }
            },
            Some(pair) => {
                let ghost tree_g = pair.0;
                let ghost rm_g = pair.1@;
                let mut active: Option<(usize, WidgetId)> = self.active_component;
                if ordered_components.len() > 0 && active.is_none() {
                    active = Some((0, ordered_components[0]));
                }
                let ghost start = active;
                proof {
                    assert(start == s_seeded(pre_active, ordered_components@));
                }
                let mut events_out: HashMap<WidgetId, Vec<Event>> = HashMap::new();
                let mut unhandled: Vec<Event> = Vec::new();
                let mut i: usize = 0;
                proof {
                    assert(deep_buckets(events_out@) =~= Map::<WidgetId, Seq<Event>>::empty());
                }
                #[verifier::loop_isolation(false)]
                while i < events.len()
                    invariant
                        i <= events.len(),
                        active == s_run(
                            tree_g,
                            rm_g,
                            ordered_components@,
                            start,
                            events@,
                            i as int,
                        ).0,
                        deep_buckets(events_out@) == s_run(
                            tree_g,
                            rm_g,
                            ordered_components@,
                            start,
                            events@,
                            i as int,
                        ).1,
                        unhandled@ == s_run(
                            tree_g,
                            rm_g,
                            ordered_components@,
                            start,
                            events@,
                            i as int,
                        ).2,
                    decreases events.len() - i,
                {
                    let ghost run_prev = s_run(
                        tree_g,
                        rm_g,
                        ordered_components@,
                        start,
                        events@,
                        i as int,
                    );
                    let ghost st = s_step(tree_g, rm_g, ordered_components@, active, events@[i as int]);
                    let active_id: Option<WidgetId> = match active {
                        Some((_, id)) => Some(id),
                        None => None,
                    };
                    let ghost m0 = events_out@;
                    let consumed = widget_handle_event(
                        &pair.0,
                        &events[i],
                        &pair.1,
                        &mut events_out,
                        active_id,
                    );
                    match consumed {
                        Some(cid) => {
                            proof {
                                assert(deep_buckets(events_out@) =~= run_prev.1.insert(
                                    cid,
                                    (if run_prev.1.contains_key(cid) {
                                        run_prev.1[cid]
                                    } else {
                                        Seq::empty()
                                    }).push(s_delivered(events@[i as int], rm_g[cid])),
                                ));
                            }
                            let is_primary = match &events[i] {
                                Event::MouseDown(MouseButton::Left, _) => true,
                                _ => false,
                            };
                            if is_primary {
                                match find_index(ordered_components, cid) {
                                    Some(idx) => {
                                        active = Some((idx, cid));
                                    },
                                    None => {},
                                }
                            }
                        },
                        None => {
                            let n = ordered_components.len();
                            let mut nav = false;
                            match (&events[i], active) {
                                (Event::KeyDown(k), Some((ai, _))) => {
                                    if n > 0 && k.key == "Tab".to_owned() {
                                        proof {
                                            vstd::arithmetic::div_mod::lemma_mod_bound(
                                                ai as int % n as int + 1,
                                                n as int,
                                            );
                                            vstd::arithmetic::div_mod::lemma_mod_bound(
                                                ai as int,
                                                n as int,
                                            );
                                            vstd::arithmetic::div_mod::lemma_mod_bound(
                                                ai as int % n as int + n as int - 1,
                                                n as int,
                                            );
                                        }
                                        if !k.shift {
                                            let ni = (ai % n + 1) % n;
                                            active = Some((ni, ordered_components[ni]));
                                            nav = true;
                                        } else {
                                            let a2 = ai % n;
                                            let ni = if a2 == 0 {
                                                n - 1
                                            } else {
                                                a2 - 1
                                            };
                                            proof {
                                                vstd::arithmetic::div_mod::lemma_mod_multiples_vanish(
                                                    1,
                                                    a2 as int - 1,
                                                    n as int,
                                                );
                                                vstd::arithmetic::div_mod::lemma_small_mod(
                                                    (n - 1) as nat,
                                                    n as nat,
                                                );
                                                if a2 > 0 {
                                                    vstd::arithmetic::div_mod::lemma_small_mod(
                                                        (a2 - 1) as nat,
                                                        n as nat,
                                                    );
                                                }
                                                assert(ni as int == (ai as int % n as int + n as int
                                                    - 1) % n as int);
                                            }
                                            active = Some((ni, ordered_components[ni]));
                                            nav = true;
                                        }
                                    }
                                },
                                _ => {},
                            }
                            if !nav {
                                unhandled.push(events[i].clone());
                            }
                        },
                    }
                    proof {
                        assert(active == s_run(
                            tree_g,
                            rm_g,
                            ordered_components@,
                            start,
                            events@,
                            i as int + 1,
                        ).0);
                        assert(deep_buckets(events_out@) =~= s_run(
                            tree_g,
                            rm_g,
                            ordered_components@,
                            start,
                            events@,
                            i as int + 1,
                        ).1);
                        assert(unhandled@ =~= s_run(
                            tree_g,
                            rm_g,
                            ordered_components@,
                            start,
                            events@,
                            i as int + 1,
                        ).2);
                    }
                    i = i + 1;
                }
                self.active_component = active;
                GuiEventResult { component_events: events_out, unhandled_events: unhandled }
            },
        }
    }
}

/// The position of the first occurrence of `id` in `ordered`, if any.
#[verifier::loop_isolation(false)]
fn find_index(ordered: &[WidgetId], id: WidgetId) -> (r: Option<usize>)
    ensures
        match r {
            Some(i) => i < ordered@.len() && s_first_index(ordered@, id, 0) == Some(i as int),
            None => s_first_index(ordered@, id, 0) is None,
        },
{
    let mut i: usize = 0;
    while i < ordered.len()
        invariant
            i <= ordered.len(),
            s_first_index(ordered@, id, 0) == s_first_index(ordered@, id, i as int),
        decreases ordered.len() - i,
    {
        if ordered[i] == id {
            return Some(i);
        }
        i = i + 1;
    }
    None
}

} // verus!
