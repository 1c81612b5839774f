//! The engine's general laws, stated and proved once over the layout and
//! routing specifications.

use vstd::prelude::*;
use crate::event::Event;
use crate::geom::Recti;
use crate::layout::{
    lemma_min_size_nonneg, lemma_stack_min_nonneg, s_min_size, s_stack_min,
};
use crate::rects::{
    overlap_rects_ok, rect_map_ok, rect_view, s_flex_sum, s_inset_child_rect, s_own_rect, s_share,
    s_stack_extra, s_stack_off, trunc_div, RectS,
};
use crate::router::{s_route, s_route_children};
use crate::text::TextMeasure;
use crate::theme::Theme;
use crate::widget::{Widget, WidgetId};
use crate::gui::{s_active_id, s_first_index, s_is_primary_down, s_is_shift_tab, s_is_tab, s_step};

verus! {

/// Minimum-size monotonicity: a stack's combined minimum is never smaller,
/// on either axis, than any single child's minimum.
pub proof fn lemma_min_size_monotonic<F: TextMeasure>(
    cs: Seq<Widget>,
    i: int,
    n: int,
    t: Theme<F>,
    vertical: bool,
)
    requires
        t.spec_wf(),
        0 <= i < n <= cs.len(),
    ensures
        s_min_size(cs[i], t).0 <= s_stack_min(cs, n, t, vertical).0,
        s_min_size(cs[i], t).1 <= s_stack_min(cs, n, t, vertical).1,
    decreases n,
{
    if i == n - 1 {
        lemma_stack_min_nonneg(cs, n - 1, t, vertical);
        lemma_min_size_nonneg(cs[i], t);
    } else {
        lemma_min_size_monotonic(cs, i, n - 1, t, vertical);
        lemma_min_size_nonneg(cs[n - 1], t);
    }
}

/// Minimum-size monotonicity at the widget level: a `Col` is at least as
/// wide and as tall as each of its children demands; likewise a `Row`.
pub proof fn lemma_stack_widget_min_monotonic<F: TextMeasure>(w: Widget, i: int, t: Theme<F>)
    requires
        t.spec_wf(),
        w is Col || w is Row,
        0 <= i < w.spec_children().len(),
    ensures
        s_min_size(w.spec_children()[i], t).0 <= s_min_size(w, t).0,
        s_min_size(w.spec_children()[i], t).1 <= s_min_size(w, t).1,
{
    match w {
        Widget::Col(c) => {
            lemma_min_size_monotonic(c.children@, i, c.children@.len() as int, t, true);
        },
        Widget::Row(r) => {
            lemma_min_size_monotonic(r.children@, i, r.children@.len() as int, t, false);
        },
        _ => {},
    }
}

/// When a widget's recorded rectangle stays within the rectangle it was
/// allocated. It always does, except in three squeezed shapes: an `Inset`
/// records a rectangle wider than its allocation whenever the padding is
/// positive, and `NoFill` or a zero-flex stack sticks out when its minimum
/// exceeds the allocation.
pub open spec fn own_within_allocation<F: TextMeasure>(c: Widget, alloc: RectS, t: Theme<F>) -> bool {
    match c {
        Widget::Inset(_) => t.padding == 0,
        Widget::NoFill(_) => s_min_size(c, t).0 <= alloc.2 - alloc.0 && s_min_size(c, t).1
            <= alloc.3 - alloc.1,
        Widget::Col(x) => s_flex_sum(x.flexes@, x.flexes@.len() as int) == 0 ==> s_min_size(c, t).1
            <= alloc.3 - alloc.1,
        Widget::Row(x) => s_flex_sum(x.flexes@, x.flexes@.len() as int) == 0 ==> s_min_size(c, t).0
            <= alloc.2 - alloc.0,
        _ => true,
    }
}

/// A widget's recorded rectangle lies within its allocation, under
/// `own_within_allocation`.
pub proof fn lemma_own_rect_within<F: TextMeasure>(c: Widget, alloc: RectS, t: Theme<F>)
    requires
        t.spec_wf(),
        own_within_allocation(c, alloc, t),
    ensures
        alloc.0 <= s_own_rect(c, alloc, t).0,
        alloc.1 <= s_own_rect(c, alloc, t).1,
        s_own_rect(c, alloc, t).2 <= alloc.2,
        s_own_rect(c, alloc, t).3 <= alloc.3,
{
}

/// Rect coverage, the containment half, for `Overlap`: the parent's
/// recorded rectangle contains each direct child's recorded rectangle
/// (each child is allocated the parent's own rectangle).
pub proof fn lemma_overlap_containment<F: TextMeasure>(
    w: Widget,
    r: RectS,
    t: Theme<F>,
    rm: Map<WidgetId, Recti>,
    i: int,
)
    requires
        t.spec_wf(),
        w is Overlap,
        rect_map_ok(w, r, t, rm),
        0 <= i < w.spec_children().len(),
        own_within_allocation(w.spec_children()[i], r, t),
    ensures
        rm[w.wid()].spec_contains_rect(rm[w.spec_children()[i].wid()]),
{
    match w {
        Widget::Overlap(o) => {
            lemma_overlap_rects_ok_at(o.children@, i, o.children@.len() as int, r, t, rm);
            lemma_own_rect_within(o.children@[i], r, t);
        },
        _ => {},
    }
}

proof fn lemma_overlap_rects_ok_at<F: TextMeasure>(
    cs: Seq<Widget>,
    i: int,
    n: int,
    r: RectS,
    t: Theme<F>,
    rm: Map<WidgetId, Recti>,
)
    requires
        overlap_rects_ok(cs, n, r, t, rm),
        0 <= i < n <= cs.len(),
    ensures
        rect_map_ok(cs[i], r, t, rm),
    decreases n,
{
    if i < n - 1 {
        lemma_overlap_rects_ok_at(cs, i, n - 1, r, t, rm);
    }
}

/// Rect coverage, the containment half, for `NoFill`: the child is
/// allocated exactly the parent's recorded rectangle, so its recorded
/// rectangle lies within the parent's whenever it fits its allocation.
pub proof fn lemma_nofill_containment<F: TextMeasure>(
    w: Widget,
    r: RectS,
    t: Theme<F>,
    rm: Map<WidgetId, Recti>,
)
    requires
        t.spec_wf(),
        w matches Widget::NoFill(x) && x.children@.len() == 1,
        rect_map_ok(w, r, t, rm),
        own_within_allocation(w.spec_children()[0], s_own_rect(w, r, t), t),
    ensures
        rm[w.wid()].spec_contains_rect(rm[w.spec_children()[0].wid()]),
{
    match w {
        Widget::NoFill(x) => {
            assert(rect_map_ok(x.children@[0], s_own_rect(w, r, t), t, rm));
            lemma_own_rect_within(x.children@[0], s_own_rect(w, r, t), t);
        },
        _ => {},
    }
}

/// Rect coverage, the containment half, for `Inset`: the child is allocated
/// the parent's allocation shrunk by the padding, which lies within the
/// parent's recorded (widened) rectangle.
pub proof fn lemma_inset_containment<F: TextMeasure>(
    w: Widget,
    r: RectS,
    t: Theme<F>,
    rm: Map<WidgetId, Recti>,
)
    requires
        t.spec_wf(),
        w matches Widget::Inset(x) && x.children@.len() == 1,
        rect_map_ok(w, r, t, rm),
        own_within_allocation(w.spec_children()[0], s_inset_child_rect(r, t), t),
    ensures
        rm[w.wid()].spec_contains_rect(rm[w.spec_children()[0].wid()]),
{
    match w {
        Widget::Inset(x) => {
            assert(rect_map_ok(x.children@[0], s_inset_child_rect(r, t), t, rm));
            lemma_own_rect_within(x.children@[0], s_inset_child_rect(r, t), t);
        },
        _ => {},
    }
}

/// The sum of the flex shares of the first `n` children.
pub open spec fn s_share_sum(fs: Seq<u32>, n: int, extra: int, fsum: int) -> int
    decreases n,
{
    if n <= 0 || n > fs.len() {
        0
    } else {
        s_share_sum(fs, n - 1, extra, fsum) + s_share(extra, fs[n - 1] as int, fsum)
    }
}

proof fn lemma_share_sum_bounds(fs: Seq<u32>, n: int, extra: int, fsum: int)
    requires
        0 <= n <= fs.len(),
        0 <= extra,
        1 <= fsum,
    ensures
        extra * s_flex_sum(fs, n) - n * (fsum - 1) <= fsum * s_share_sum(fs, n, extra, fsum),
        fsum * s_share_sum(fs, n, extra, fsum) <= extra * s_flex_sum(fs, n),
    decreases n,
{
    if n == 0 {
        assert(extra * s_flex_sum(fs, n) == 0) by (nonlinear_arith)
            requires
                s_flex_sum(fs, n) == 0,
        ;
        assert(fsum * s_share_sum(fs, n, extra, fsum) == 0) by (nonlinear_arith)
            requires
                s_share_sum(fs, n, extra, fsum) == 0,
        ;
        assert(n * (fsum - 1) == 0) by (nonlinear_arith)
            requires
                n == 0,
        ;
    } else {
        lemma_share_sum_bounds(fs, n - 1, extra, fsum);
        let f = fs[n - 1] as int;
        let a = extra * f;
        assert(0 <= a) by (nonlinear_arith)
            requires
                a == extra * f,
                0 <= extra,
                0 <= f,
        ;
        let q = a / fsum;
        let rr = a % fsum;
        vstd::arithmetic::div_mod::lemma_fundamental_div_mod(a, fsum);
        vstd::arithmetic::div_mod::lemma_mod_bound(a, fsum);
        assert(s_share(extra, f, fsum) == q);
        // assemble: fsum * (S' + q) == fsum * S' + (a - rr)
        assert(fsum * (s_share_sum(fs, n - 1, extra, fsum) + q) == fsum * s_share_sum(
            fs,
            n - 1,
            extra,
            fsum,
        ) + fsum * q) by (nonlinear_arith);
        assert(fsum * q == a - rr) by (nonlinear_arith)
            requires
                a == fsum * q + rr,
        ;
        assert(extra * (s_flex_sum(fs, n - 1) + f) == extra * s_flex_sum(fs, n - 1) + a)
            by (nonlinear_arith)
            requires
                a == extra * f,
        ;
        assert(n * (fsum - 1) == (n - 1) * (fsum - 1) + (fsum - 1)) by (nonlinear_arith);
    }
}

/// Flex partition non-exactness: with nonnegative leftover space `extra`
/// and a positive total flex weight, the truncated shares never
/// over-distribute, and the un-distributed deficit is less than the number
/// of children — one unit of truncation error per child.
pub proof fn lemma_flex_deficit(fs: Seq<u32>, extra: int)
    requires
        0 <= extra,
        s_flex_sum(fs, fs.len() as int) > 0,
    ensures
        0 <= extra - s_share_sum(fs, fs.len() as int, extra, s_flex_sum(fs, fs.len() as int)),
        extra - s_share_sum(fs, fs.len() as int, extra, s_flex_sum(fs, fs.len() as int))
            < fs.len(),
{
    let n = fs.len() as int;
    let fsum = s_flex_sum(fs, n);
    let ssum = s_share_sum(fs, n, extra, fsum);
    lemma_share_sum_bounds(fs, n, extra, fsum);
    assert(extra * fsum - n * (fsum - 1) <= fsum * ssum <= extra * fsum);
    assert(fsum * (extra - ssum) == extra * fsum - fsum * ssum) by (nonlinear_arith);
    assert(0 <= fsum * (extra - ssum));
    assert(fsum * (extra - ssum) <= n * (fsum - 1));
    assert(n >= 1) by {
        if n == 0 {
            assert(fsum == 0);
        }
    }
    assert(0 <= extra - ssum) by (nonlinear_arith)
        requires
            0 <= fsum * (extra - ssum),
            1 <= fsum,
    ;
    assert(n * (fsum - 1) < n * fsum) by (nonlinear_arith)
        requires
            1 <= n,
    ;
    assert(extra - ssum < n) by (nonlinear_arith)
        requires
            fsum * (extra - ssum) < n * fsum,
            1 <= fsum,
    ;
}

/// A stack's children occupy, in total, their combined minimum plus the
/// distributed shares: the offset past the last child is the stack's
/// minimum extent plus the share sum.
pub proof fn lemma_stack_fill<F: TextMeasure>(
    cs: Seq<Widget>,
    fs: Seq<u32>,
    n: int,
    t: Theme<F>,
    extra: int,
    fsum: int,
    vertical: bool,
)
    requires
        0 <= n <= cs.len(),
        fs.len() == cs.len(),
    ensures
        s_stack_off(cs, fs, n, t, extra, fsum, vertical) == (if vertical {
            s_stack_min(cs, n, t, true).1
        } else {
            s_stack_min(cs, n, t, false).0
        }) + s_share_sum(fs, n, extra, fsum),
    decreases n,
{
    if n > 0 {
        lemma_stack_fill(cs, fs, n - 1, t, extra, fsum, vertical);
    }
}

/// First-match exclusivity: when the subtree at child `i` consumes an
/// event and no earlier child's subtree does, the whole child list routes
/// the event to that same consumer — later siblings, component or not,
/// never see it.
pub proof fn lemma_first_match(
    cs: Seq<Widget>,
    i: int,
    n: int,
    e: Event,
    rm: Map<WidgetId, Recti>,
    active: Option<WidgetId>,
)
    requires
        0 <= i < n <= cs.len(),
        s_route(cs[i], e, rm, active) is Some,
        forall|k: int| 0 <= k < i ==> s_route(#[trigger] cs[k], e, rm, active) is None,
    ensures
        s_route_children(cs, n, e, rm, active) == s_route(cs[i], e, rm, active),
{
    lemma_route_children_none(cs, i, e, rm, active);
    assert(s_route_children(cs, i + 1, e, rm, active) == s_route(cs[i], e, rm, active));
    crate::router::lemma_route_children_stable(cs, i + 1, n, e, rm, active);
}

proof fn lemma_route_children_none(
    cs: Seq<Widget>,
    i: int,
    e: Event,
    rm: Map<WidgetId, Recti>,
    active: Option<WidgetId>,
)
    requires
        0 <= i <= cs.len(),
        forall|k: int| 0 <= k < i ==> s_route(#[trigger] cs[k], e, rm, active) is None,
    ensures
        s_route_children(cs, i, e, rm, active) is None,
    decreases i,
{
    if i > 0 {
        lemma_route_children_none(cs, i - 1, e, rm, active);
    }
}

/// Focus cycling: from active index `i` (with `n` ordered components and
/// the event unconsumed), Tab moves the focus to `(i + 1) mod n` and
/// Shift+Tab to `(i - 1 + n) mod n`; in particular Tab wraps from the last
/// index to the first, and Shift+Tab from the first to the last.
pub proof fn lemma_focus_cycling(
    tree: Widget,
    rm: Map<WidgetId, Recti>,
    ordered: Seq<WidgetId>,
    i: usize,
    id: WidgetId,
    e: Event,
)
    requires
        s_route(tree, e, rm, Some(id)) is None,
        (i as int) < ordered.len(),
        ordered.len() > 0,
    ensures
        s_is_tab(e) ==> ({
            let ni = (i as int + 1) % ordered.len() as int;
            s_step(tree, rm, ordered, Some((i, id)), e).0 == Some((ni as usize, ordered[ni]))
        }),
        s_is_shift_tab(e) ==> ({
            let ni = (i as int + ordered.len() - 1) % ordered.len() as int;
            s_step(tree, rm, ordered, Some((i, id)), e).0 == Some((ni as usize, ordered[ni]))
        }),
        s_is_tab(e) && i as int == ordered.len() - 1 ==> s_step(
            tree,
            rm,
            ordered,
            Some((i, id)),
            e,
        ).0 == Some((0usize, ordered[0])),
        s_is_shift_tab(e) && i == 0 ==> ({
            let last = ordered.len() as int - 1;
            s_step(tree, rm, ordered, Some((i, id)), e).0 == Some((last as usize, ordered[last]))
        }),
{
    let n = ordered.len() as int;
    vstd::arithmetic::div_mod::lemma_small_mod(i as nat, n as nat);
    vstd::arithmetic::div_mod::lemma_mod_bound(i as int + 1, n);
    vstd::arithmetic::div_mod::lemma_mod_bound(i as int + n - 1, n);
    if i as int + 1 < n {
        vstd::arithmetic::div_mod::lemma_small_mod((i + 1) as nat, n as nat);
    } else {
        vstd::arithmetic::div_mod::lemma_mod_self_0(n);
    }
    if i == 0 {
        vstd::arithmetic::div_mod::lemma_small_mod((n - 1) as nat, n as nat);
    } else {
        vstd::arithmetic::div_mod::lemma_mod_multiples_vanish(1, i as int - 1, n);
        vstd::arithmetic::div_mod::lemma_small_mod((i - 1) as nat, n as nat);
    }
}

/// Click-to-focus: a primary mouse-down consumed by component `cid` makes
/// it the active component, at its position in the ordered list, whatever
/// the focus state was before.
pub proof fn lemma_click_to_focus(
    tree: Widget,
    rm: Map<WidgetId, Recti>,
    ordered: Seq<WidgetId>,
    active: Option<(usize, WidgetId)>,
    e: Event,
    cid: WidgetId,
    idx: int,
)
    requires
        s_is_primary_down(e),
        s_route(tree, e, rm, s_active_id(active)) == Some(cid),
        s_first_index(ordered, cid, 0) == Some(idx),
    ensures
        0 <= idx < ordered.len(),
        s_step(tree, rm, ordered, active, e).0 == Some((idx as usize, cid)),
{
    lemma_first_index_in_range(ordered, cid, 0);
}

proof fn lemma_first_index_in_range(ordered: Seq<WidgetId>, id: WidgetId, i: int)
    requires
        0 <= i,
    ensures
        match s_first_index(ordered, id, i) {
            Some(j) => i <= j < ordered.len() && ordered[j] == id,
            None => true,
        },
    decreases ordered.len() - i,
{
    if i < ordered.len() && ordered[i] != id {
        lemma_first_index_in_range(ordered, id, i + 1);
    }
}

} // verus!
