//! The layout engine: a bottom-up minimum-size pass and a top-down
//! rectangle pass.
//!
//! The minimum-size pass walks the tree post-order and records, for every
//! node, the smallest rectangle it is willing to be laid out into. The
//! rectangle pass walks pre-order from the surface rectangle and assigns
//! every node its screen rectangle, distributing leftover space along a
//! stack's main axis in proportion to the children's flex weights, with
//! integer truncation.

use vstd::prelude::*;
use std::collections::HashMap;
use crate::geom::Vec2;
use crate::text::TextMeasure;
use crate::theme::Theme;
use crate::widget::{children_ids, children_unique, children_wf, Widget, WidgetId};

verus! {

/// The larger of two integers.
pub open spec fn s_max(a: int, b: int) -> int {
    if a >= b {
        a
    } else {
        b
    }
}

/// The widest of the first `n` lines, by the theme font's measure.
pub open spec fn s_max_line_width<F: TextMeasure>(lines: Seq<String>, n: int, t: Theme<F>) -> int
    decreases n,
{
    if n <= 0 || n > lines.len() {
        0
    } else {
        s_max(s_max_line_width(lines, n - 1, t), t.font.spec_size(lines[n - 1]@).0)
    }
}

/// The widest of the first `n` colored lines.
pub open spec fn s_max_msg_width<F: TextMeasure>(
    lines: Seq<(String, crate::geom::Color)>,
    n: int,
    t: Theme<F>,
) -> int
    decreases n,
{
    if n <= 0 || n > lines.len() {
        0
    } else {
        s_max(s_max_msg_width(lines, n - 1, t), t.font.spec_size(lines[n - 1].0@).0)
    }
}

/// The minimum size of a widget, per the container policies: a stack takes
/// the maximum of its children on the cross axis and their sum on the main
/// axis; an overlap the component-wise maximum; an inset adds twice the
/// theme padding; leaves measure their text.
pub open spec fn s_min_size<F: TextMeasure>(w: Widget, t: Theme<F>) -> (int, int)
    decreases w, 0int,
{
    match w {
        Widget::Label(l) => t.font.spec_size(l.text@),
        Widget::Button(b) => (
            t.font.spec_size(b.text@).0 + 4,
            t.font.spec_size(b.text@).1 + 2,
        ),
        Widget::TextBox(tb) => (
            s_max_line_width(tb.lines@, tb.lines@.len() as int, t),
            t.font.spec_advance_y() * tb.lines@.len(),
        ),
        Widget::MessageBox(mb) => (
            s_max_msg_width(mb.lines@, mb.lines@.len() as int, t),
            t.font.spec_advance_y() * mb.lines@.len(),
        ),
        Widget::NoFill(x) => if x.children@.len() == 1 {
            s_min_size(x.children@[0], t)
        } else {
            (0, 0)
        },
        Widget::Inset(x) => if x.children@.len() == 1 {
            (
                s_min_size(x.children@[0], t).0 + 2 * t.padding,
                s_min_size(x.children@[0], t).1 + 2 * t.padding,
            )
        } else {
            (2 * t.padding, 2 * t.padding)
        },
        Widget::Col(c) => s_stack_min(c.children@, c.children@.len() as int, t, true),
        Widget::Row(r) => s_stack_min(r.children@, r.children@.len() as int, t, false),
        Widget::Overlap(o) => s_overlap_min(o.children@, o.children@.len() as int, t),
        Widget::Empty(_) => (0, 0),
        Widget::Padding(_) => (t.padding as int, t.padding as int),
    }
}

/// The combined minimum size of the first `n` widgets stacked vertically
/// (`vertical`) or horizontally: maximum across, sum along.
pub open spec fn s_stack_min<F: TextMeasure>(
    cs: Seq<Widget>,
    n: int,
    t: Theme<F>,
    vertical: bool,
) -> (int, int)
    decreases cs, n,
{
    if n <= 0 || n > cs.len() {
        (0, 0)
    } else {
        let prev = s_stack_min(cs, n - 1, t, vertical);
        let cm = s_min_size(cs[n - 1], t);
        if vertical {
            (s_max(prev.0, cm.0), prev.1 + cm.1)
        } else {
            (prev.0 + cm.0, s_max(prev.1, cm.1))
        }
    }
}

/// The component-wise maximum of the first `n` widgets' minimum sizes.
pub open spec fn s_overlap_min<F: TextMeasure>(cs: Seq<Widget>, n: int, t: Theme<F>) -> (int, int)
    decreases cs, n,
{
    if n <= 0 || n > cs.len() {
        (0, 0)
    } else {
        let prev = s_overlap_min(cs, n - 1, t);
        let cm = s_min_size(cs[n - 1], t);
        (s_max(prev.0, cm.0), s_max(prev.1, cm.1))
    }
}

/// With a well-formed theme, no widget's minimum size is negative.
pub proof fn lemma_min_size_nonneg<F: TextMeasure>(w: Widget, t: Theme<F>)
    requires
        t.spec_wf(),
    ensures
        0 <= s_min_size(w, t).0,
        0 <= s_min_size(w, t).1,
    decreases w, 1int,
{
    match w {
        Widget::Label(l) => {
            t.font.lemma_metrics_nonneg(l.text@);
        },
        Widget::Button(b) => {
            t.font.lemma_metrics_nonneg(b.text@);
        },
        Widget::TextBox(tb) => {
            lemma_max_line_width_nonneg(tb.lines@, tb.lines@.len() as int, t);
            t.font.lemma_metrics_nonneg(Seq::empty());
        },
        Widget::MessageBox(mb) => {
            lemma_max_msg_width_nonneg(mb.lines@, mb.lines@.len() as int, t);
            t.font.lemma_metrics_nonneg(Seq::empty());
        },
        Widget::NoFill(x) => {
            if x.children@.len() == 1 {
                lemma_min_size_nonneg(x.children@[0], t);
            }
        },
        Widget::Inset(x) => {
            if x.children@.len() == 1 {
                lemma_min_size_nonneg(x.children@[0], t);
            }
        },
        Widget::Col(c) => {
            lemma_stack_min_nonneg(c.children@, c.children@.len() as int, t, true);
        },
        Widget::Row(r) => {
            lemma_stack_min_nonneg(r.children@, r.children@.len() as int, t, false);
        },
        Widget::Overlap(o) => {
            lemma_overlap_min_nonneg(o.children@, o.children@.len() as int, t);
        },
        _ => {},
    }
}

proof fn lemma_max_line_width_nonneg<F: TextMeasure>(lines: Seq<String>, n: int, t: Theme<F>)
    ensures
        0 <= s_max_line_width(lines, n, t),
    decreases n,
{
    if 0 < n <= lines.len() {
        lemma_max_line_width_nonneg(lines, n - 1, t);
    }
}

proof fn lemma_max_msg_width_nonneg<F: TextMeasure>(
    lines: Seq<(String, crate::geom::Color)>,
    n: int,
    t: Theme<F>,
)
    ensures
        0 <= s_max_msg_width(lines, n, t),
    decreases n,
{
    if 0 < n <= lines.len() {
        lemma_max_msg_width_nonneg(lines, n - 1, t);
    }
}

pub proof fn lemma_stack_min_nonneg<F: TextMeasure>(
    cs: Seq<Widget>,
    n: int,
    t: Theme<F>,
    vertical: bool,
)
    requires
        t.spec_wf(),
    ensures
        0 <= s_stack_min(cs, n, t, vertical).0,
        0 <= s_stack_min(cs, n, t, vertical).1,
    decreases cs, n,
{
    if 0 < n <= cs.len() {
        lemma_stack_min_nonneg(cs, n - 1, t, vertical);
        lemma_min_size_nonneg(cs[n - 1], t);
    }
}

pub proof fn lemma_overlap_min_nonneg<F: TextMeasure>(cs: Seq<Widget>, n: int, t: Theme<F>)
    requires
        t.spec_wf(),
    ensures
        0 <= s_overlap_min(cs, n, t).0,
        0 <= s_overlap_min(cs, n, t).1,
    decreases cs, n,
{
    if 0 < n <= cs.len() {
        lemma_overlap_min_nonneg(cs, n - 1, t);
        lemma_min_size_nonneg(cs[n - 1], t);
    }
}

/// Every minimum size in the subtree fits in `i32`, so the bottom-up pass
/// cannot overflow.
pub open spec fn min_fits<F: TextMeasure>(w: Widget, t: Theme<F>) -> bool
    decreases w, 0int,
{
    &&& s_min_size(w, t).0 <= i32::MAX as int
    &&& s_min_size(w, t).1 <= i32::MAX as int
    &&& match w {
        Widget::NoFill(x) => children_min_fits(x.children@, x.children@.len() as int, t),
        Widget::Inset(x) => children_min_fits(x.children@, x.children@.len() as int, t),
        Widget::Col(x) => children_min_fits(x.children@, x.children@.len() as int, t),
        Widget::Row(x) => children_min_fits(x.children@, x.children@.len() as int, t),
        Widget::Overlap(x) => children_min_fits(x.children@, x.children@.len() as int, t),
        _ => true,
    }
}

/// `min_fits` for each of the first `n` widgets of `cs`.
pub open spec fn children_min_fits<F: TextMeasure>(cs: Seq<Widget>, n: int, t: Theme<F>) -> bool
    decreases cs, n,
{
    if n <= 0 || n > cs.len() {
        true
    } else {
        children_min_fits(cs, n - 1, t) && min_fits(cs[n - 1], t)
    }
}

/// The map records exactly this widget's minimum size under its id.
pub open spec fn min_entry_ok<F: TextMeasure>(w: Widget, t: Theme<F>, m: Map<WidgetId, Vec2>) -> bool {
    &&& m.contains_key(w.wid())
    &&& m[w.wid()].x as int == s_min_size(w, t).0
    &&& m[w.wid()].y as int == s_min_size(w, t).1
}

/// The map records the minimum size of every node in the subtree.
pub open spec fn min_map_ok<F: TextMeasure>(w: Widget, t: Theme<F>, m: Map<WidgetId, Vec2>) -> bool
    decreases w, 0int,
{
    &&& min_entry_ok(w, t, m)
    &&& match w {
        Widget::NoFill(x) => children_min_ok(x.children@, x.children@.len() as int, t, m),
        Widget::Inset(x) => children_min_ok(x.children@, x.children@.len() as int, t, m),
        Widget::Col(x) => children_min_ok(x.children@, x.children@.len() as int, t, m),
        Widget::Row(x) => children_min_ok(x.children@, x.children@.len() as int, t, m),
        Widget::Overlap(x) => children_min_ok(x.children@, x.children@.len() as int, t, m),
        _ => true,
    }
}

/// `min_map_ok` for each of the first `n` widgets of `cs`.
pub open spec fn children_min_ok<F: TextMeasure>(
    cs: Seq<Widget>,
    n: int,
    t: Theme<F>,
    m: Map<WidgetId, Vec2>,
) -> bool
    decreases cs, n,
{
    if n <= 0 || n > cs.len() {
        true
    } else {
        children_min_ok(cs, n - 1, t, m) && min_map_ok(cs[n - 1], t, m)
    }
}

/// Each widget of a recorded prefix is recorded.
pub proof fn lemma_children_min_ok_at<F: TextMeasure>(
    cs: Seq<Widget>,
    i: int,
    n: int,
    t: Theme<F>,
    m: Map<WidgetId, Vec2>,
)
    requires
        children_min_ok(cs, n, t, m),
        0 <= i < n <= cs.len(),
    ensures
        min_map_ok(cs[i], t, m),
    decreases n,
{
    if i < n - 1 {
        lemma_children_min_ok_at(cs, i, n - 1, t, m);
    }
}

/// A longer stack never has a smaller combined minimum than a prefix.
pub proof fn lemma_stack_min_prefix<F: TextMeasure>(
    cs: Seq<Widget>,
    i: int,
    n: int,
    t: Theme<F>,
    vertical: bool,
)
    requires
        t.spec_wf(),
        0 <= i <= n <= cs.len(),
    ensures
        s_stack_min(cs, i, t, vertical).0 <= s_stack_min(cs, n, t, vertical).0,
        s_stack_min(cs, i, t, vertical).1 <= s_stack_min(cs, n, t, vertical).1,
    decreases n,
{
    if i < n {
        lemma_stack_min_prefix(cs, i, n - 1, t, vertical);
        lemma_min_size_nonneg(cs[n - 1], t);
    }
}

/// A longer overlap never has a smaller combined minimum than a prefix.
pub proof fn lemma_overlap_min_prefix<F: TextMeasure>(cs: Seq<Widget>, i: int, n: int, t: Theme<F>)
    requires
        t.spec_wf(),
        0 <= i <= n <= cs.len(),
    ensures
        s_overlap_min(cs, i, t).0 <= s_overlap_min(cs, n, t).0,
        s_overlap_min(cs, i, t).1 <= s_overlap_min(cs, n, t).1,
    decreases n,
{
    if i < n {
        lemma_overlap_min_prefix(cs, i, n - 1, t);
        lemma_min_size_nonneg(cs[n - 1], t);
    }
}

/// The widest of more lines is never narrower.
pub proof fn lemma_max_line_width_prefix<F: TextMeasure>(
    lines: Seq<String>,
    i: int,
    n: int,
    t: Theme<F>,
)
    requires
        0 <= i <= n <= lines.len(),
    ensures
        s_max_line_width(lines, i, t) <= s_max_line_width(lines, n, t),
    decreases n,
{
    if i < n {
        lemma_max_line_width_prefix(lines, i, n - 1, t);
    }
}

/// The widest of more colored lines is never narrower.
pub proof fn lemma_max_msg_width_prefix<F: TextMeasure>(
    lines: Seq<(String, crate::geom::Color)>,
    i: int,
    n: int,
    t: Theme<F>,
)
    requires
        0 <= i <= n <= lines.len(),
    ensures
        s_max_msg_width(lines, i, t) <= s_max_msg_width(lines, n, t),
    decreases n,
{
    if i < n {
        lemma_max_msg_width_prefix(lines, i, n - 1, t);
    }
}

/// Each widget of a well-formed prefix is well-formed.
pub proof fn lemma_children_wf_at(cs: Seq<Widget>, i: int, n: int)
    requires
        children_wf(cs, n),
        0 <= i < n <= cs.len(),
    ensures
        cs[i].wf(),
    decreases n,
{
    if i < n - 1 {
        lemma_children_wf_at(cs, i, n - 1);
    }
}

/// Each widget of a unique prefix has unique ids, disjoint from the ids of
/// the widgets before it.
pub proof fn lemma_children_unique_at(cs: Seq<Widget>, i: int, n: int)
    requires
        children_unique(cs, n),
        0 <= i < n <= cs.len(),
    ensures
        cs[i].ids_unique(),
        children_ids(cs, i).disjoint(cs[i].widget_ids()),
    decreases n,
{
    if i < n - 1 {
        lemma_children_unique_at(cs, i, n - 1);
    }
}

/// Each widget of a fitting prefix fits.
pub proof fn lemma_children_min_fits_at<F: TextMeasure>(cs: Seq<Widget>, i: int, n: int, t: Theme<F>)
    requires
        children_min_fits(cs, n, t),
        0 <= i < n <= cs.len(),
    ensures
        min_fits(cs[i], t),
    decreases n,
{
    if i < n - 1 {
        lemma_children_min_fits_at(cs, i, n - 1, t);
    }
}

/// The ids of a prefix are a subset of the ids of a longer prefix.
pub proof fn lemma_children_ids_subset(cs: Seq<Widget>, i: int, n: int)
    requires
        0 <= i <= n <= cs.len(),
    ensures
        children_ids(cs, i).subset_of(children_ids(cs, n)),
    decreases n,
{
    if i < n {
        lemma_children_ids_subset(cs, i, n - 1);
    }
}

/// Recording more entries under other ids never invalidates a recorded
/// subtree.
pub proof fn lemma_min_map_ok_frame<F: TextMeasure>(
    w: Widget,
    t: Theme<F>,
    m1: Map<WidgetId, Vec2>,
    m2: Map<WidgetId, Vec2>,
)
    requires
        min_map_ok(w, t, m1),
        forall|k: WidgetId| #[trigger]
            w.widget_ids().contains(k) ==> m2.contains_key(k) && m2[k] == m1[k],
    ensures
        min_map_ok(w, t, m2),
    decreases w, 1int,
{
    assert(w.widget_ids().contains(w.wid()));
    match w {
        Widget::NoFill(x) => {
            assert forall|k: WidgetId| #[trigger]
                children_ids(x.children@, x.children@.len() as int).contains(
                    k,
                ) implies m2.contains_key(k) && m2[k] == m1[k] by {
                assert(w.widget_ids().contains(k));
            }
            lemma_children_min_ok_frame(x.children@, x.children@.len() as int, t, m1, m2);
        },
        Widget::Inset(x) => {
            assert forall|k: WidgetId| #[trigger]
                children_ids(x.children@, x.children@.len() as int).contains(
                    k,
                ) implies m2.contains_key(k) && m2[k] == m1[k] by {
                assert(w.widget_ids().contains(k));
            }
            lemma_children_min_ok_frame(x.children@, x.children@.len() as int, t, m1, m2);
        },
        Widget::Col(x) => {
            assert forall|k: WidgetId| #[trigger]
                children_ids(x.children@, x.children@.len() as int).contains(
                    k,
                ) implies m2.contains_key(k) && m2[k] == m1[k] by {
                assert(w.widget_ids().contains(k));
            }
            lemma_children_min_ok_frame(x.children@, x.children@.len() as int, t, m1, m2);
        },
        Widget::Row(x) => {
            assert forall|k: WidgetId| #[trigger]
                children_ids(x.children@, x.children@.len() as int).contains(
                    k,
                ) implies m2.contains_key(k) && m2[k] == m1[k] by {
                assert(w.widget_ids().contains(k));
            }
            lemma_children_min_ok_frame(x.children@, x.children@.len() as int, t, m1, m2);
        },
        Widget::Overlap(x) => {
            assert forall|k: WidgetId| #[trigger]
                children_ids(x.children@, x.children@.len() as int).contains(
                    k,
                ) implies m2.contains_key(k) && m2[k] == m1[k] by {
                assert(w.widget_ids().contains(k));
            }
            lemma_children_min_ok_frame(x.children@, x.children@.len() as int, t, m1, m2);
        },
        _ => {},
    }
}

proof fn lemma_children_min_ok_frame<F: TextMeasure>(
    cs: Seq<Widget>,
    n: int,
    t: Theme<F>,
    m1: Map<WidgetId, Vec2>,
    m2: Map<WidgetId, Vec2>,
)
    requires
        children_min_ok(cs, n, t, m1),
        forall|k: WidgetId| #[trigger]
            children_ids(cs, n).contains(k) ==> m2.contains_key(k) && m2[k] == m1[k],
    ensures
        children_min_ok(cs, n, t, m2),
    decreases cs, n,
{
    if 0 < n <= cs.len() {
        assert forall|k: WidgetId| #[trigger] children_ids(cs, n - 1).contains(k) implies m2.contains_key(
            k,
        ) && m2[k] == m1[k] by {
            lemma_children_ids_subset(cs, n - 1, n);
            assert(children_ids(cs, n).contains(k));
        }
        lemma_children_min_ok_frame(cs, n - 1, t, m1, m2);
        assert forall|k: WidgetId| #[trigger] cs[n - 1].widget_ids().contains(k) implies m2.contains_key(
            k,
        ) && m2[k] == m1[k] by {
            assert(children_ids(cs, n).contains(k));
        }
        lemma_min_map_ok_frame(cs[n - 1], t, m1, m2);
    }
}

/// Which way a group of children combines its minimum sizes.
#[derive(Clone, Copy)]
enum GroupMode {
    Vertical,
    Horizontal,
    Overlay,
}

impl GroupMode {
    spec fn s_combined<F: TextMeasure>(self, cs: Seq<Widget>, n: int, t: Theme<F>) -> (int, int) {
        match self {
            GroupMode::Vertical => s_stack_min(cs, n, t, true),
            GroupMode::Horizontal => s_stack_min(cs, n, t, false),
            GroupMode::Overlay => s_overlap_min(cs, n, t),
        }
    }
}

proof fn lemma_group_min_bounds<F: TextMeasure>(
    mode: GroupMode,
    cs: Seq<Widget>,
    i: int,
    n: int,
    t: Theme<F>,
)
    requires
        t.spec_wf(),
        0 <= i <= n <= cs.len(),
    ensures
        0 <= mode.s_combined(cs, i, t).0 <= mode.s_combined(cs, n, t).0,
        0 <= mode.s_combined(cs, i, t).1 <= mode.s_combined(cs, n, t).1,
{
    match mode {
        GroupMode::Vertical => {
            lemma_stack_min_prefix(cs, i, n, t, true);
            lemma_stack_min_nonneg(cs, i, t, true);
        },
        GroupMode::Horizontal => {
            lemma_stack_min_prefix(cs, i, n, t, false);
            lemma_stack_min_nonneg(cs, i, t, false);
        },
        GroupMode::Overlay => {
            lemma_overlap_min_prefix(cs, i, n, t);
            lemma_overlap_min_nonneg(cs, i, t);
        },
    }
}

/// Measures each of `children` recursively, records every node of their
/// subtrees in `min_sizes`, and returns their combined minimum size.
#[verifier::loop_isolation(false)]
fn compute_group_min<F: TextMeasure>(
    children: &Vec<Widget>,
    mode: GroupMode,
    theme: &Theme<F>,
    min_sizes: &mut HashMap<WidgetId, Vec2>,
    window_size: Vec2,
) -> (r: Vec2)
    requires
        theme.spec_wf(),
        children_wf(children@, children@.len() as int),
        children_unique(children@, children@.len() as int),
        children_min_fits(children@, children@.len() as int, *theme),
        mode.s_combined(children@, children@.len() as int, *theme).0 <= i32::MAX as int,
        mode.s_combined(children@, children@.len() as int, *theme).1 <= i32::MAX as int,
        old(min_sizes)@.dom().disjoint(children_ids(children@, children@.len() as int)),
    ensures
        r.x as int == mode.s_combined(children@, children@.len() as int, *theme).0,
        r.y as int == mode.s_combined(children@, children@.len() as int, *theme).1,
        final(min_sizes)@.dom() == old(min_sizes)@.dom().union(
            children_ids(children@, children@.len() as int),
        ),
        forall|k: WidgetId| #[trigger]
            old(min_sizes)@.dom().contains(k) ==> final(min_sizes)@.contains_key(k)
                && final(min_sizes)@[k] == old(min_sizes)@[k],
        children_min_ok(children@, children@.len() as int, *theme, final(min_sizes)@),
    decreases children@,
{
    let ghost cs = children@;
    let ghost n = children@.len() as int;
    let ghost t = *theme;
    let mut a: i32 = 0;
    let mut b: i32 = 0;
    let mut i: usize = 0;
    proof {
        assert(min_sizes@.dom() =~= old(min_sizes)@.dom().union(children_ids(cs, 0)));
    }
    while i < children.len()
        invariant
            i <= children.len(),
            a as int == mode.s_combined(cs, i as int, t).0,
            b as int == mode.s_combined(cs, i as int, t).1,
            min_sizes@.dom() == old(min_sizes)@.dom().union(children_ids(cs, i as int)),
            forall|k: WidgetId| #[trigger]
                old(min_sizes)@.dom().contains(k) ==> min_sizes@.contains_key(k) && min_sizes@[k]
                    == old(min_sizes)@[k],
            children_min_ok(cs, i as int, t, min_sizes@),
        decreases children.len() - i,
    {
        let ghost ii = i as int;
        proof {
            lemma_children_wf_at(cs, ii, n);
            lemma_children_unique_at(cs, ii, n);
            lemma_children_min_fits_at(cs, ii, n, t);
            lemma_children_ids_subset(cs, ii + 1, n);
            assert forall|k: WidgetId| #[trigger] cs[ii].widget_ids().contains(k) implies !min_sizes@.dom().contains(
                k,
            ) by {
                assert(children_ids(cs, ii + 1).contains(k));
                assert(children_ids(cs, n).contains(k));
            }
            assert(min_sizes@.dom().disjoint(cs[ii].widget_ids()));
        }
        let ghost m0 = min_sizes@;
        let cm = compute_widget_min_size(&children[i], theme, min_sizes, window_size);
        proof {
            assert forall|k: WidgetId| #[trigger] children_ids(cs, ii).contains(k) implies min_sizes@.contains_key(
                k,
            ) && min_sizes@[k] == m0[k] by {
                assert(m0.dom().contains(k));
            }
            lemma_children_min_ok_frame(cs, ii, t, m0, min_sizes@);
            assert(min_sizes@.dom() =~= old(min_sizes)@.dom().union(children_ids(cs, ii + 1)));
            lemma_group_min_bounds(mode, cs, ii + 1, n, t);
            lemma_group_min_bounds(mode, cs, ii, n, t);
            lemma_min_size_nonneg(cs[ii], t);
        }
        match mode {
            GroupMode::Vertical => {
                if cm.x > a {
                    a = cm.x;
                }
                b = b + cm.y;
            },
            GroupMode::Horizontal => {
                a = a + cm.x;
                if cm.y > b {
                    b = cm.y;
                }
            },
            GroupMode::Overlay => {
                if cm.x > a {
                    a = cm.x;
                }
                if cm.y > b {
                    b = cm.y;
                }
            },
        }
        i = i + 1;
    }
    Vec2 { x: a, y: b }
}

/// The bottom-up minimum-size pass: measures the widget and every
/// descendant (post-order), records each node's minimum size in
/// `min_sizes` under its id, and returns the widget's own minimum size.
///
/// `window_size` is made available to leaf widgets so they can approximate
/// size limits; none of the built-in widgets currently read it.
pub fn compute_widget_min_size<F: TextMeasure>(
    widget: &Widget,
    theme: &Theme<F>,
    min_sizes: &mut HashMap<WidgetId, Vec2>,
    window_size: Vec2,
) -> (r: Vec2)
    requires
        widget.wf(),
        widget.ids_unique(),
        theme.spec_wf(),
        min_fits(*widget, *theme),
        old(min_sizes)@.dom().disjoint(widget.widget_ids()),
    ensures
        r.x as int == s_min_size(*widget, *theme).0,
        r.y as int == s_min_size(*widget, *theme).1,
        final(min_sizes)@.dom() == old(min_sizes)@.dom().union(widget.widget_ids()),
        forall|k: WidgetId| #[trigger]
            old(min_sizes)@.dom().contains(k) ==> final(min_sizes)@.contains_key(k)
                && final(min_sizes)@[k] == old(min_sizes)@[k],
        min_map_ok(*widget, *theme, final(min_sizes)@),
    decreases *widget,
{
    let ghost t = *theme;
    let ghost w = *widget;
    proof {
        assert(w.widget_ids().contains(w.wid()));
    }
    match widget {
        Widget::Label(l) => {
            let r = theme.font.string_size(l.text.as_str());
            min_sizes.insert(l.id, r);
            proof {
                assert(min_sizes@.dom() =~= old(min_sizes)@.dom().union(w.widget_ids()));
                assert(min_map_ok(w, t, min_sizes@));
            }
            r
        },
        Widget::Button(bt) => {
            let s = theme.font.string_size(bt.text.as_str());
            proof {
                theme.font.lemma_metrics_nonneg(bt.text@);
            }
            let r = Vec2 { x: s.x + 4, y: s.y + 2 };
            min_sizes.insert(bt.id, r);
            proof {
                assert(min_sizes@.dom() =~= old(min_sizes)@.dom().union(w.widget_ids()));
            }
            r
        },
        Widget::TextBox(tb) => {
            let r = text_block_size_lines(&tb.lines, theme, Ghost(s_min_size(w, t)));
            min_sizes.insert(tb.id, r);
            proof {
                assert(min_sizes@.dom() =~= old(min_sizes)@.dom().union(w.widget_ids()));
            }
            r
        },
        Widget::MessageBox(mb) => {
            let r = text_block_size_msgs(&mb.lines, theme, Ghost(s_min_size(w, t)));
            min_sizes.insert(mb.id, r);
            proof {
                assert(min_sizes@.dom() =~= old(min_sizes)@.dom().union(w.widget_ids()));
            }
            r
        },
        Widget::NoFill(x) => {
            let ghost cs = x.children@;
            proof {
                lemma_children_wf_at(cs, 0, 1);
                lemma_children_unique_at(cs, 0, 1);
                lemma_children_min_fits_at(cs, 0, 1, t);
                assert(children_ids(cs, 1) =~= Set::empty().union(cs[0].widget_ids()));
                assert forall|k: WidgetId| #[trigger] cs[0].widget_ids().contains(k) implies !min_sizes@.dom().contains(
                    k,
                ) by {
                    assert(w.widget_ids().contains(k));
                }
            }
            let cm = compute_widget_min_size(&x.children[0], theme, min_sizes, window_size);
            let ghost m0 = min_sizes@;
            min_sizes.insert(x.id, cm);
            proof {
                assert forall|k: WidgetId| #[trigger] cs[0].widget_ids().contains(k) implies min_sizes@.contains_key(
                    k,
                ) && min_sizes@[k] == m0[k] by {
                    assert(!children_ids(cs, 0).contains(k));
                    assert(k != x.id);
                }
                lemma_min_map_ok_frame(cs[0], t, m0, min_sizes@);
                assert(children_min_ok(cs, 0, t, min_sizes@));
                assert(children_min_ok(cs, 1, t, min_sizes@));
                assert(min_sizes@.dom() =~= old(min_sizes)@.dom().union(w.widget_ids()));
            }
            cm
        },
        Widget::Inset(x) => {
            let ghost cs = x.children@;
            proof {
                lemma_children_wf_at(cs, 0, 1);
                lemma_children_unique_at(cs, 0, 1);
                lemma_children_min_fits_at(cs, 0, 1, t);
                assert forall|k: WidgetId| #[trigger] cs[0].widget_ids().contains(k) implies !min_sizes@.dom().contains(
                    k,
                ) by {
                    assert(w.widget_ids().contains(k));
                }
                lemma_min_size_nonneg(cs[0], t);
            }
            let cm = compute_widget_min_size(&x.children[0], theme, min_sizes, window_size);
            let pad2 = 2 * theme.padding;
            let r = Vec2 { x: cm.x + pad2, y: cm.y + pad2 };
            let ghost m0 = min_sizes@;
            min_sizes.insert(x.id, r);
            proof {
                assert forall|k: WidgetId| #[trigger] cs[0].widget_ids().contains(k) implies min_sizes@.contains_key(
                    k,
                ) && min_sizes@[k] == m0[k] by {
                    assert(!children_ids(cs, 0).contains(k));
                    assert(k != x.id);
                }
                lemma_min_map_ok_frame(cs[0], t, m0, min_sizes@);
                assert(children_min_ok(cs, 0, t, min_sizes@));
                assert(children_min_ok(cs, 1, t, min_sizes@));
                assert(min_sizes@.dom() =~= old(min_sizes)@.dom().union(w.widget_ids()));
            }
            r
        },
        Widget::Col(c) => {
            let r = compute_group_min(&c.children, GroupMode::Vertical, theme, min_sizes, window_size);
            let ghost m0 = min_sizes@;
            min_sizes.insert(c.id, r);
            proof {
                let ghost cs = c.children@;
                let ghost n = cs.len() as int;
                assert forall|k: WidgetId| #[trigger] children_ids(cs, n).contains(k) implies min_sizes@.contains_key(
                    k,
                ) && min_sizes@[k] == m0[k] by {
                    assert(k != c.id);
                }
                lemma_children_min_ok_frame(cs, n, t, m0, min_sizes@);
                assert(min_sizes@.dom() =~= old(min_sizes)@.dom().union(w.widget_ids()));
            }
            r
        },
        Widget::Row(rw) => {
            let r = compute_group_min(
                &rw.children,
                GroupMode::Horizontal,
                theme,
                min_sizes,
                window_size,
            );
            let ghost m0 = min_sizes@;
            min_sizes.insert(rw.id, r);
            proof {
                let ghost cs = rw.children@;
                let ghost n = cs.len() as int;
                assert forall|k: WidgetId| #[trigger] children_ids(cs, n).contains(k) implies min_sizes@.contains_key(
                    k,
                ) && min_sizes@[k] == m0[k] by {
                    assert(k != rw.id);
                }
                lemma_children_min_ok_frame(cs, n, t, m0, min_sizes@);
                assert(min_sizes@.dom() =~= old(min_sizes)@.dom().union(w.widget_ids()));
            }
            r
        },
        Widget::Overlap(o) => {
            let r = compute_group_min(&o.children, GroupMode::Overlay, theme, min_sizes, window_size);
            let ghost m0 = min_sizes@;
            min_sizes.insert(o.id, r);
            proof {
                let ghost cs = o.children@;
                let ghost n = cs.len() as int;
                assert forall|k: WidgetId| #[trigger] children_ids(cs, n).contains(k) implies min_sizes@.contains_key(
                    k,
                ) && min_sizes@[k] == m0[k] by {
                    assert(k != o.id);
                }
                lemma_children_min_ok_frame(cs, n, t, m0, min_sizes@);
                assert(min_sizes@.dom() =~= old(min_sizes)@.dom().union(w.widget_ids()));
            }
            r
        },
        Widget::Empty(e) => {
            let r = Vec2 { x: 0, y: 0 };
            min_sizes.insert(e.id, r);
            proof {
                assert(min_sizes@.dom() =~= old(min_sizes)@.dom().union(w.widget_ids()));
            }
            r
        },
        Widget::Padding(p) => {
            let r = Vec2 { x: theme.padding, y: theme.padding };
            min_sizes.insert(p.id, r);
            proof {
                assert(min_sizes@.dom() =~= old(min_sizes)@.dom().union(w.widget_ids()));
            }
            r
        },
    }
}

/// The minimum size of a block of plain lines: the widest line by the
/// theme font's measure, by the line advance times the number of lines.
#[verifier::loop_isolation(false)]
fn text_block_size_lines<F: TextMeasure>(
    lines: &Vec<String>,
    theme: &Theme<F>,
    expected: Ghost<(int, int)>,
) -> (r: Vec2)
    requires
        theme.spec_wf(),
        expected@.0 == s_max_line_width(lines@, lines@.len() as int, *theme),
        expected@.1 == theme.font.spec_advance_y() * lines@.len(),
        expected@.0 <= i32::MAX as int,
        expected@.1 <= i32::MAX as int,
    ensures
        r.x as int == expected@.0,
        r.y as int == expected@.1,
{
    let ghost t = *theme;
    let mut maxw: i32 = 0;
    let mut i: usize = 0;
    while i < lines.len()
        invariant
            i <= lines.len(),
            maxw as int == s_max_line_width(lines@, i as int, t),
        decreases lines.len() - i,
    {
        proof {
            lemma_max_line_width_prefix(lines@, i as int + 1, lines@.len() as int, t);
        }
        let lw = theme.font.string_width(lines[i].as_str());
        if lw > maxw {
            maxw = lw;
        }
        i = i + 1;
    }
    let adv = theme.font.advance_y();
    proof {
        theme.font.lemma_metrics_nonneg(Seq::empty());
        vstd::arithmetic::mul::lemma_mul_nonnegative(adv as int, lines@.len() as int);
    }
    let nl = lines.len();
    proof {
        assert(adv as int == theme.font.spec_advance_y());
        assert(nl as int == lines@.len() as int);
        assert((adv as int) * (nl as int) == expected@.1);
    }
    let h: i32 = if adv == 0 {
        proof {
            assert(expected@.1 == 0) by (nonlinear_arith)
                requires
                    adv as int == 0,
                    (adv as int) * (nl as int) == expected@.1,
            ;
        }
        0
    } else {
        proof {
            assert(nl as int <= i32::MAX as int) by (nonlinear_arith)
                requires
                    1 <= adv as int,
                    0 <= nl as int,
                    (adv as int) * (nl as int) <= i32::MAX as int,
            ;
        }
        adv * (nl as i32)
    };
    proof {
        assert(h as int == expected@.1);
    }
    Vec2 { x: maxw, y: h }
}

/// The minimum size of a block of colored lines.
#[verifier::loop_isolation(false)]
fn text_block_size_msgs<F: TextMeasure>(
    lines: &Vec<(String, crate::geom::Color)>,
    theme: &Theme<F>,
    expected: Ghost<(int, int)>,
) -> (r: Vec2)
    requires
        theme.spec_wf(),
        expected@.0 == s_max_msg_width(lines@, lines@.len() as int, *theme),
        expected@.1 == theme.font.spec_advance_y() * lines@.len(),
        expected@.0 <= i32::MAX as int,
        expected@.1 <= i32::MAX as int,
    ensures
        r.x as int == expected@.0,
        r.y as int == expected@.1,
{
    let ghost t = *theme;
    let mut maxw: i32 = 0;
    let mut i: usize = 0;
    while i < lines.len()
        invariant
            i <= lines.len(),
            maxw as int == s_max_msg_width(lines@, i as int, t),
        decreases lines.len() - i,
    {
        proof {
            lemma_max_msg_width_prefix(lines@, i as int + 1, lines@.len() as int, t);
        }
        let lw = theme.font.string_width(lines[i].0.as_str());
        if lw > maxw {
            maxw = lw;
        }
        i = i + 1;
    }
    let adv = theme.font.advance_y();
    proof {
        theme.font.lemma_metrics_nonneg(Seq::empty());
        vstd::arithmetic::mul::lemma_mul_nonnegative(adv as int, lines@.len() as int);
    }
    let nl = lines.len();
    proof {
        assert(adv as int == theme.font.spec_advance_y());
        assert(nl as int == lines@.len() as int);
        assert((adv as int) * (nl as int) == expected@.1);
    }
    let h: i32 = if adv == 0 {
        proof {
            assert(expected@.1 == 0) by (nonlinear_arith)
                requires
                    adv as int == 0,
                    (adv as int) * (nl as int) == expected@.1,
            ;
        }
        0
    } else {
        proof {
            assert(nl as int <= i32::MAX as int) by (nonlinear_arith)
                requires
                    1 <= adv as int,
                    0 <= nl as int,
                    (adv as int) * (nl as int) <= i32::MAX as int,
            ;
        }
        adv * (nl as i32)
    };
    proof {
        assert(h as int == expected@.1);
    }
    Vec2 { x: maxw, y: h }
}

} // verus!
