//! The top-down rectangle pass.
//!
//! Starting from the surface rectangle, every widget records its own
//! screen rectangle in the rect map and hands each child a sub-rectangle:
//! a stack (`Col`/`Row`) gives each child its minimum extent along the main
//! axis plus a flex-weighted share of the leftover space, truncated to an
//! integer; `Overlap` hands every child its own rectangle; `Inset` shrinks
//! by the theme padding; `NoFill` clips to the minimum size.
//!
//! The leftover space `E` is divided as `trunc(E * flex / F)` per child
//! (`F` the total flex weight), so the shares may sum to less than `E`:
//! the last child's trailing edge is not guaranteed to reach the far edge
//! of the parent. The deficit is bounded by the number of children; see
//! the laws module.

use vstd::prelude::*;
use std::collections::HashMap;
use crate::geom::{Recti, Vec2};
use crate::text::TextMeasure;
use crate::theme::Theme;
use crate::widget::{children_ids, children_unique, children_wf, Widget, WidgetId};
use crate::layout::{children_min_ok, min_map_ok, s_min_size};

verus! {

/// A rectangle in unbounded integer space: `(x0, y0, x1, y1)`.
pub type RectS = (int, int, int, int);

/// The integer-space view of an executable rectangle.
pub open spec fn rect_view(r: Recti) -> RectS {
    (r.start.x as int, r.start.y as int, r.end.x as int, r.end.y as int)
}

/// All four coordinates fit in `i32`.
pub open spec fn rect_in_range(r: RectS) -> bool {
    &&& i32::MIN <= r.0 <= i32::MAX
    &&& i32::MIN <= r.1 <= i32::MAX
    &&& i32::MIN <= r.2 <= i32::MAX
    &&& i32::MIN <= r.3 <= i32::MAX
}

/// Division truncating toward zero, for a positive divisor. This is how
/// leftover space is shared out: a negative leftover shrinks children
/// toward zero symmetrically.
pub open spec fn trunc_div(a: int, b: int) -> int {
    if a >= 0 {
        a / b
    } else {
        -((-a) / b)
    }
}

/// The sum of the first `n` flex weights.
pub open spec fn s_flex_sum(fs: Seq<u32>, n: int) -> int
    decreases n,
{
    if n <= 0 || n > fs.len() {
        0
    } else {
        s_flex_sum(fs, n - 1) + fs[n - 1]
    }
}

/// A child's share of the leftover space `extra`: proportional to its flex
/// weight, truncated. A total flex weight of zero shares nothing (the
/// divisor is read as one, and every weight is then zero).
pub open spec fn s_share(extra: int, flex: int, fsum: int) -> int {
    trunc_div(extra * flex, if fsum == 0 { 1 } else { fsum })
}

/// The main-axis extent a stack gives child `i`: the child's minimum plus
/// its share of the leftover space.
pub open spec fn s_child_extent<F: TextMeasure>(
    cs: Seq<Widget>,
    fs: Seq<u32>,
    i: int,
    t: Theme<F>,
    extra: int,
    fsum: int,
    vertical: bool,
) -> int {
    (if vertical {
        s_min_size(cs[i], t).1
    } else {
        s_min_size(cs[i], t).0
    }) + s_share(extra, fs[i] as int, fsum)
}

/// How far along the main axis child `i` starts, measured from the stack's
/// start: the sum of the extents of the children before it.
pub open spec fn s_stack_off<F: TextMeasure>(
    cs: Seq<Widget>,
    fs: Seq<u32>,
    i: int,
    t: Theme<F>,
    extra: int,
    fsum: int,
    vertical: bool,
) -> int
    decreases i,
{
    if i <= 0 {
        0
    } else {
        s_stack_off(cs, fs, i - 1, t, extra, fsum, vertical) + s_child_extent(
            cs,
            fs,
            i - 1,
            t,
            extra,
            fsum,
            vertical,
        )
    }
}

/// The rectangle a stack with base rectangle `base` gives child `i`.
pub open spec fn s_stack_child_rect<F: TextMeasure>(
    cs: Seq<Widget>,
    fs: Seq<u32>,
    i: int,
    base: RectS,
    t: Theme<F>,
    extra: int,
    fsum: int,
    vertical: bool,
) -> RectS {
    let off = s_stack_off(cs, fs, i, t, extra, fsum, vertical);
    let ext = s_child_extent(cs, fs, i, t, extra, fsum, vertical);
    if vertical {
        (base.0, base.1 + off, base.2, base.1 + off + ext)
    } else {
        (base.0 + off, base.1, base.0 + off + ext, base.3)
    }
}

/// The leftover space along a stack's main axis: the allocated extent
/// minus the stack's minimum extent.
pub open spec fn s_stack_extra<F: TextMeasure>(
    w: Widget,
    r: RectS,
    t: Theme<F>,
    vertical: bool,
) -> int {
    if vertical {
        (r.3 - r.1) - s_min_size(w, t).1
    } else {
        (r.2 - r.0) - s_min_size(w, t).0
    }
}

/// The rectangle a widget records for itself when it is allocated `r`:
/// stacks with no flex weight collapse to their minimum along the main
/// axis, `NoFill` clips to its minimum, `Inset` records `r` widened by
/// twice the padding, and everything else records `r` itself.
pub open spec fn s_own_rect<F: TextMeasure>(w: Widget, r: RectS, t: Theme<F>) -> RectS {
    match w {
        Widget::NoFill(x) => (r.0, r.1, r.0 + s_min_size(w, t).0, r.1 + s_min_size(w, t).1),
        Widget::Col(c) => if s_flex_sum(c.flexes@, c.flexes@.len() as int) == 0 {
            (r.0, r.1, r.2, r.1 + s_min_size(w, t).1)
        } else {
            r
        },
        Widget::Row(rw) => if s_flex_sum(rw.flexes@, rw.flexes@.len() as int) == 0 {
            (r.0, r.1, r.0 + s_min_size(w, t).0, r.3)
        } else {
            r
        },
        Widget::Inset(x) => (r.0, r.1, r.2 + 2 * t.padding, r.3 + 2 * t.padding),
        _ => r,
    }
}

/// The rectangle an `Inset` allocated `r` hands its child: `r` shrunk by
/// the theme padding on all sides.
pub open spec fn s_inset_child_rect<F: TextMeasure>(r: RectS, t: Theme<F>) -> RectS {
    (r.0 + t.padding, r.1 + t.padding, r.2 - t.padding, r.3 - t.padding)
}

/// The rect map records, for this widget allocated `r` and for every
/// descendant, exactly the rectangle the pass assigns.
pub open spec fn rect_map_ok<F: TextMeasure>(
    w: Widget,
    r: RectS,
    t: Theme<F>,
    rm: Map<WidgetId, Recti>,
) -> bool
    decreases w, 0int,
{
    &&& rm.contains_key(w.wid())
    &&& rect_view(rm[w.wid()]) == s_own_rect(w, r, t)
    &&& match w {
        Widget::NoFill(x) => x.children@.len() == 1 ==> rect_map_ok(
            x.children@[0],
            s_own_rect(w, r, t),
            t,
            rm,
        ),
        Widget::Inset(x) => x.children@.len() == 1 ==> rect_map_ok(
            x.children@[0],
            s_inset_child_rect(r, t),
            t,
            rm,
        ),
        Widget::Col(c) => stack_rects_ok(
            c.children@,
            c.flexes@,
            c.children@.len() as int,
            r,
            t,
            rm,
            s_stack_extra(w, r, t, true),
            s_flex_sum(c.flexes@, c.flexes@.len() as int),
            true,
        ),
        Widget::Row(rw) => stack_rects_ok(
            rw.children@,
            rw.flexes@,
            rw.children@.len() as int,
            r,
            t,
            rm,
            s_stack_extra(w, r, t, false),
            s_flex_sum(rw.flexes@, rw.flexes@.len() as int),
            false,
        ),
        Widget::Overlap(o) => overlap_rects_ok(o.children@, o.children@.len() as int, r, t, rm),
        _ => true,
    }
}

/// `rect_map_ok` for the first `n` children of a stack, each with its
/// assigned sub-rectangle.
pub open spec fn stack_rects_ok<F: TextMeasure>(
    cs: Seq<Widget>,
    fs: Seq<u32>,
    n: int,
    base: RectS,
    t: Theme<F>,
    rm: Map<WidgetId, Recti>,
    extra: int,
    fsum: int,
    vertical: bool,
) -> bool
    decreases cs, n,
{
    if n <= 0 || n > cs.len() {
        true
    } else {
        &&& stack_rects_ok(cs, fs, n - 1, base, t, rm, extra, fsum, vertical)
        &&& rect_map_ok(
            cs[n - 1],
            s_stack_child_rect(cs, fs, n - 1, base, t, extra, fsum, vertical),
            t,
            rm,
        )
    }
}

/// `rect_map_ok` for the first `n` children of an overlap, all with the
/// parent's own rectangle.
pub open spec fn overlap_rects_ok<F: TextMeasure>(
    cs: Seq<Widget>,
    n: int,
    r: RectS,
    t: Theme<F>,
    rm: Map<WidgetId, Recti>,
) -> bool
    decreases cs, n,
{
    if n <= 0 || n > cs.len() {
        true
    } else {
        overlap_rects_ok(cs, n - 1, r, t, rm) && rect_map_ok(cs[n - 1], r, t, rm)
    }
}

/// Every coordinate the pass computes in this subtree stays within `i32`:
/// the allocated rectangle, the recorded rectangle, each stack's leftover
/// space and each child's share, extent and sub-rectangle, recursively.
pub open spec fn rect_fits<F: TextMeasure>(w: Widget, r: RectS, t: Theme<F>) -> bool
    decreases w, 0int,
{
    &&& rect_in_range(r)
    &&& rect_in_range(s_own_rect(w, r, t))
    &&& i32::MIN <= s_own_rect(w, r, t).2 - s_own_rect(w, r, t).0 <= i32::MAX
    &&& i32::MIN <= s_own_rect(w, r, t).3 - s_own_rect(w, r, t).1 <= i32::MAX
    &&& match w {
        Widget::NoFill(x) => x.children@.len() == 1 ==> rect_fits(
            x.children@[0],
            s_own_rect(w, r, t),
            t,
        ),
        Widget::Inset(x) => {
            &&& i32::MIN <= 2 * t.padding <= i32::MAX
            &&& (x.children@.len() == 1 ==> rect_fits(x.children@[0], s_inset_child_rect(r, t), t))
        },
        Widget::Col(c) => {
            let fsum = s_flex_sum(c.flexes@, c.flexes@.len() as int);
            let extra = s_stack_extra(w, r, t, true);
            &&& i32::MIN <= r.3 - r.1 <= i32::MAX
            &&& i32::MIN <= extra <= i32::MAX
            &&& fsum <= u64::MAX
            &&& stack_children_fit(
                c.children@,
                c.flexes@,
                c.children@.len() as int,
                r,
                t,
                extra,
                fsum,
                true,
            )
        },
        Widget::Row(rw) => {
            let fsum = s_flex_sum(rw.flexes@, rw.flexes@.len() as int);
            let extra = s_stack_extra(w, r, t, false);
            &&& i32::MIN <= r.2 - r.0 <= i32::MAX
            &&& i32::MIN <= extra <= i32::MAX
            &&& fsum <= u64::MAX
            &&& stack_children_fit(
                rw.children@,
                rw.flexes@,
                rw.children@.len() as int,
                r,
                t,
                extra,
                fsum,
                false,
            )
        },
        Widget::Overlap(o) => overlap_children_fit(o.children@, o.children@.len() as int, r, t),
        _ => true,
    }
}

/// `rect_fits` for the first `n` children of a stack, with the share and
/// extent arithmetic of each child in range.
pub open spec fn stack_children_fit<F: TextMeasure>(
    cs: Seq<Widget>,
    fs: Seq<u32>,
    n: int,
    base: RectS,
    t: Theme<F>,
    extra: int,
    fsum: int,
    vertical: bool,
) -> bool
    decreases cs, n,
{
    if n <= 0 || n > cs.len() {
        true
    } else {
        &&& stack_children_fit(cs, fs, n - 1, base, t, extra, fsum, vertical)
        &&& i32::MIN <= s_share(extra, fs[n - 1] as int, fsum) <= i32::MAX
        &&& i32::MIN <= s_child_extent(cs, fs, n - 1, t, extra, fsum, vertical) <= i32::MAX
        &&& rect_fits(cs[n - 1], s_stack_child_rect(cs, fs, n - 1, base, t, extra, fsum, vertical), t)
    }
}

/// `rect_fits` for the first `n` children of an overlap.
pub open spec fn overlap_children_fit<F: TextMeasure>(
    cs: Seq<Widget>,
    n: int,
    r: RectS,
    t: Theme<F>,
) -> bool
    decreases cs, n,
{
    if n <= 0 || n > cs.len() {
        true
    } else {
        overlap_children_fit(cs, n - 1, r, t) && rect_fits(cs[n - 1], r, t)
    }
}

/// Flex weights sum to something nonnegative.
pub proof fn lemma_flex_sum_nonneg(fs: Seq<u32>, n: int)
    ensures
        0 <= s_flex_sum(fs, n),
    decreases n,
{
    if 0 < n <= fs.len() {
        lemma_flex_sum_nonneg(fs, n - 1);
    }
}

/// A prefix of the flex weights sums to no more than the whole.
pub proof fn lemma_flex_sum_prefix(fs: Seq<u32>, i: int, n: int)
    requires
        0 <= i <= n <= fs.len(),
    ensures
        0 <= s_flex_sum(fs, i) <= s_flex_sum(fs, n),
    decreases n,
{
    lemma_flex_sum_nonneg(fs, i);
    if i < n {
        lemma_flex_sum_prefix(fs, i, n - 1);
    }
}

/// Each child of a fitting stack prefix fits, with its arithmetic in
/// range.
pub proof fn lemma_stack_children_fit_at<F: TextMeasure>(
    cs: Seq<Widget>,
    fs: Seq<u32>,
    i: int,
    n: int,
    base: RectS,
    t: Theme<F>,
    extra: int,
    fsum: int,
    vertical: bool,
)
    requires
        stack_children_fit(cs, fs, n, base, t, extra, fsum, vertical),
        0 <= i < n <= cs.len(),
    ensures
        i32::MIN <= s_share(extra, fs[i] as int, fsum) <= i32::MAX,
        i32::MIN <= s_child_extent(cs, fs, i, t, extra, fsum, vertical) <= i32::MAX,
        rect_fits(cs[i], s_stack_child_rect(cs, fs, i, base, t, extra, fsum, vertical), t),
    decreases n,
{
    if i < n - 1 {
        lemma_stack_children_fit_at(cs, fs, i, n - 1, base, t, extra, fsum, vertical);
    }
}

/// Each child of a fitting overlap prefix fits.
pub proof fn lemma_overlap_children_fit_at<F: TextMeasure>(
    cs: Seq<Widget>,
    i: int,
    n: int,
    r: RectS,
    t: Theme<F>,
)
    requires
        overlap_children_fit(cs, n, r, t),
        0 <= i < n <= cs.len(),
    ensures
        rect_fits(cs[i], r, t),
    decreases n,
{
    if i < n - 1 {
        lemma_overlap_children_fit_at(cs, i, n - 1, r, t);
    }
}

/// A recorded rectangle whose extents fit in `i32`, so that positions
/// inside it can be translated into its local frame.
pub open spec fn rect_size_ok(rc: Recti) -> bool {
    &&& i32::MIN <= rc.end.x - rc.start.x <= i32::MAX
    &&& i32::MIN <= rc.end.y - rc.start.y <= i32::MAX
}

/// The rect map holds a rectangle with a representable size for every node
/// of the subtree: what the event router needs of a stored frame.
pub open spec fn rects_ready(w: Widget, rm: Map<WidgetId, Recti>) -> bool {
    forall|k: WidgetId| #[trigger]
        w.widget_ids().contains(k) ==> rm.contains_key(k) && rect_size_ok(rm[k])
}

/// After the rectangle pass, the rect map is ready for routing: every node
/// of the laid-out tree has a recorded rectangle of representable size.
pub proof fn lemma_rects_ready<F: TextMeasure>(
    w: Widget,
    r: RectS,
    t: Theme<F>,
    rm: Map<WidgetId, Recti>,
)
    requires
        w.wf(),
        rect_map_ok(w, r, t, rm),
        rect_fits(w, r, t),
    ensures
        rects_ready(w, rm),
    decreases w, 1int,
{
    match w {
        Widget::NoFill(x) => {
            if x.children@.len() == 1 {
                lemma_rects_ready(x.children@[0], s_own_rect(w, r, t), t, rm);
            }
            assert forall|k: WidgetId| #[trigger] w.widget_ids().contains(k) implies rm.contains_key(
                k,
            ) && rect_size_ok(rm[k]) by {
                assert(x.children@.len() == 1);
                assert(w.widget_ids() == children_ids(
                    x.children@,
                    x.children@.len() as int,
                ).insert(x.id));
                if k != x.id {
                    assert(children_ids(x.children@, 1).contains(k));
                    assert(!children_ids(x.children@, 0).contains(k));
                    assert(x.children@[0].widget_ids().contains(k));
                }
            }
        },
        Widget::Inset(x) => {
            if x.children@.len() == 1 {
                lemma_rects_ready(x.children@[0], s_inset_child_rect(r, t), t, rm);
            }
            assert forall|k: WidgetId| #[trigger] w.widget_ids().contains(k) implies rm.contains_key(
                k,
            ) && rect_size_ok(rm[k]) by {
                assert(x.children@.len() == 1);
                assert(w.widget_ids() == children_ids(
                    x.children@,
                    x.children@.len() as int,
                ).insert(x.id));
                if k != x.id {
                    assert(children_ids(x.children@, 1).contains(k));
                    assert(!children_ids(x.children@, 0).contains(k));
                    assert(x.children@[0].widget_ids().contains(k));
                }
            }
        },
        Widget::Col(c) => {
            let n = c.children@.len() as int;
            let fsum = s_flex_sum(c.flexes@, n);
            lemma_stack_rects_ready(
                c.children@,
                c.flexes@,
                n,
                r,
                t,
                rm,
                s_stack_extra(w, r, t, true),
                fsum,
                true,
            );
            assert forall|k: WidgetId| #[trigger] w.widget_ids().contains(k) implies rm.contains_key(
                k,
            ) && rect_size_ok(rm[k]) by {
                if k != w.wid() {
                    assert(children_ids(c.children@, n).contains(k));
                }
            }
        },
        Widget::Row(rw) => {
            let n = rw.children@.len() as int;
            let fsum = s_flex_sum(rw.flexes@, n);
            lemma_stack_rects_ready(
                rw.children@,
                rw.flexes@,
                n,
                r,
                t,
                rm,
                s_stack_extra(w, r, t, false),
                fsum,
                false,
            );
            assert forall|k: WidgetId| #[trigger] w.widget_ids().contains(k) implies rm.contains_key(
                k,
            ) && rect_size_ok(rm[k]) by {
                if k != w.wid() {
                    assert(children_ids(rw.children@, n).contains(k));
                }
            }
        },
        Widget::Overlap(o) => {
            let n = o.children@.len() as int;
            lemma_overlap_rects_ready(o.children@, n, r, t, rm);
            assert forall|k: WidgetId| #[trigger] w.widget_ids().contains(k) implies rm.contains_key(
                k,
            ) && rect_size_ok(rm[k]) by {
                if k != w.wid() {
                    assert(children_ids(o.children@, n).contains(k));
                }
            }
        },
        _ => {
            assert forall|k: WidgetId| #[trigger] w.widget_ids().contains(k) implies rm.contains_key(
                k,
            ) && rect_size_ok(rm[k]) by {
                assert(k == w.wid());
            }
        },
    }
}

proof fn lemma_stack_rects_ready<F: TextMeasure>(
    cs: Seq<Widget>,
    fs: Seq<u32>,
    n: int,
    base: RectS,
    t: Theme<F>,
    rm: Map<WidgetId, Recti>,
    extra: int,
    fsum: int,
    vertical: bool,
)
    requires
        children_wf(cs, n),
        stack_rects_ok(cs, fs, n, base, t, rm, extra, fsum, vertical),
        stack_children_fit(cs, fs, n, base, t, extra, fsum, vertical),
    ensures
        forall|k: WidgetId| #[trigger]
            children_ids(cs, n).contains(k) ==> rm.contains_key(k) && rect_size_ok(rm[k]),
    decreases cs, n,
{
    if 0 < n <= cs.len() {
        lemma_stack_rects_ready(cs, fs, n - 1, base, t, rm, extra, fsum, vertical);
        crate::layout::lemma_children_wf_at(cs, n - 1, n);
        lemma_rects_ready(
            cs[n - 1],
            s_stack_child_rect(cs, fs, n - 1, base, t, extra, fsum, vertical),
            t,
            rm,
        );
        assert forall|k: WidgetId| #[trigger] children_ids(cs, n).contains(k) implies rm.contains_key(
            k,
        ) && rect_size_ok(rm[k]) by {
            if !children_ids(cs, n - 1).contains(k) {
                assert(cs[n - 1].widget_ids().contains(k));
            }
        }
    }
}

proof fn lemma_overlap_rects_ready<F: TextMeasure>(
    cs: Seq<Widget>,
    n: int,
    r: RectS,
    t: Theme<F>,
    rm: Map<WidgetId, Recti>,
)
    requires
        children_wf(cs, n),
        overlap_rects_ok(cs, n, r, t, rm),
        overlap_children_fit(cs, n, r, t),
    ensures
        forall|k: WidgetId| #[trigger]
            children_ids(cs, n).contains(k) ==> rm.contains_key(k) && rect_size_ok(rm[k]),
    decreases cs, n,
{
    if 0 < n <= cs.len() {
        lemma_overlap_rects_ready(cs, n - 1, r, t, rm);
        crate::layout::lemma_children_wf_at(cs, n - 1, n);
        lemma_rects_ready(cs[n - 1], r, t, rm);
        assert forall|k: WidgetId| #[trigger] children_ids(cs, n).contains(k) implies rm.contains_key(
            k,
        ) && rect_size_ok(rm[k]) by {
            if !children_ids(cs, n - 1).contains(k) {
                assert(cs[n - 1].widget_ids().contains(k));
            }
        }
    }
}

/// Recording more rectangles under other ids never invalidates a recorded
/// subtree.
pub proof fn lemma_rect_map_ok_frame<F: TextMeasure>(
    w: Widget,
    r: RectS,
    t: Theme<F>,
    rm1: Map<WidgetId, Recti>,
    rm2: Map<WidgetId, Recti>,
)
    requires
        rect_map_ok(w, r, t, rm1),
        forall|k: WidgetId| #[trigger]
            w.widget_ids().contains(k) ==> rm2.contains_key(k) && rm2[k] == rm1[k],
    ensures
        rect_map_ok(w, r, t, rm2),
    decreases w, 1int,
{
    assert(w.widget_ids().contains(w.wid()));
    match w {
        Widget::NoFill(x) => {
            if x.children@.len() == 1 {
                assert forall|k: WidgetId| #[trigger] x.children@[0].widget_ids().contains(
                    k,
                ) implies rm2.contains_key(k) && rm2[k] == rm1[k] by {
                    assert(children_ids(x.children@, 1).contains(k));
                    assert(w.widget_ids().contains(k));
                }
                lemma_rect_map_ok_frame(x.children@[0], s_own_rect(w, r, t), t, rm1, rm2);
            }
        },
        Widget::Inset(x) => {
            if x.children@.len() == 1 {
                assert forall|k: WidgetId| #[trigger] x.children@[0].widget_ids().contains(
                    k,
                ) implies rm2.contains_key(k) && rm2[k] == rm1[k] by {
                    assert(children_ids(x.children@, 1).contains(k));
                    assert(w.widget_ids().contains(k));
                }
                lemma_rect_map_ok_frame(x.children@[0], s_inset_child_rect(r, t), t, rm1, rm2);
            }
        },
        Widget::Col(c) => {
            assert forall|k: WidgetId| #[trigger]
                children_ids(c.children@, c.children@.len() as int).contains(
                    k,
                ) implies rm2.contains_key(k) && rm2[k] == rm1[k] by {
                assert(w.widget_ids().contains(k));
            }
            lemma_stack_rects_ok_frame(
                c.children@,
                c.flexes@,
                c.children@.len() as int,
                r,
                t,
                rm1,
                rm2,
                s_stack_extra(w, r, t, true),
                s_flex_sum(c.flexes@, c.flexes@.len() as int),
                true,
            );
        },
        Widget::Row(rw) => {
            assert forall|k: WidgetId| #[trigger]
                children_ids(rw.children@, rw.children@.len() as int).contains(
                    k,
                ) implies rm2.contains_key(k) && rm2[k] == rm1[k] by {
                assert(w.widget_ids().contains(k));
            }
            lemma_stack_rects_ok_frame(
                rw.children@,
                rw.flexes@,
                rw.children@.len() as int,
                r,
                t,
                rm1,
                rm2,
                s_stack_extra(w, r, t, false),
                s_flex_sum(rw.flexes@, rw.flexes@.len() as int),
                false,
            );
        },
        Widget::Overlap(o) => {
            assert forall|k: WidgetId| #[trigger]
                children_ids(o.children@, o.children@.len() as int).contains(
                    k,
                ) implies rm2.contains_key(k) && rm2[k] == rm1[k] by {
                assert(w.widget_ids().contains(k));
            }
            lemma_overlap_rects_ok_frame(o.children@, o.children@.len() as int, r, t, rm1, rm2);
        },
        _ => {},
    }
}

proof fn lemma_stack_rects_ok_frame<F: TextMeasure>(
    cs: Seq<Widget>,
    fs: Seq<u32>,
    n: int,
    base: RectS,
    t: Theme<F>,
    rm1: Map<WidgetId, Recti>,
    rm2: Map<WidgetId, Recti>,
    extra: int,
    fsum: int,
    vertical: bool,
)
    requires
        stack_rects_ok(cs, fs, n, base, t, rm1, extra, fsum, vertical),
        forall|k: WidgetId| #[trigger]
            children_ids(cs, n).contains(k) ==> rm2.contains_key(k) && rm2[k] == rm1[k],
    ensures
        stack_rects_ok(cs, fs, n, base, t, rm2, extra, fsum, vertical),
    decreases cs, n,
{
    if 0 < n <= cs.len() {
        assert forall|k: WidgetId| #[trigger] children_ids(cs, n - 1).contains(k) implies rm2.contains_key(
            k,
        ) && rm2[k] == rm1[k] by {
            crate::layout::lemma_children_ids_subset(cs, n - 1, n);
            assert(children_ids(cs, n).contains(k));
        }
        lemma_stack_rects_ok_frame(cs, fs, n - 1, base, t, rm1, rm2, extra, fsum, vertical);
        assert forall|k: WidgetId| #[trigger] cs[n - 1].widget_ids().contains(k) implies rm2.contains_key(
            k,
        ) && rm2[k] == rm1[k] by {
            assert(children_ids(cs, n).contains(k));
        }
        lemma_rect_map_ok_frame(
            cs[n - 1],
            s_stack_child_rect(cs, fs, n - 1, base, t, extra, fsum, vertical),
            t,
            rm1,
            rm2,
        );
    }
}

proof fn lemma_overlap_rects_ok_frame<F: TextMeasure>(
    cs: Seq<Widget>,
    n: int,
    r: RectS,
    t: Theme<F>,
    rm1: Map<WidgetId, Recti>,
    rm2: Map<WidgetId, Recti>,
)
    requires
        overlap_rects_ok(cs, n, r, t, rm1),
        forall|k: WidgetId| #[trigger]
            children_ids(cs, n).contains(k) ==> rm2.contains_key(k) && rm2[k] == rm1[k],
    ensures
        overlap_rects_ok(cs, n, r, t, rm2),
    decreases cs, n,
{
    if 0 < n <= cs.len() {
        assert forall|k: WidgetId| #[trigger] children_ids(cs, n - 1).contains(k) implies rm2.contains_key(
            k,
        ) && rm2[k] == rm1[k] by {
            crate::layout::lemma_children_ids_subset(cs, n - 1, n);
            assert(children_ids(cs, n).contains(k));
        }
        lemma_overlap_rects_ok_frame(cs, n - 1, r, t, rm1, rm2);
        assert forall|k: WidgetId| #[trigger] cs[n - 1].widget_ids().contains(k) implies rm2.contains_key(
            k,
        ) && rm2[k] == rm1[k] by {
            assert(children_ids(cs, n).contains(k));
        }
        lemma_rect_map_ok_frame(cs[n - 1], r, t, rm1, rm2);
    }
}

/// Sums the flex weights of a stack's children.
#[verifier::loop_isolation(false)]
fn flex_sum(flexes: &Vec<u32>) -> (r: u64)
    requires
        s_flex_sum(flexes@, flexes@.len() as int) <= u64::MAX as int,
    ensures
        r as int == s_flex_sum(flexes@, flexes@.len() as int),
{
    let mut sum: u64 = 0;
    let mut i: usize = 0;
    while i < flexes.len()
        invariant
            i <= flexes.len(),
            sum as int == s_flex_sum(flexes@, i as int),
        decreases flexes.len() - i,
    {
        proof {
            lemma_flex_sum_prefix(flexes@, i as int + 1, flexes@.len() as int);
        }
        sum = sum + (flexes[i] as u64);
        i = i + 1;
    }
    sum
}

/// One child's share of the leftover space: `trunc(extra * flex / fsum)`,
/// toward zero, with a zero total weight sharing nothing.
fn compute_share(extra: i32, flex: u32, fsum: u64) -> (r: i32)
    requires
        i32::MIN <= s_share(extra as int, flex as int, fsum as int) <= i32::MAX,
    ensures
        r as int == s_share(extra as int, flex as int, fsum as int),
{
    let d: u64 = if fsum == 0 {
        1
    } else {
        fsum
    };
    let neg = extra < 0;
    let mag: u64 = if extra >= 0 {
        extra as u64
    } else {
        (-(extra as i64)) as u64
    };
    proof {
        assert(mag * (flex as u64) <= 0x8000_0000_0000_0000u64) by (nonlinear_arith)
            requires
                mag <= 0x8000_0000u64,
                flex <= 0xffff_ffffu64,
        ;
    }
    let num: u64 = mag * (flex as u64);
    let q: u64 = num / d;
    if neg {
        proof {
            assert((extra as int) * (flex as int) == -((mag as int) * (flex as int)))
                by (nonlinear_arith)
                requires
                    mag as int == -(extra as int),
            ;
            assert((extra as int) * (flex as int) <= 0) by (nonlinear_arith)
                requires
                    extra as int <= 0,
                    0 <= flex as int,
            ;
            assert(s_share(extra as int, flex as int, fsum as int) == -(q as int));
        }
        (-(q as i64)) as i32
    } else {
        proof {
            assert((extra as int) * (flex as int) == (mag as int) * (flex as int));
            assert(0 <= (extra as int) * (flex as int)) by (nonlinear_arith)
                requires
                    0 <= extra as int,
                    0 <= flex as int,
            ;
        }
        q as i32
    }
}

/// Lays out the children of a stack: each child is placed consecutively
/// from the base rectangle's start, with its minimum extent plus its flex
/// share along the main axis and the base's full cross extent.
#[verifier::loop_isolation(false)]
fn compute_stack_rects<F: TextMeasure>(
    children: &Vec<Widget>,
    flexes: &Vec<u32>,
    base: Recti,
    extra: i32,
    fsum: u64,
    vertical: bool,
    theme: &Theme<F>,
    min_sizes: &HashMap<WidgetId, Vec2>,
    widget_rects: &mut HashMap<WidgetId, Recti>,
)
    requires
        theme.spec_wf(),
        children@.len() == flexes@.len(),
        children_wf(children@, children@.len() as int),
        children_unique(children@, children@.len() as int),
        children_min_ok(children@, children@.len() as int, *theme, min_sizes@),
        fsum as int == s_flex_sum(flexes@, flexes@.len() as int),
        stack_children_fit(
            children@,
            flexes@,
            children@.len() as int,
            rect_view(base),
            *theme,
            extra as int,
            fsum as int,
            vertical,
        ),
        old(widget_rects)@.dom().disjoint(children_ids(children@, children@.len() as int)),
    ensures
        final(widget_rects)@.dom() == old(widget_rects)@.dom().union(
            children_ids(children@, children@.len() as int),
        ),
        forall|k: WidgetId| #[trigger]
            old(widget_rects)@.dom().contains(k) ==> final(widget_rects)@.contains_key(k)
                && final(widget_rects)@[k] == old(widget_rects)@[k],
        stack_rects_ok(
            children@,
            flexes@,
            children@.len() as int,
            rect_view(base),
            *theme,
            final(widget_rects)@,
            extra as int,
            fsum as int,
            vertical,
        ),
    decreases children@,
{
    let ghost cs = children@;
    let ghost fseq = flexes@;
    let ghost n = children@.len() as int;
    let ghost t = *theme;
    let ghost b = rect_view(base);
    let mut i: usize = 0;
    let mut cur: i32 = if vertical {
        base.start.y
    } else {
        base.start.x
    };
    proof {
        assert(widget_rects@.dom() =~= old(widget_rects)@.dom().union(children_ids(cs, 0)));
    }
    while i < children.len()
        invariant
            i <= children.len(),
            cur as int == (if vertical {
                b.1
            } else {
                b.0
            }) + s_stack_off(cs, fseq, i as int, t, extra as int, fsum as int, vertical),
            widget_rects@.dom() == old(widget_rects)@.dom().union(children_ids(cs, i as int)),
            forall|k: WidgetId| #[trigger]
                old(widget_rects)@.dom().contains(k) ==> widget_rects@.contains_key(k)
                    && widget_rects@[k] == old(widget_rects)@[k],
            stack_rects_ok(
                cs,
                fseq,
                i as int,
                b,
                t,
                widget_rects@,
                extra as int,
                fsum as int,
                vertical,
            ),
        decreases children.len() - i,
    {
        let ghost ii = i as int;
        proof {
            crate::layout::lemma_children_wf_at(cs, ii, n);
            crate::layout::lemma_children_unique_at(cs, ii, n);
            crate::layout::lemma_children_min_ok_at(cs, ii, n, t, min_sizes@);
            lemma_stack_children_fit_at(cs, fseq, ii, n, b, t, extra as int, fsum as int, vertical);
            crate::layout::lemma_children_ids_subset(cs, ii + 1, n);
            assert forall|k: WidgetId| #[trigger] cs[ii].widget_ids().contains(k) implies !widget_rects@.dom().contains(
                k,
            ) by {
                assert(children_ids(cs, ii + 1).contains(k));
                assert(children_ids(cs, n).contains(k));
            }
            assert(widget_rects@.dom().disjoint(cs[ii].widget_ids()));
        }
        let cid = children[i].id();
        let cm: Vec2 = match min_sizes.get(&cid) {
            Some(v) => *v,
            None => {
                proof {
                    assert(false);
                }
                Vec2 { x: 0, y: 0 }
            },
        };
        proof {
            assert(cm.x as int == s_min_size(cs[ii], t).0);
            assert(cm.y as int == s_min_size(cs[ii], t).1);
        }
        let sh = compute_share(extra, flexes[i], fsum);
        let ext: i32 = if vertical {
            cm.y + sh
        } else {
            cm.x + sh
        };
        let crect: Recti = if vertical {
            Recti {
                start: Vec2 { x: base.start.x, y: cur },
                end: Vec2 { x: base.end.x, y: cur + ext },
            }
        } else {
            Recti {
                start: Vec2 { x: cur, y: base.start.y },
                end: Vec2 { x: cur + ext, y: base.end.y },
            }
        };
        proof {
            assert(rect_view(crect) == s_stack_child_rect(
                cs,
                fseq,
                ii,
                b,
                t,
                extra as int,
                fsum as int,
                vertical,
            ));
        }
        let ghost rm0 = widget_rects@;
        compute_rects(&children[i], crect, theme, min_sizes, widget_rects);
        proof {
            assert forall|k: WidgetId| #[trigger] children_ids(cs, ii).contains(k) implies widget_rects@.contains_key(
                k,
            ) && widget_rects@[k] == rm0[k] by {
                assert(rm0.dom().contains(k));
            }
            lemma_stack_rects_ok_frame(
                cs,
                fseq,
                ii,
                b,
                t,
                rm0,
                widget_rects@,
                extra as int,
                fsum as int,
                vertical,
            );
            assert(widget_rects@.dom() =~= old(widget_rects)@.dom().union(
                children_ids(cs, ii + 1),
            ));
        }
        cur = cur + ext;
        i = i + 1;
    }
}

/// Lays out the children of an overlap: every child gets the parent's own
/// rectangle.
#[verifier::loop_isolation(false)]
fn compute_overlap_rects<F: TextMeasure>(
    children: &Vec<Widget>,
    own: Recti,
    theme: &Theme<F>,
    min_sizes: &HashMap<WidgetId, Vec2>,
    widget_rects: &mut HashMap<WidgetId, Recti>,
)
    requires
        theme.spec_wf(),
        children_wf(children@, children@.len() as int),
        children_unique(children@, children@.len() as int),
        children_min_ok(children@, children@.len() as int, *theme, min_sizes@),
        overlap_children_fit(children@, children@.len() as int, rect_view(own), *theme),
        old(widget_rects)@.dom().disjoint(children_ids(children@, children@.len() as int)),
    ensures
        final(widget_rects)@.dom() == old(widget_rects)@.dom().union(
            children_ids(children@, children@.len() as int),
        ),
        forall|k: WidgetId| #[trigger]
            old(widget_rects)@.dom().contains(k) ==> final(widget_rects)@.contains_key(k)
                && final(widget_rects)@[k] == old(widget_rects)@[k],
        overlap_rects_ok(
            children@,
            children@.len() as int,
            rect_view(own),
            *theme,
            final(widget_rects)@,
        ),
    decreases children@,
{
    let ghost cs = children@;
    let ghost n = children@.len() as int;
    let ghost t = *theme;
    let mut i: usize = 0;
    proof {
        assert(widget_rects@.dom() =~= old(widget_rects)@.dom().union(children_ids(cs, 0)));
    }
    while i < children.len()
        invariant
            i <= children.len(),
            widget_rects@.dom() == old(widget_rects)@.dom().union(children_ids(cs, i as int)),
            forall|k: WidgetId| #[trigger]
                old(widget_rects)@.dom().contains(k) ==> widget_rects@.contains_key(k)
                    && widget_rects@[k] == old(widget_rects)@[k],
            overlap_rects_ok(cs, i as int, rect_view(own), t, widget_rects@),
        decreases children.len() - i,
    {
        let ghost ii = i as int;
        proof {
            crate::layout::lemma_children_wf_at(cs, ii, n);
            crate::layout::lemma_children_unique_at(cs, ii, n);
            crate::layout::lemma_children_min_ok_at(cs, ii, n, t, min_sizes@);
            lemma_overlap_children_fit_at(cs, ii, n, rect_view(own), t);
            crate::layout::lemma_children_ids_subset(cs, ii + 1, n);
            assert forall|k: WidgetId| #[trigger] cs[ii].widget_ids().contains(k) implies !widget_rects@.dom().contains(
                k,
            ) by {
                assert(children_ids(cs, ii + 1).contains(k));
                assert(children_ids(cs, n).contains(k));
            }
            assert(widget_rects@.dom().disjoint(cs[ii].widget_ids()));
        }
        let ghost rm0 = widget_rects@;
        compute_rects(&children[i], own, theme, min_sizes, widget_rects);
        proof {
            assert forall|k: WidgetId| #[trigger] children_ids(cs, ii).contains(k) implies widget_rects@.contains_key(
                k,
            ) && widget_rects@[k] == rm0[k] by {
                assert(rm0.dom().contains(k));
            }
            lemma_overlap_rects_ok_frame(cs, ii, rect_view(own), t, rm0, widget_rects@);
            assert(widget_rects@.dom() =~= old(widget_rects)@.dom().union(
                children_ids(cs, ii + 1),
            ));
        }
        i = i + 1;
    }
}

/// The top-down rectangle pass: records this widget's own rectangle in
/// `widget_rects` and, for containers, lays out every descendant within
/// the sub-rectangles described at the module level.
#[verifier::rlimit(50)]
pub fn compute_rects<F: TextMeasure>(
    widget: &Widget,
    rect: Recti,
    theme: &Theme<F>,
    min_sizes: &HashMap<WidgetId, Vec2>,
    widget_rects: &mut HashMap<WidgetId, Recti>,
)
    requires
        widget.wf(),
        widget.ids_unique(),
        theme.spec_wf(),
        min_map_ok(*widget, *theme, min_sizes@),
        rect_fits(*widget, rect_view(rect), *theme),
        old(widget_rects)@.dom().disjoint(widget.widget_ids()),
    ensures
        final(widget_rects)@.dom() == old(widget_rects)@.dom().union(widget.widget_ids()),
        forall|k: WidgetId| #[trigger]
            old(widget_rects)@.dom().contains(k) ==> final(widget_rects)@.contains_key(k)
                && final(widget_rects)@[k] == old(widget_rects)@[k],
        rect_map_ok(*widget, rect_view(rect), *theme, final(widget_rects)@),
    decreases *widget,
{
    let ghost w = *widget;
    let ghost t = *theme;
    let ghost r = rect_view(rect);
    proof {
        assert(w.widget_ids().contains(w.wid()));
    }
    let id = widget.id();
    let own_min: Vec2 = match widget {
        Widget::NoFill(_) | Widget::Col(_) | Widget::Row(_) => {
            match min_sizes.get(&id) {
                Some(v) => *v,
                None => {
                    proof {
                        assert(false);
                    }
                    Vec2 { x: 0, y: 0 }
                },
            }
        },
        _ => Vec2 { x: 0, y: 0 },
    };
    match widget {
        Widget::NoFill(x) => {
            proof {
                assert(own_min.x as int == s_min_size(w, t).0);
                assert(own_min.y as int == s_min_size(w, t).1);
            }
            let own = Recti {
                start: rect.start,
                end: Vec2 { x: rect.start.x + own_min.x, y: rect.start.y + own_min.y },
            };
            widget_rects.insert(x.id, own);
            let ghost cs = x.children@;
            proof {
                crate::layout::lemma_children_wf_at(cs, 0, 1);
                crate::layout::lemma_children_unique_at(cs, 0, 1);
                crate::layout::lemma_children_min_ok_at(cs, 0, 1, t, min_sizes@);
                assert forall|k: WidgetId| #[trigger] cs[0].widget_ids().contains(k) implies !widget_rects@.dom().contains(
                    k,
                ) by {
                    assert(children_ids(cs, 1).contains(k));
                    assert(w.widget_ids().contains(k));
                    assert(k != x.id);
                }
                assert(widget_rects@.dom().disjoint(cs[0].widget_ids()));
            }
            let ghost rm0 = widget_rects@;
            compute_rects(&x.children[0], own, theme, min_sizes, widget_rects);
            proof {
                assert(widget_rects@.dom() =~= old(widget_rects)@.dom().union(w.widget_ids()));
                assert(rm0.dom().contains(x.id));
                assert(rect_view(widget_rects@[x.id]) == s_own_rect(w, r, t));
                assert(rect_map_ok(w, r, t, widget_rects@));
                assert forall|k: WidgetId| #[trigger] old(widget_rects)@.dom().contains(
                    k,
                ) implies widget_rects@.contains_key(k) && widget_rects@[k] == old(
                    widget_rects,
                )@[k] by {
                    assert(k != x.id);
                    assert(rm0.dom().contains(k));
                }
            }
        },
        Widget::Inset(x) => {
            let pad = theme.padding;
            proof {
                assert(x.children@.len() == 1);
                assert(rect_fits(x.children@[0], s_inset_child_rect(r, t), t));
                assert(rect_in_range(s_inset_child_rect(r, t)));
            }
            let own = Recti {
                start: rect.start,
                end: Vec2 { x: rect.end.x + 2 * pad, y: rect.end.y + 2 * pad },
            };
            widget_rects.insert(x.id, own);
            let child_rect = Recti {
                start: Vec2 { x: rect.start.x + pad, y: rect.start.y + pad },
                end: Vec2 { x: rect.end.x - pad, y: rect.end.y - pad },
            };
            let ghost cs = x.children@;
            proof {
                crate::layout::lemma_children_wf_at(cs, 0, 1);
                crate::layout::lemma_children_unique_at(cs, 0, 1);
                crate::layout::lemma_children_min_ok_at(cs, 0, 1, t, min_sizes@);
                assert forall|k: WidgetId| #[trigger] cs[0].widget_ids().contains(k) implies !widget_rects@.dom().contains(
                    k,
                ) by {
                    assert(children_ids(cs, 1).contains(k));
                    assert(w.widget_ids().contains(k));
                    assert(k != x.id);
                }
                assert(widget_rects@.dom().disjoint(cs[0].widget_ids()));
            }
            let ghost rm1 = widget_rects@;
            compute_rects(&x.children[0], child_rect, theme, min_sizes, widget_rects);
            proof {
                assert(widget_rects@.dom() =~= old(widget_rects)@.dom().union(w.widget_ids()));
                assert(rm1.dom().contains(x.id));
                assert(rect_view(widget_rects@[x.id]) == s_own_rect(w, r, t));
                assert(rect_map_ok(w, r, t, widget_rects@));
                assert forall|k: WidgetId| #[trigger] old(widget_rects)@.dom().contains(
                    k,
                ) implies widget_rects@.contains_key(k) && widget_rects@[k] == old(
                    widget_rects,
                )@[k] by {
                    assert(k != x.id);
                    assert(rm1.dom().contains(k));
                }
            }
        },
        Widget::Col(c) => {
            proof {
                assert(own_min.y as int == s_min_size(w, t).1);
            }
            let fsum = flex_sum(&c.flexes);
            let size_main = rect.end.y - rect.start.y;
            let extra = size_main - own_min.y;
            let own = if fsum == 0 {
                Recti {
                    start: rect.start,
                    end: Vec2 { x: rect.end.x, y: rect.start.y + own_min.y },
                }
            } else {
                rect
            };
            widget_rects.insert(c.id, own);
            let ghost cs = c.children@;
            let ghost n = cs.len() as int;
            proof {
                assert forall|k: WidgetId| #[trigger] children_ids(cs, n).contains(k) implies !widget_rects@.dom().contains(
                    k,
                ) by {
                    assert(w.widget_ids().contains(k));
                    assert(k != c.id);
                }
                assert(widget_rects@.dom().disjoint(children_ids(cs, n)));
            }
            let ghost rm1 = widget_rects@;
            compute_stack_rects(
                &c.children,
                &c.flexes,
                rect,
                extra,
                fsum,
                true,
                theme,
                min_sizes,
                widget_rects,
            );
            proof {
                assert(widget_rects@.dom() =~= old(widget_rects)@.dom().union(w.widget_ids()));
                assert forall|k: WidgetId| #[trigger] old(widget_rects)@.dom().contains(
                    k,
                ) implies widget_rects@.contains_key(k) && widget_rects@[k] == old(
                    widget_rects,
                )@[k] by {
                    assert(k != c.id);
                    assert(rm1.dom().contains(k));
                }
                assert(rm1.dom().contains(c.id));
                assert(rect_view(widget_rects@[c.id]) == s_own_rect(w, r, t));
                assert(rect_map_ok(w, r, t, widget_rects@));
            }
        },
        Widget::Row(rw) => {
            proof {
                assert(own_min.x as int == s_min_size(w, t).0);
            }
            let fsum = flex_sum(&rw.flexes);
            let size_main = rect.end.x - rect.start.x;
            let extra = size_main - own_min.x;
            let own = if fsum == 0 {
                Recti {
                    start: rect.start,
                    end: Vec2 { x: rect.start.x + own_min.x, y: rect.end.y },
                }
            } else {
                rect
            };
            widget_rects.insert(rw.id, own);
            let ghost cs = rw.children@;
            let ghost n = cs.len() as int;
            proof {
                assert forall|k: WidgetId| #[trigger] children_ids(cs, n).contains(k) implies !widget_rects@.dom().contains(
                    k,
                ) by {
                    assert(w.widget_ids().contains(k));
                    assert(k != rw.id);
                }
                assert(widget_rects@.dom().disjoint(children_ids(cs, n)));
            }
            let ghost rm1 = widget_rects@;
            compute_stack_rects(
                &rw.children,
                &rw.flexes,
                rect,
                extra,
                fsum,
                false,
                theme,
                min_sizes,
                widget_rects,
            );
            proof {
                assert(widget_rects@.dom() =~= old(widget_rects)@.dom().union(w.widget_ids()));
                assert forall|k: WidgetId| #[trigger] old(widget_rects)@.dom().contains(
                    k,
                ) implies widget_rects@.contains_key(k) && widget_rects@[k] == old(
                    widget_rects,
                )@[k] by {
                    assert(k != rw.id);
                    assert(rm1.dom().contains(k));
                }
                assert(rm1.dom().contains(rw.id));
                assert(rect_view(widget_rects@[rw.id]) == s_own_rect(w, r, t));
                assert(rect_map_ok(w, r, t, widget_rects@));
            }
        },
        Widget::Overlap(o) => {
            widget_rects.insert(o.id, rect);
            let ghost cs = o.children@;
            let ghost n = cs.len() as int;
            proof {
                assert forall|k: WidgetId| #[trigger] children_ids(cs, n).contains(k) implies !widget_rects@.dom().contains(
                    k,
                ) by {
                    assert(w.widget_ids().contains(k));
                    assert(k != o.id);
                }
                assert(widget_rects@.dom().disjoint(children_ids(cs, n)));
            }
            let ghost rm1 = widget_rects@;
            compute_overlap_rects(&o.children, rect, theme, min_sizes, widget_rects);
            proof {
                assert(widget_rects@.dom() =~= old(widget_rects)@.dom().union(w.widget_ids()));
                assert forall|k: WidgetId| #[trigger] old(widget_rects)@.dom().contains(
                    k,
                ) implies widget_rects@.contains_key(k) && widget_rects@[k] == old(
                    widget_rects,
                )@[k] by {
                    assert(k != o.id);
                    assert(rm1.dom().contains(k));
                }
                assert(rm1.dom().contains(o.id));
                assert(rect_view(widget_rects@[o.id]) == s_own_rect(w, r, t));
                assert(rect_map_ok(w, r, t, widget_rects@));
            }
        },
        _ => {
            widget_rects.insert(id, rect);
            proof {
                assert(widget_rects@.dom() =~= old(widget_rects)@.dom().union(w.widget_ids()));
                assert(rect_map_ok(w, r, t, widget_rects@));
                assert forall|k: WidgetId| #[trigger] old(widget_rects)@.dom().contains(
                    k,
                ) implies widget_rects@.contains_key(k) && widget_rects@[k] == old(
                    widget_rects,
                )@[k] by {
                    assert(k != w.wid());
                }
            }
        },
    }
}

} // verus!
