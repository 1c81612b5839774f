//! Rendering as data: the draw pass walks the tree pre-order (each widget
//! before its children) and emits a list of drawing commands against the
//! rectangles of the current layout. An external renderer executes the
//! commands; the engine itself never touches a drawing surface.

use vstd::prelude::*;
use std::collections::HashMap;
use crate::geom::{Color, Recti, Vec2};
use crate::layout::{children_min_fits, min_fits, s_min_size};
use crate::rects::{rect_size_ok, rects_ready};
use crate::text::TextMeasure;
use crate::theme::Theme;
use crate::widget::{children_ids, Widget, WidgetId};

verus! {

/// One drawing command for the external renderer. Text positions are kept
/// in 64 bits because a line of a tall text block may start below the
/// rectangle a widget was squeezed into; the renderer clips.
#[derive(Clone, Debug, PartialEq)]
pub enum DrawCmd {
    /// Fill the rectangle with the color.
    FillRect { rect: Recti, color: Color },
    /// Outline the rectangle with a stroke of the given width in pixels.
    OutlineRect { rect: Recti, color: Color, width: i32 },
    /// Draw one line of text with its top-left corner at `(x, y)`.
    Text { x: i64, y: i64, text: String, color: Color },
}

/// The commands for the first `n` plain lines of a text block starting at
/// `(x, y)`, one line per advance.
pub open spec fn s_line_cmds<F: TextMeasure>(
    lines: Seq<String>,
    n: int,
    x: int,
    y: int,
    t: Theme<F>,
    color: Color,
) -> Seq<DrawCmd>
    decreases n,
{
    if n <= 0 || n > lines.len() {
        Seq::empty()
    } else {
        s_line_cmds(lines, n - 1, x, y, t, color).push(
            DrawCmd::Text {
                x: x as i64,
                y: (y + t.font.spec_advance_y() * (n - 1)) as i64,
                text: lines[n - 1],
                color,
            },
        )
    }
}

/// The commands for the first `n` individually colored lines.
pub open spec fn s_msg_cmds<F: TextMeasure>(
    lines: Seq<(String, Color)>,
    n: int,
    x: int,
    y: int,
    t: Theme<F>,
) -> Seq<DrawCmd>
    decreases n,
{
    if n <= 0 || n > lines.len() {
        Seq::empty()
    } else {
        s_msg_cmds(lines, n - 1, x, y, t).push(
            DrawCmd::Text {
                x: x as i64,
                y: (y + t.font.spec_advance_y() * (n - 1)) as i64,
                text: lines[n - 1].0,
                color: lines[n - 1].1,
            },
        )
    }
}

/// The fill color of a button: hovered wins over active wins over plain.
pub open spec fn s_button_fill<F: TextMeasure>(
    rc: Recti,
    t: Theme<F>,
    cursor: Option<Vec2>,
    is_active: bool,
) -> Color {
    if cursor is Some && rc.spec_contains_point(cursor->0) {
        t.button_selected_fill_color
    } else if is_active {
        t.button_active_fill_color
    } else {
        t.button_fill_color
    }
}

/// The commands one widget emits for its own visuals, given its recorded
/// rectangle. Containers draw nothing themselves.
pub open spec fn s_own_cmds<F: TextMeasure>(
    w: Widget,
    rc: Recti,
    t: Theme<F>,
    cursor: Option<Vec2>,
    is_active: bool,
) -> Seq<DrawCmd> {
    match w {
        Widget::Label(l) => seq![
            (DrawCmd::Text {
                x: rc.start.x as i64,
                y: rc.start.y as i64,
                text: l.text,
                color: t.label_color,
            }),
        ],
        Widget::Button(b) => seq![
            (DrawCmd::FillRect { rect: rc, color: s_button_fill(rc, t, cursor, is_active) }),
            (DrawCmd::OutlineRect { rect: rc, color: t.button_border_color, width: 1 }),
            (DrawCmd::Text {
                x: (rc.start.x + 2) as i64,
                y: (rc.start.y + 1) as i64,
                text: b.text,
                color: t.button_text_color,
            }),
        ],
        Widget::TextBox(tb) => s_line_cmds(
            tb.lines@,
            tb.lines@.len() as int,
            rc.start.x as int,
            rc.start.y as int,
            t,
            tb.text_color,
        ),
        Widget::MessageBox(mb) => s_msg_cmds(
            mb.lines@,
            mb.lines@.len() as int,
            rc.start.x as int,
            rc.start.y as int,
            t,
        ),
        _ => Seq::empty(),
    }
}

/// The commands the whole subtree emits, pre-order: the widget's own
/// visuals first, then each child's subtree in order.
pub open spec fn s_draw_cmds<F: TextMeasure>(
    w: Widget,
    rm: Map<WidgetId, Recti>,
    t: Theme<F>,
    cursor: Option<Vec2>,
    active: Option<WidgetId>,
) -> Seq<DrawCmd>
    decreases w, 0int,
{
    let own = s_own_cmds(w, rm[w.wid()], t, cursor, active == Some(w.wid()));
    match w {
        Widget::NoFill(x) => own + s_children_cmds(
            x.children@,
            x.children@.len() as int,
            rm,
            t,
            cursor,
            active,
        ),
        Widget::Inset(x) => own + s_children_cmds(
            x.children@,
            x.children@.len() as int,
            rm,
            t,
            cursor,
            active,
        ),
        Widget::Col(c) => own + s_children_cmds(
            c.children@,
            c.children@.len() as int,
            rm,
            t,
            cursor,
            active,
        ),
        Widget::Row(r) => own + s_children_cmds(
            r.children@,
            r.children@.len() as int,
            rm,
            t,
            cursor,
            active,
        ),
        Widget::Overlap(o) => own + s_children_cmds(
            o.children@,
            o.children@.len() as int,
            rm,
            t,
            cursor,
            active,
        ),
        _ => own,
    }
}

/// The concatenated subtree commands of the first `n` children.
pub open spec fn s_children_cmds<F: TextMeasure>(
    cs: Seq<Widget>,
    n: int,
    rm: Map<WidgetId, Recti>,
    t: Theme<F>,
    cursor: Option<Vec2>,
    active: Option<WidgetId>,
) -> Seq<DrawCmd>
    decreases cs, n,
{
    if n <= 0 || n > cs.len() {
        Seq::empty()
    } else {
        s_children_cmds(cs, n - 1, rm, t, cursor, active) + s_draw_cmds(
            cs[n - 1],
            rm,
            t,
            cursor,
            active,
        )
    }
}

/// Emits the text commands for a block of plain lines.
#[verifier::loop_isolation(false)]
fn emit_lines<F: TextMeasure>(
    lines: &Vec<String>,
    rc: Recti,
    theme: &Theme<F>,
    color: Color,
    cmds: &mut Vec<DrawCmd>,
    height_bound: Ghost<int>,
)
    requires
        theme.spec_wf(),
        height_bound@ == theme.font.spec_advance_y() * lines@.len(),
        height_bound@ <= i32::MAX as int,
    ensures
        final(cmds)@ == old(cmds)@ + s_line_cmds(
            lines@,
            lines@.len() as int,
            rc.start.x as int,
            rc.start.y as int,
            *theme,
            color,
        ),
{
    let ghost t = *theme;
    let adv = theme.font.advance_y();
    proof {
        theme.font.lemma_metrics_nonneg(Seq::empty());
    }
    let mut i: usize = 0;
    while i < lines.len()
        invariant
            i <= lines.len(),
            cmds@ == old(cmds)@ + s_line_cmds(
                lines@,
                i as int,
                rc.start.x as int,
                rc.start.y as int,
                t,
                color,
            ),
        decreases lines.len() - i,
    {
        proof {
            vstd::arithmetic::mul::lemma_mul_inequality(i as int, lines@.len() as int, adv as int);
            vstd::arithmetic::mul::lemma_mul_is_commutative(i as int, adv as int);
            vstd::arithmetic::mul::lemma_mul_is_commutative(lines@.len() as int, adv as int);
            vstd::arithmetic::mul::lemma_mul_nonnegative(adv as int, i as int);
        }
        let off: i64 = if adv == 0 {
            proof {
                assert((adv as int) * (i as int) == 0) by (nonlinear_arith)
                    requires
                        adv as int == 0,
                ;
            }
            0
        } else {
            proof {
                assert(i as int <= i32::MAX as int) by (nonlinear_arith)
                    requires
                        1 <= adv as int,
                        0 <= i as int,
                        (adv as int) * (i as int) <= i32::MAX as int,
                ;
            }
            (adv as i64) * (i as i64)
        };
        let y: i64 = (rc.start.y as i64) + off;
        cmds.push(
            DrawCmd::Text { x: rc.start.x as i64, y, text: lines[i].clone(), color },
        );
        proof {
            assert(cmds@ =~= old(cmds)@ + s_line_cmds(
                lines@,
                i as int + 1,
                rc.start.x as int,
                rc.start.y as int,
                t,
                color,
            ));
        }
        i = i + 1;
    }
}

/// Emits the text commands for a block of individually colored lines.
#[verifier::loop_isolation(false)]
fn emit_msgs<F: TextMeasure>(
    lines: &Vec<(String, Color)>,
    rc: Recti,
    theme: &Theme<F>,
    cmds: &mut Vec<DrawCmd>,
    height_bound: Ghost<int>,
)
    requires
        theme.spec_wf(),
        height_bound@ == theme.font.spec_advance_y() * lines@.len(),
        height_bound@ <= i32::MAX as int,
    ensures
        final(cmds)@ == old(cmds)@ + s_msg_cmds(
            lines@,
            lines@.len() as int,
            rc.start.x as int,
            rc.start.y as int,
            *theme,
        ),
{
    let ghost t = *theme;
    let adv = theme.font.advance_y();
    proof {
        theme.font.lemma_metrics_nonneg(Seq::empty());
    }
    let mut i: usize = 0;
    while i < lines.len()
        invariant
            i <= lines.len(),
            cmds@ == old(cmds)@ + s_msg_cmds(
                lines@,
                i as int,
                rc.start.x as int,
                rc.start.y as int,
                t,
            ),
        decreases lines.len() - i,
    {
        proof {
            vstd::arithmetic::mul::lemma_mul_inequality(i as int, lines@.len() as int, adv as int);
            vstd::arithmetic::mul::lemma_mul_is_commutative(i as int, adv as int);
            vstd::arithmetic::mul::lemma_mul_is_commutative(lines@.len() as int, adv as int);
            vstd::arithmetic::mul::lemma_mul_nonnegative(adv as int, i as int);
        }
        let off: i64 = if adv == 0 {
            proof {
                assert((adv as int) * (i as int) == 0) by (nonlinear_arith)
                    requires
                        adv as int == 0,
                ;
            }
            0
        } else {
            proof {
                assert(i as int <= i32::MAX as int) by (nonlinear_arith)
                    requires
                        1 <= adv as int,
                        0 <= i as int,
                        (adv as int) * (i as int) <= i32::MAX as int,
                ;
            }
            (adv as i64) * (i as i64)
        };
        let y: i64 = (rc.start.y as i64) + off;
        let line = lines[i].0.clone();
        let color = lines[i].1;
        cmds.push(DrawCmd::Text { x: rc.start.x as i64, y, text: line, color });
        proof {
            assert(cmds@ =~= old(cmds)@ + s_msg_cmds(
                lines@,
                i as int + 1,
                rc.start.x as int,
                rc.start.y as int,
                t,
            ));
        }
        i = i + 1;
    }
}

/// The draw pass: appends to `cmds` the commands for this widget and every
/// descendant, pre-order, each against its recorded rectangle. `is_active`
/// for a widget means its id is the active component's.
pub fn draw_widget<F: TextMeasure>(
    widget: &Widget,
    theme: &Theme<F>,
    widget_rects: &HashMap<WidgetId, Recti>,
    cmds: &mut Vec<DrawCmd>,
    cursor_pos: Option<Vec2>,
    active_widget_id: Option<WidgetId>,
)
    requires
        theme.spec_wf(),
        min_fits(*widget, *theme),
        rects_ready(*widget, widget_rects@),
    ensures
        final(cmds)@ == old(cmds)@ + s_draw_cmds(
            *widget,
            widget_rects@,
            *theme,
            cursor_pos,
            active_widget_id,
        ),
    decreases *widget,
{
    let ghost w = *widget;
    let ghost t = *theme;
    let ghost rm = widget_rects@;
    proof {
        assert(w.widget_ids().contains(w.wid()));
    }
    let id = widget.id();
    let rect: Recti = match widget_rects.get(&id) {
        Some(rc) => *rc,
        None => {
            proof {
                assert(false);
            }
            Recti { start: (Vec2 { x: 0, y: 0 }), end: (Vec2 { x: 0, y: 0 }) }
        },
    };
    let is_active = match active_widget_id {
        Some(a) => a == id,
        None => false,
    };
    match widget {
        Widget::Label(l) => {
            cmds.push(
                DrawCmd::Text {
                    x: rect.start.x as i64,
                    y: rect.start.y as i64,
                    text: l.text.clone(),
                    color: theme.label_color,
                },
            );
            proof {
                assert(cmds@ =~= old(cmds)@ + s_draw_cmds(w, rm, t, cursor_pos, active_widget_id));
            }
        },
        Widget::Button(b) => {
            let fill = match cursor_pos {
                Some(c) => if rect.contains_point(c) {
                    theme.button_selected_fill_color
                } else if is_active {
                    theme.button_active_fill_color
                } else {
                    theme.button_fill_color
                },
                None => if is_active {
                    theme.button_active_fill_color
                } else {
                    theme.button_fill_color
                },
            };
            cmds.push(DrawCmd::FillRect { rect, color: fill });
            cmds.push(
                DrawCmd::OutlineRect { rect, color: theme.button_border_color, width: 1 },
            );
            cmds.push(
                DrawCmd::Text {
                    x: rect.start.x as i64 + 2,
                    y: rect.start.y as i64 + 1,
                    text: b.text.clone(),
                    color: theme.button_text_color,
                },
            );
            proof {
                assert(cmds@ =~= old(cmds)@ + s_draw_cmds(w, rm, t, cursor_pos, active_widget_id));
            }
        },
        Widget::TextBox(tb) => {
            emit_lines(
                &tb.lines,
                rect,
                theme,
                tb.text_color,
                cmds,
                Ghost(s_min_size(w, t).1),
            );
            proof {
                assert(cmds@ =~= old(cmds)@ + s_draw_cmds(w, rm, t, cursor_pos, active_widget_id));
            }
        },
        Widget::MessageBox(mb) => {
            emit_msgs(&mb.lines, rect, theme, cmds, Ghost(s_min_size(w, t).1));
            proof {
                assert(cmds@ =~= old(cmds)@ + s_draw_cmds(w, rm, t, cursor_pos, active_widget_id));
            }
        },
        Widget::NoFill(x) => {
            draw_children(&x.children, theme, widget_rects, cmds, cursor_pos, active_widget_id, Ghost(w));
            proof {
                assert(cmds@ =~= old(cmds)@ + s_draw_cmds(w, rm, t, cursor_pos, active_widget_id));
            }
        },
        Widget::Inset(x) => {
            draw_children(&x.children, theme, widget_rects, cmds, cursor_pos, active_widget_id, Ghost(w));
            proof {
                assert(cmds@ =~= old(cmds)@ + s_draw_cmds(w, rm, t, cursor_pos, active_widget_id));
            }
        },
        Widget::Col(c) => {
            draw_children(&c.children, theme, widget_rects, cmds, cursor_pos, active_widget_id, Ghost(w));
            proof {
                assert(cmds@ =~= old(cmds)@ + s_draw_cmds(w, rm, t, cursor_pos, active_widget_id));
            }
        },
        Widget::Row(rw) => {
            draw_children(&rw.children, theme, widget_rects, cmds, cursor_pos, active_widget_id, Ghost(w));
            proof {
                assert(cmds@ =~= old(cmds)@ + s_draw_cmds(w, rm, t, cursor_pos, active_widget_id));
            }
        },
        Widget::Overlap(o) => {
            draw_children(&o.children, theme, widget_rects, cmds, cursor_pos, active_widget_id, Ghost(w));
            proof {
                assert(cmds@ =~= old(cmds)@ + s_draw_cmds(w, rm, t, cursor_pos, active_widget_id));
            }
        },
        _ => {
            proof {
                assert(cmds@ =~= old(cmds)@ + s_draw_cmds(w, rm, t, cursor_pos, active_widget_id));
            }
        },
    }
}

/// Draws the subtrees of a list of children, in order.
#[verifier::loop_isolation(false)]
fn draw_children<F: TextMeasure>(
    children: &Vec<Widget>,
    theme: &Theme<F>,
    widget_rects: &HashMap<WidgetId, Recti>,
    cmds: &mut Vec<DrawCmd>,
    cursor_pos: Option<Vec2>,
    active_widget_id: Option<WidgetId>,
    parent: Ghost<Widget>,
)
    requires
        theme.spec_wf(),
        parent@.spec_children() == children@,
        children_min_fits(children@, children@.len() as int, *theme),
        rects_ready(parent@, widget_rects@),
    ensures
        final(cmds)@ == old(cmds)@ + s_children_cmds(
            children@,
            children@.len() as int,
            widget_rects@,
            *theme,
            cursor_pos,
            active_widget_id,
        ),
    decreases children@,
{
    let ghost cs = children@;
    let ghost n = children@.len() as int;
    let ghost t = *theme;
    let ghost rm = widget_rects@;
    let mut i: usize = 0;
    proof {
        assert(cmds@ =~= old(cmds)@ + s_children_cmds(cs, 0, rm, t, cursor_pos, active_widget_id));
    }
    while i < children.len()
        invariant
            i <= children.len(),
            cmds@ == old(cmds)@ + s_children_cmds(
                cs,
                i as int,
                rm,
                t,
                cursor_pos,
                active_widget_id,
            ),
        decreases children.len() - i,
    {
        let ghost ii = i as int;
        proof {
            crate::layout::lemma_children_min_fits_at(cs, ii, n, t);
            crate::widget::lemma_widget_structure(parent@);
            assert forall|k: WidgetId| #[trigger] cs[ii].widget_ids().contains(
                k,
            ) implies widget_rects@.contains_key(k) && rect_size_ok(widget_rects@[k]) by {
                assert(children_ids(cs, ii + 1).contains(k));
                crate::layout::lemma_children_ids_subset(cs, ii + 1, n);
                assert(children_ids(cs, n).contains(k));
                assert(parent@.widget_ids().contains(k));
            }
        }
        draw_widget(&children[i], theme, widget_rects, cmds, cursor_pos, active_widget_id);
        proof {
            assert(cmds@ =~= old(cmds)@ + s_children_cmds(
                cs,
                ii + 1,
                rm,
                t,
                cursor_pos,
                active_widget_id,
            ));
        }
        i = i + 1;
    }
}

} // verus!
