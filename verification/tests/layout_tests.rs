//! Layout engine tests: minimum sizes and rectangle assignment.

use std::collections::HashMap;
use webgl_gui::geom::{Recti, Vec2};
use webgl_gui::layout::compute_widget_min_size;
use webgl_gui::rects::compute_rects;
use webgl_gui::text::FixedWidthFont;
use webgl_gui::theme::Theme;
use webgl_gui::widget::{Col, Inset, MessageBox, NoFill, Overlap, Padding, Row, TextBox, Widget};
use webgl_gui::widget::Empty;

fn test_theme(advance_x: u16, line_height: u16, padding: i32) -> Theme<FixedWidthFont> {
    Theme {
        font: FixedWidthFont { advance_x, line_height },
        label_color: webgl_gui::geom::Color { r: 0, g: 0, b: 0, a: 255 },
        button_text_color: webgl_gui::geom::Color { r: 1, g: 1, b: 1, a: 255 },
        button_fill_color: webgl_gui::geom::Color { r: 2, g: 2, b: 2, a: 255 },
        button_border_color: webgl_gui::geom::Color { r: 3, g: 3, b: 3, a: 255 },
        button_selected_fill_color: webgl_gui::geom::Color { r: 4, g: 4, b: 4, a: 255 },
        button_active_fill_color: webgl_gui::geom::Color { r: 5, g: 5, b: 5, a: 255 },
        padding,
    }
}

fn rect(x0: i32, y0: i32, x1: i32, y1: i32) -> Recti {
    Recti { start: Vec2 { x: x0, y: y0 }, end: Vec2 { x: x1, y: y1 } }
}

/// A root `Row` with two children of flex weights 1 and 3, minimum sizes
/// (10,5) and (20,5), laid into a rectangle of width 100 and height 5:
/// the leftover space is 70, child A gets 10+17=27 and child B 20+52=72,
/// so 99 of the 100 pixels are filled, a truncation deficit of 1.
#[test]
fn row_flex_partition_scenario() {
    let theme = test_theme(1, 5, 0);
    // Labels under a one-pixel-per-character font: 10 and 20 characters.
    let a = Widget::label(1, "aaaaaaaaaa");
    let b = Widget::label(2, "bbbbbbbbbbbbbbbbbbbb");
    let root = Row::new(3).child(1, a).child(3, b).widget();

    let mut min_sizes = HashMap::new();
    let root_min = compute_widget_min_size(&root, &theme, &mut min_sizes, Vec2 { x: 100, y: 5 });
    assert_eq!(root_min, Vec2 { x: 30, y: 5 });
    assert_eq!(min_sizes.get(&1), Some(&Vec2 { x: 10, y: 5 }));
    assert_eq!(min_sizes.get(&2), Some(&Vec2 { x: 20, y: 5 }));

    let mut rects = HashMap::new();
    compute_rects(&root, rect(0, 0, 100, 5), &theme, &min_sizes, &mut rects);
    assert_eq!(rects.get(&1), Some(&rect(0, 0, 27, 5)));
    assert_eq!(rects.get(&2), Some(&rect(27, 0, 99, 5)));
    assert_eq!(rects.get(&3), Some(&rect(0, 0, 100, 5)));

    // Flex partition non-exactness: the occupied width 99 falls short of
    // 100, and the deficit is less than the number of children.
    let occupied = rects.get(&2).unwrap().end.x;
    let deficit = 100 - occupied;
    assert!(deficit >= 0);
    assert!(deficit < 2);
    assert_eq!(deficit, 1);
}

#[test]
fn col_min_size_is_max_width_and_sum_height() {
    let theme = test_theme(2, 7, 0);
    let a = Widget::label(1, "aaa"); // 6 x 7
    let b = Widget::label(2, "bbbbb"); // 10 x 7
    let root = Col::new(3).child(0, a).child(0, b).widget();
    let mut min_sizes = HashMap::new();
    let m = compute_widget_min_size(&root, &theme, &mut min_sizes, Vec2 { x: 100, y: 100 });
    // Min-size monotonicity: never below any single child's dimension.
    assert_eq!(m, Vec2 { x: 10, y: 14 });
    assert!(m.x >= 6 && m.x >= 10);
    assert!(m.y >= 7);
}

#[test]
fn zero_flex_col_stacks_children_at_min_height() {
    let theme = test_theme(1, 4, 0);
    let a = Widget::label(1, "aa");
    let b = Widget::label(2, "bbb");
    let root = Col::new(3).child(0, a).child(0, b).widget();
    let mut min_sizes = HashMap::new();
    compute_widget_min_size(&root, &theme, &mut min_sizes, Vec2 { x: 50, y: 50 });
    let mut rects = HashMap::new();
    compute_rects(&root, rect(0, 0, 50, 50), &theme, &min_sizes, &mut rects);
    // The stack's own rectangle collapses to its minimum height but keeps
    // the full cross extent; children stack consecutively at min height.
    assert_eq!(rects.get(&3), Some(&rect(0, 0, 50, 8)));
    assert_eq!(rects.get(&1), Some(&rect(0, 0, 50, 4)));
    assert_eq!(rects.get(&2), Some(&rect(0, 4, 50, 8)));
}

#[test]
fn overlap_gives_every_child_the_same_rect() {
    let theme = test_theme(1, 4, 0);
    let a = Widget::label(1, "aa");
    let b = Widget::label(2, "bbbb");
    let root = Overlap::new(3).child(a).child(b).widget();
    let mut min_sizes = HashMap::new();
    let m = compute_widget_min_size(&root, &theme, &mut min_sizes, Vec2 { x: 50, y: 50 });
    // Component-wise max of (2,4) and (4,4).
    assert_eq!(m, Vec2 { x: 4, y: 4 });
    let mut rects = HashMap::new();
    compute_rects(&root, rect(5, 6, 40, 30), &theme, &min_sizes, &mut rects);
    assert_eq!(rects.get(&3), Some(&rect(5, 6, 40, 30)));
    assert_eq!(rects.get(&1), Some(&rect(5, 6, 40, 30)));
    assert_eq!(rects.get(&2), Some(&rect(5, 6, 40, 30)));
    // Rect coverage: exactly the tree's ids are present.
    assert_eq!(rects.len(), 3);
}

#[test]
fn inset_adds_padding_and_shrinks_child() {
    let theme = test_theme(1, 4, 3);
    let a = Widget::label(1, "aa"); // 2 x 4
    let root = Inset::new(2, a);
    let mut min_sizes = HashMap::new();
    let m = compute_widget_min_size(&root, &theme, &mut min_sizes, Vec2 { x: 50, y: 50 });
    assert_eq!(m, Vec2 { x: 8, y: 10 });
    let mut rects = HashMap::new();
    compute_rects(&root, rect(10, 10, 30, 30), &theme, &min_sizes, &mut rects);
    // The inset records its allocation widened by twice the padding and
    // hands the child the allocation shrunk by the padding on all sides.
    assert_eq!(rects.get(&2), Some(&rect(10, 10, 36, 36)));
    assert_eq!(rects.get(&1), Some(&rect(13, 13, 27, 27)));
    // Containment: the child's rectangle lies inside the parent's.
    let p = rects.get(&2).unwrap();
    let c = rects.get(&1).unwrap();
    assert!(p.start.x <= c.start.x && p.start.y <= c.start.y);
    assert!(c.end.x <= p.end.x && c.end.y <= p.end.y);
}

#[test]
fn nofill_clips_to_min_size() {
    let theme = test_theme(2, 6, 0);
    let a = Widget::label(1, "abc"); // 6 x 6
    let root = NoFill::new(2, a);
    let mut min_sizes = HashMap::new();
    compute_widget_min_size(&root, &theme, &mut min_sizes, Vec2 { x: 100, y: 100 });
    let mut rects = HashMap::new();
    compute_rects(&root, rect(4, 5, 90, 90), &theme, &min_sizes, &mut rects);
    assert_eq!(rects.get(&2), Some(&rect(4, 5, 10, 11)));
    assert_eq!(rects.get(&1), Some(&rect(4, 5, 10, 11)));
}

#[test]
fn empty_and_padding_min_sizes() {
    let theme = test_theme(1, 4, 9);
    let e = Empty::new(1);
    let p = Padding::new(2);
    let root = Row::new(3).child(0, e).child(0, p).widget();
    let mut min_sizes = HashMap::new();
    let m = compute_widget_min_size(&root, &theme, &mut min_sizes, Vec2 { x: 50, y: 50 });
    assert_eq!(min_sizes.get(&1), Some(&Vec2 { x: 0, y: 0 }));
    assert_eq!(min_sizes.get(&2), Some(&Vec2 { x: 9, y: 9 }));
    assert_eq!(m, Vec2 { x: 9, y: 9 });
}

#[test]
fn textbox_splits_lines_and_measures_block() {
    let theme = test_theme(2, 5, 0);
    let tb = TextBox::new(1, "ab\ncdef\n");
    assert_eq!(tb.lines.len(), 3);
    assert_eq!(tb.lines[0], "ab");
    assert_eq!(tb.lines[1], "cdef");
    assert_eq!(tb.lines[2], "");
    let root = tb.widget();
    let mut min_sizes = HashMap::new();
    let m = compute_widget_min_size(&root, &theme, &mut min_sizes, Vec2 { x: 50, y: 50 });
    // Widest line is 4 characters at 2 pixels; 3 lines at 5 pixels each.
    assert_eq!(m, Vec2 { x: 8, y: 15 });
}

#[test]
fn textbox_of_empty_text_has_one_empty_line() {
    let tb = TextBox::new(1, "");
    assert_eq!(tb.lines.len(), 1);
    assert_eq!(tb.lines[0], "");
}

#[test]
fn messagebox_keeps_at_most_max_lines() {
    let black = webgl_gui::geom::Color { r: 0, g: 0, b: 0, a: 255 };
    let mut mb = MessageBox::new(1, 2);
    mb.add_line(black, "one".to_string());
    mb.add_line(black, "two".to_string());
    mb.add_line(black, "three".to_string());
    assert_eq!(mb.lines.len(), 2);
    assert_eq!(mb.lines[0].0, "two");
    assert_eq!(mb.lines[1].0, "three");
}

#[test]
fn label_min_size_is_text_measure() {
    let theme = test_theme(3, 11, 0);
    let root = Widget::label(7, "abcd");
    let mut min_sizes = HashMap::new();
    let m = compute_widget_min_size(&root, &theme, &mut min_sizes, Vec2 { x: 1, y: 1 });
    assert_eq!(m, Vec2 { x: 12, y: 11 });
}

#[test]
fn button_min_size_adds_border_margin() {
    let theme = test_theme(3, 11, 0);
    let b = webgl_gui::widget::Button { id: 7, text: "ok".to_string() };
    let mut min_sizes = HashMap::new();
    let m = compute_widget_min_size(
        &Widget::Button(b),
        &theme,
        &mut min_sizes,
        Vec2 { x: 1, y: 1 },
    );
    // Text measures 6 x 11; a button adds a (4, 2) margin.
    assert_eq!(m, Vec2 { x: 10, y: 13 });
}

#[test]
fn negative_extra_space_shrinks_children() {
    // A flexed Row squeezed into less than its minimum: the leftover space
    // is negative and the shares shrink children toward zero.
    let theme = test_theme(1, 2, 0);
    let a = Widget::label(1, "aaaaaaaaaa"); // 10 x 2
    let b = Widget::label(2, "bbbbbbbbbb"); // 10 x 2
    let root = Row::new(3).child(1, a).child(1, b).widget();
    let mut min_sizes = HashMap::new();
    compute_widget_min_size(&root, &theme, &mut min_sizes, Vec2 { x: 10, y: 2 });
    let mut rects = HashMap::new();
    compute_rects(&root, rect(0, 0, 10, 2), &theme, &min_sizes, &mut rects);
    // Leftover space is -10; each child's share is trunc(-10/2) = -5.
    assert_eq!(rects.get(&1), Some(&rect(0, 0, 5, 2)));
    assert_eq!(rects.get(&2), Some(&rect(5, 0, 10, 2)));
}
