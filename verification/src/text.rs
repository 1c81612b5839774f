//! Text measurement.
//!
//! Rendering and measuring text is the job of an external font
//! collaborator. The layout engine only needs the measurements, so it is
//! written against this trait; every implementation must tie its runtime
//! answers to its own specification-level metric, which is what the layout
//! contracts are stated over.

use vstd::prelude::*;
use crate::geom::Vec2;

verus! {

/// Measures strings for layout. `spec_size` is the implementation's own
/// mathematical model of its metric; the executable methods must agree
/// with it, and all metrics must be nonnegative.
pub trait TextMeasure {
    /// The (width, height) that drawing `text` as a single line takes.
    spec fn spec_size(&self, text: Seq<char>) -> (int, int);

    /// The vertical distance between the tops of consecutive lines.
    spec fn spec_advance_y(&self) -> int;

    /// Every metric is nonnegative.
    proof fn lemma_metrics_nonneg(&self, text: Seq<char>)
        ensures
            0 <= self.spec_size(text).0,
            0 <= self.spec_size(text).1,
            0 <= self.spec_advance_y(),
    ;

    /// The size of `text` drawn as a single line.
    fn string_size(&self, text: &str) -> (r: Vec2)
        ensures
            r.x as int == self.spec_size(text@).0,
            r.y as int == self.spec_size(text@).1,
    ;

    /// The width of `text` drawn as a single line.
    fn string_width(&self, text: &str) -> (r: i32)
        ensures
            r as int == self.spec_size(text@).0,
    ;

    /// The vertical distance between the tops of consecutive lines.
    fn advance_y(&self) -> (r: i32)
        ensures
            r as int == self.spec_advance_y(),
    ;
}

/// A fixed-width font model: every character is `advance_x` pixels wide
/// and a line is `line_height` pixels tall. Widths that would exceed
/// `i32::MAX` saturate.
pub struct FixedWidthFont {
    pub advance_x: u16,
    pub line_height: u16,
}

impl FixedWidthFont {
    pub fn new(advance_x: u16, line_height: u16) -> (r: FixedWidthFont)
        ensures
            r.advance_x == advance_x,
            r.line_height == line_height,
    {
        FixedWidthFont { advance_x, line_height }
    }
}

impl TextMeasure for FixedWidthFont {
    open spec fn spec_size(&self, text: Seq<char>) -> (int, int) {
        (
            if self.advance_x * text.len() <= i32::MAX {
                self.advance_x * text.len()
            } else {
                i32::MAX as int
            },
            self.line_height as int,
        )
    }

    open spec fn spec_advance_y(&self) -> int {
        self.line_height as int
    }

    proof fn lemma_metrics_nonneg(&self, text: Seq<char>) {
    }

    fn string_size(&self, text: &str) -> (r: Vec2) {
        let n = text.unicode_len();
        proof {
            assert((self.advance_x as u128) * (n as u128) <= 0xffff_ffff_ffff_ffff_ffffu128)
                by (nonlinear_arith)
                requires
                    self.advance_x <= 0xffffu128,
                    n <= 0xffff_ffff_ffff_ffffu128,
            ;
        }
        let w = (self.advance_x as u128) * (n as u128);
        let wx: i32 = if w <= i32::MAX as u128 {
            w as i32
        } else {
            i32::MAX
        };
        Vec2 { x: wx, y: self.line_height as i32 }
    }

    fn string_width(&self, text: &str) -> (r: i32) {
        let s = self.string_size(text);
        s.x
    }

    fn advance_y(&self) -> (r: i32) {
        self.line_height as i32
    }
}

} // verus!
