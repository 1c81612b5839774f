//! Rendering and style configuration, immutable during a draw pass.

use vstd::prelude::*;
use crate::geom::Color;
use crate::text::TextMeasure;

verus! {

/// Controls the appearance of the GUI. `F` is the font collaborator used
/// to measure text.
pub struct Theme<F> {
    pub font: F,
    pub label_color: Color,
    pub button_text_color: Color,
    pub button_fill_color: Color,
    pub button_border_color: Color,
    pub button_selected_fill_color: Color,
    pub button_active_fill_color: Color,
    /// Padding in pixels, used by `Inset` and `Padding`. Never negative.
    pub padding: i32,
}

impl<F: TextMeasure> Theme<F> {
    /// A well-formed theme has nonnegative padding, so that no widget's
    /// minimum size can be negative.
    pub open spec fn spec_wf(self) -> bool {
        0 <= self.padding
    }
}

} // verus!
