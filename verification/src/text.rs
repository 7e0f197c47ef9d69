//! How a block of text is aligned.

use vstd::prelude::*;

verus! {

/// How text is placed in its box, along both axes.
#[derive(Debug, Clone, Copy, PartialEq, Eq, Structural)]
pub struct TextAlignment {
    pub vertical: VerticalAlign,
    pub horizontal: HorizontalAlign,
}

impl Default for TextAlignment {
    /// Text starts in the top left corner.
    fn default() -> (alignment: Self)
        ensures
            alignment == (TextAlignment {
                vertical: VerticalAlign::Top,
                horizontal: HorizontalAlign::Left,
            }),
    {
        TextAlignment { vertical: VerticalAlign::Top, horizontal: HorizontalAlign::Left }
    }
}

/// Where text stands between the top and the bottom of its box.
#[derive(Debug, Clone, Copy, PartialEq, Eq, Hash, Structural)]
pub enum VerticalAlign {
    Top,
    Center,
    Bottom,
}

/// Where text stands between the left and the right of its box.
#[derive(Debug, Clone, Copy, PartialEq, Eq, Hash, Structural)]
pub enum HorizontalAlign {
    Left,
    Center,
    Right,
}

} // verus!
