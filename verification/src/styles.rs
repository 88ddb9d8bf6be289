//! Style records: what a widget hands to layout and drawing.

use vstd::prelude::*;

verus! {

/// A colour of the toolkit's palette.
#[derive(Clone, Copy, Debug, PartialEq, Eq, Structural)]
pub enum Color {
    Transparent,
    White,
    Background,
    BackgroundLight,
    Primary,
    PrimaryLight,
}

/// A length along one axis.
#[derive(Clone, Copy, Debug, PartialEq, Eq, Structural)]
pub enum Units {
    /// Sized by the layout.
    Auto,
    /// A number of pixels.
    Pixels(u32),
    /// A share of the parent's size, in percent.
    Percentage(u32),
}

/// The radius of each corner of a quad, in pixels.
#[derive(Clone, Copy, Debug, PartialEq, Eq, Structural)]
pub struct Corner {
    pub top_left: u32,
    pub top_right: u32,
    pub bottom_left: u32,
    pub bottom_right: u32,
}

impl Corner {
    /// The same radius on all four corners.
    pub fn all(radius: u32) -> (corner: Corner)
        ensures
            corner == (Corner {
                top_left: radius,
                top_right: radius,
                bottom_left: radius,
                bottom_right: radius,
            }),
    {
        Corner { top_left: radius, top_right: radius, bottom_left: radius, bottom_right: radius }
    }
}

/// The style record of a widget node.
#[derive(Clone, Copy, Debug, PartialEq, Eq, Structural)]
pub struct WoodpeckerStyle {
    pub background_color: Color,
    pub color: Color,
    pub width: Units,
    pub height: Units,
    pub border_radius: Corner,
}

impl WoodpeckerStyle {
    /// The style of a widget that sets none: transparent background, white
    /// content, sized by the layout, square corners.
    pub open spec fn default_spec() -> WoodpeckerStyle {
        WoodpeckerStyle {
            background_color: Color::Transparent,
            color: Color::White,
            width: Units::Auto,
            height: Units::Auto,
            border_radius: Corner { top_left: 0, top_right: 0, bottom_left: 0, bottom_right: 0 },
        }
    }
}

impl Default for WoodpeckerStyle {
    fn default() -> (style: WoodpeckerStyle)
        ensures
            style == WoodpeckerStyle::default_spec(),
    {
        WoodpeckerStyle {
            background_color: Color::Transparent,
            color: Color::White,
            width: Units::Auto,
            height: Units::Auto,
            border_radius: Corner::all(0),
        }
    }
}

} // verus!
