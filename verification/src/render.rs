//! Render primitives: what the drawing backend is asked to draw for a node.

use crate::styles::Color;
use vstd::prelude::*;

verus! {

/// What is drawn for a widget node.
#[derive(Clone, Debug)]
pub enum WidgetRender {
    /// A rectangle in the node's background colour.
    Quad,
    /// A run of text.
    Text { content: String, word_wrap: bool },
    /// An image, named by the path of its asset.
    Image { path: String },
    /// A vector graphic, named by the path of its asset, with an optional tint.
    Svg { path: String, color: Option<Color> },
}

impl WidgetRender {
    /// A copy of the primitive.
    pub fn duplicate(&self) -> (copy: WidgetRender)
        ensures
            copy == *self,
    {
        match self {
            WidgetRender::Quad => WidgetRender::Quad,
            WidgetRender::Text { content, word_wrap } => WidgetRender::Text {
                content: content.clone(),
                word_wrap: *word_wrap,
            },
            WidgetRender::Image { path } => WidgetRender::Image { path: path.clone() },
            WidgetRender::Svg { path, color } => WidgetRender::Svg {
                path: path.clone(),
                color: *color,
            },
        }
    }
}

} // verus!
