//! The element: a widget that shows what its parent hands it and has no
//! children of its own.

use crate::children::WidgetChildren;
use crate::context::{CurrentWidget, ParentWidget};
use crate::node::WidgetNode;
use crate::render::WidgetRender;
use crate::styles::WoodpeckerStyle;
use crate::widgets::checkbox::WidgetProps;
use vstd::prelude::*;

verus! {

/// The widget type of an element.
pub const ELEMENT: u64 = 1;

/// What a parent hands to an element.
#[derive(Clone)]
pub struct ElementBundle {
    /// The style of the element.
    pub styles: WoodpeckerStyle,
    /// What is drawn for the element, if anything.
    pub render: Option<WidgetRender>,
}

impl Default for ElementBundle {
    fn default() -> (bundle: ElementBundle)
        ensures
            bundle.styles == WoodpeckerStyle::default_spec(),
            bundle.render is None,
    {
        ElementBundle { styles: WoodpeckerStyle::default(), render: None }
    }
}

/// What rendering an element makes of the node `before`, and the list
/// of children that comes back.
pub open spec fn rendered_as<S>(
    before: WidgetNode<WidgetProps, S>,
    after: WidgetNode<WidgetProps, S>,
    current: CurrentWidget,
    children: WidgetChildren<WidgetProps>,
) -> bool {
    &&& children.queue@.len() == 0
    &&& match before.props {
        WidgetProps::Element(bundle) => {
            &&& children.parent == Some(ParentWidget { entity: current.entity })
            &&& after == (WidgetNode { styles: bundle.styles, render: bundle.render, ..before })
        },
        _ => children.parent is None && after == before,
    }
}

/// Renders an element: the node takes the style and the render primitive
/// of its props and asks for no children. A node whose props are not those
/// of an element is left as it is, and the list that comes back is
/// finalized for no node.
pub fn render<S>(current: CurrentWidget, node: &mut WidgetNode<WidgetProps, S>) -> (children:
    WidgetChildren<WidgetProps>)
    requires
        current.entity == old(node).id,
    ensures
        rendered_as(*old(node), *final(node), current, children),
{
    let mut children: WidgetChildren<WidgetProps> = WidgetChildren::default();
    match &node.props {
        WidgetProps::Element(bundle) => {
            let styles = bundle.styles;
            let render = match &bundle.render {
                Some(primitive) => Some(primitive.duplicate()),
                None => None,
            };
            node.styles = styles;
            node.render = render;
            children.apply(current.as_parent());
        },
        _ => {},
    }
    children
}

} // verus!
