//! The checkbox: a box that is checked and unchecked by a click, and that
//! shows a check mark while it is checked.

use crate::change::Change;
use crate::children::{descriptor_tags, ChildDescriptor, WidgetChildren};
use crate::context::{CurrentWidget, ParentWidget};
use crate::hooks::StateNode;
use crate::node::WidgetNode;
use crate::render::WidgetRender;
use crate::runner::WidgetSystems;
use crate::styles::{Color, Corner, Units, WoodpeckerStyle};
use crate::widgets::element;
use crate::widgets::element::{ElementBundle, ELEMENT};
use crate::store::NodeStore;
use vstd::prelude::*;

verus! {

/// The widget type of a checkbox.
pub const CHECKBOX: u64 = 2;

/// The asset that draws the check mark.
pub const CHECKMARK: &'static str = "embedded://woodpecker_ui/embedded_assets/icons/checkmark.svg";

/// A checkbox change event.
#[derive(Clone, Copy, Debug, PartialEq, Eq, Structural)]
pub struct CheckboxChanged {
    /// Is the checkbox "checked"?
    pub checked: bool,
}

/// The state of the checkbox button.
#[derive(Clone, Copy, Debug, PartialEq, Eq, Structural)]
pub struct CheckboxState {
    /// Is hovering
    pub is_hovering: bool,
    /// Is checked
    pub is_checked: bool,
}

impl Default for CheckboxState {
    fn default() -> (state: CheckboxState)
        ensures
            state == (CheckboxState { is_hovering: false, is_checked: false }),
    {
        CheckboxState { is_hovering: false, is_checked: false }
    }
}

/// A collection of styles of the checkbox state.
#[derive(Clone, Copy, Debug, PartialEq, Eq, Structural)]
pub struct CheckboxStyles {
    /// Normal
    pub normal: WoodpeckerStyle,
    /// Hovered
    pub hovered: WoodpeckerStyle,
    /// Checked
    pub checked: WoodpeckerStyle,
    /// Both hovered and checked
    pub hovered_checked: WoodpeckerStyle,
}

impl CheckboxStyles {
    /// The style that belongs to a checkbox state.
    pub open spec fn style_for(self, state: CheckboxState) -> WoodpeckerStyle {
        if state.is_checked {
            if state.is_hovering {
                self.hovered_checked
            } else {
                self.checked
            }
        } else {
            if state.is_hovering {
                self.hovered
            } else {
                self.normal
            }
        }
    }

    /// With a given checkbox state it returns the correct styles.
    pub fn get_style(&self, state: &CheckboxState) -> (style: WoodpeckerStyle)
        ensures
            style == self.style_for(*state),
    {
        match (state.is_checked, state.is_hovering) {
            (true, true) => self.hovered_checked,
            (true, false) => self.checked,
            (false, true) => self.hovered,
            (false, false) => self.normal,
        }
    }
}

/// A collection of styles for the checkbox widget
#[derive(Clone, Copy, Debug, PartialEq, Eq, Structural)]
pub struct CheckboxWidgetStyles {
    /// Background styles
    pub background: CheckboxStyles,
    /// Check styles
    pub check: CheckboxStyles,
}

impl CheckboxWidgetStyles {
    /// The background of the default checkbox in one of its four states:
    /// a box of 32 by 32 pixels with corners of radius 2.
    pub open spec fn default_background(color: Color) -> WoodpeckerStyle {
        WoodpeckerStyle {
            background_color: color,
            width: Units::Pixels(32),
            height: Units::Pixels(32),
            border_radius: Corner { top_left: 2, top_right: 2, bottom_left: 2, bottom_right: 2 },
            ..WoodpeckerStyle::default_spec()
        }
    }

    /// The check mark of the default checkbox: white in every state.
    pub open spec fn default_check() -> WoodpeckerStyle {
        WoodpeckerStyle { color: Color::White, ..WoodpeckerStyle::default_spec() }
    }

    /// The styles of the default checkbox.
    pub open spec fn default_spec() -> CheckboxWidgetStyles {
        CheckboxWidgetStyles {
            background: CheckboxStyles {
                normal: Self::default_background(Color::BackgroundLight),
                hovered: Self::default_background(Color::Background),
                checked: Self::default_background(Color::PrimaryLight),
                hovered_checked: Self::default_background(Color::Primary),
            },
            check: CheckboxStyles {
                normal: Self::default_check(),
                hovered: Self::default_check(),
                checked: Self::default_check(),
                hovered_checked: Self::default_check(),
            },
        }
    }
}

impl Default for CheckboxWidgetStyles {
    fn default() -> (styles: CheckboxWidgetStyles)
        ensures
            styles == CheckboxWidgetStyles::default_spec(),
    {
        let background_normal = WoodpeckerStyle {
            background_color: Color::BackgroundLight,
            width: Units::Pixels(32),
            height: Units::Pixels(32),
            border_radius: Corner::all(2),
            ..WoodpeckerStyle::default()
        };
        let background_hovered = WoodpeckerStyle {
            background_color: Color::Background,
            ..background_normal
        };
        let background_checked = WoodpeckerStyle {
            background_color: Color::PrimaryLight,
            ..background_normal
        };
        let background_hovered_checked = WoodpeckerStyle {
            background_color: Color::Primary,
            ..background_normal
        };

        let check_base = WoodpeckerStyle { color: Color::White, ..WoodpeckerStyle::default() };
        CheckboxWidgetStyles {
            background: CheckboxStyles {
                normal: background_normal,
                hovered: background_hovered,
                checked: background_checked,
                hovered_checked: background_hovered_checked,
            },
            check: CheckboxStyles {
                normal: check_base,
                hovered: check_base,
                checked: check_base,
                hovered_checked: check_base,
            },
        }
    }
}

/// A checkbox button widget
#[derive(Clone, Copy, Debug, PartialEq, Eq, Structural)]
pub struct Checkbox;

impl Default for Checkbox {
    fn default() -> (checkbox: Checkbox)
        ensures
            checkbox == Checkbox,
    {
        Checkbox
    }
}

/// A convenience bundle for the widget
#[derive(Clone)]
pub struct CheckboxBundle {
    /// The checkbox
    pub checkbox: Checkbox,
    /// The checkbox styles
    pub checkbox_styles: CheckboxWidgetStyles,
    /// The internal children
    pub internal_children: WidgetChildren<ElementBundle>,
    /// The internal styles
    pub styles: WoodpeckerStyle,
    /// The render mode of the checkbox. Default: Quad
    pub render: WidgetRender,
}

impl Default for CheckboxBundle {
    fn default() -> (bundle: CheckboxBundle)
        ensures
            bundle.checkbox == Checkbox,
            bundle.checkbox_styles == CheckboxWidgetStyles::default_spec(),
            bundle.internal_children.queue@.len() == 0,
            bundle.internal_children.parent is None,
            bundle.styles == WoodpeckerStyle::default_spec(),
            bundle.render == WidgetRender::Quad,
    {
        CheckboxBundle {
            checkbox: Checkbox::default(),
            checkbox_styles: CheckboxWidgetStyles::default(),
            internal_children: WidgetChildren::default(),
            styles: WoodpeckerStyle::default(),
            render: WidgetRender::Quad,
        }
    }
}

/// The props of the widgets that come with the toolkit.
#[derive(Clone)]
pub enum WidgetProps {
    Element(ElementBundle),
    Checkbox(CheckboxBundle),
}

/// What a pointer does to a widget.
#[derive(Clone, Copy, Debug, PartialEq, Eq, Structural)]
pub enum PointerEvent {
    /// The pointer has come over the widget.
    Over,
    /// The pointer has left the widget.
    Out,
    /// The widget was clicked.
    Click,
}

impl CheckboxState {
    /// The state after a pointer event: the pointer coming and going sets
    /// and clears the hover, a click checks and unchecks.
    pub open spec fn after(self, event: PointerEvent) -> CheckboxState {
        match event {
            PointerEvent::Over => CheckboxState { is_hovering: true, ..self },
            PointerEvent::Out => CheckboxState { is_hovering: false, ..self },
            PointerEvent::Click => CheckboxState { is_checked: !self.is_checked, ..self },
        }
    }

    /// What a checkbox in this state tells its listeners on a pointer
    /// event: on a click whether it is checked now, otherwise nothing.
    pub open spec fn emits(self, event: PointerEvent, target: u64) -> Option<Change<CheckboxChanged>> {
        match event {
            PointerEvent::Click => Some(
                Change { target, data: CheckboxChanged { checked: !self.is_checked } },
            ),
            _ => None,
        }
    }

    /// Handles a pointer event: the next state, and the change event to
    /// send, if any.
    pub fn handle(self, event: PointerEvent, current: CurrentWidget) -> (next: (
        CheckboxState,
        Option<Change<CheckboxChanged>>,
    ))
        ensures
            next.0 == self.after(event),
            next.1 == self.emits(event, current.entity),
    {
        match event {
            PointerEvent::Over => (
                CheckboxState { is_hovering: true, is_checked: self.is_checked },
                None,
            ),
            PointerEvent::Out => (
                CheckboxState { is_hovering: false, is_checked: self.is_checked },
                None,
            ),
            PointerEvent::Click => {
                let checked: bool = !self.is_checked;
                (
                    CheckboxState { is_hovering: self.is_hovering, is_checked: checked },
                    Some(Change { target: current.entity, data: CheckboxChanged { checked } }),
                )
            },
        }
    }
}

/// The identity of the state that the listeners of a checkbox write to:
/// the state of the checkbox's first hook call site. A node that is no
/// checkbox, or a checkbox that was not rendered yet, has none.
pub fn state_entity(node: &WidgetNode<WidgetProps, CheckboxState>) -> (id: Option<u64>)
    ensures
        id == (if node.widget == CHECKBOX && node.hooks.states@.len() > 0 {
            Some(node.hooks.states@[0].id)
        } else {
            None
        }),
{
    if node.widget == CHECKBOX && node.hooks.states.len() > 0 {
        Some(node.hooks.states[0].id)
    } else {
        None
    }
}

/// Delivers a pointer event to the checkbox `current`, whose state has
/// the identity `state_entity`. The state is looked up in `tree`; if it is
/// gone, nothing happens. Otherwise the next state is written, which marks
/// the checkbox for the next pass, and a click hands back the change event
/// to send.
pub fn on_pointer(
    tree: &mut WidgetNode<WidgetProps, CheckboxState>,
    current: CurrentWidget,
    state_entity: u64,
    event: PointerEvent,
) -> (change: Option<Change<CheckboxChanged>>)
    requires
        old(tree).wf(),
    ensures
        final(tree).wf(),
        forall|x: u64| #[trigger] final(tree).owns(x) == old(tree).owns(x),
        !old(tree).has_state(state_entity) ==> change is None && *final(tree) == *old(tree),
        old(tree).has_state(state_entity) ==> exists|state: CheckboxState|
            {
                &&& #[trigger] old(tree).holds_state(state_entity, state)
                &&& old(tree).state_written(*final(tree), state_entity, state.after(event))
                &&& change == state.emits(event, current.entity)
            },
{
    let state: CheckboxState = match tree.get_state(state_entity) {
        Some(state) => *state,
        None => {
            return None;
        },
    };
    let (next, change) = state.handle(event, current);
    proof {
        if !tree.has_state(state_entity) {
            lemma_holds_has(*tree, state_entity, state);
        }
    }
    let _found: bool = tree.set_state(state_entity, next);
    change
}

/// A tree that holds a state with some record holds that state.
pub proof fn lemma_holds_has<P, S>(tree: WidgetNode<P, S>, id: u64, value: S)
    requires
        tree.holds_state(id, value),
    ensures
        tree.has_state(id),
    decreases tree,
{
    if exists|k: int|
        0 <= k < tree.hooks.states@.len() && (#[trigger] tree.hooks.states@[k]).id == id
            && tree.hooks.states@[k].value == value {
        let k = choose|k: int|
            0 <= k < tree.hooks.states@.len() && (#[trigger] tree.hooks.states@[k]).id == id
                && tree.hooks.states@[k].value == value;
        assert(tree.hooks.owns(id));
    } else {
        let i = choose|i: int|
            0 <= i < tree.children@.len() && (#[trigger] tree.children@[i]).holds_state(id, value);
        lemma_holds_has(tree.children@[i], id, value);
    }
}

/// Whether `desc` asks for the check mark: an element without a key, in
/// the given style, that draws the check mark asset in the style's colour.
pub open spec fn is_check_mark(desc: ChildDescriptor<WidgetProps>, styles: WoodpeckerStyle) -> bool {
    &&& desc.widget == ELEMENT
    &&& desc.key is None
    &&& match desc.props {
        WidgetProps::Element(bundle) => bundle.styles == styles && match bundle.render {
            Some(WidgetRender::Svg { path, color }) => path@ == CHECKMARK@ && color == Some(
                styles.color,
            ),
            _ => false,
        },
        _ => false,
    }
}

/// What rendering a checkbox makes of the node `before` and of the store,
/// and the list of children that comes back.
pub open spec fn rendered_as(
    before: WidgetNode<WidgetProps, CheckboxState>,
    after: WidgetNode<WidgetProps, CheckboxState>,
    store_before: NodeStore,
    store_after: NodeStore,
    current: CurrentWidget,
    children: WidgetChildren<WidgetProps>,
) -> bool {
    match before.props {
        WidgetProps::Checkbox(bundle) => if before.hooks.cursor == before.hooks.states@.len()
            && !store_before.has_room(1) {
            &&& children.parent is None
            &&& children.queue@.len() == 0
            &&& after == before
            &&& store_after == store_before
        } else {
            let ordinal = before.hooks.cursor as int;
            let first = ordinal == before.hooks.states@.len();
            let state = after.hooks.states@[ordinal];
            &&& after == (WidgetNode {
                hooks: after.hooks,
                styles: if first {
                    bundle.checkbox_styles.background.normal
                } else {
                    before.styles
                },
                ..before
            })
            &&& after.hooks.cursor == ordinal + 1
            &&& first ==> {
                &&& after.hooks.states@ == before.hooks.states@.push(
                    StateNode {
                        id: state.id,
                        value: CheckboxState { is_hovering: false, is_checked: false },
                        changed: false,
                    },
                )
                &&& !store_before.live().contains(state.id)
                &&& store_after.live() == store_before.live().insert(state.id)
            }
            &&& !first ==> {
                &&& after.hooks.states@ == before.hooks.states@
                &&& store_after.live() == store_before.live()
            }
            &&& children.parent == Some(ParentWidget { entity: current.entity })
            &&& if state.value.is_checked {
                children.queue@.len() == 1 && is_check_mark(
                    children.queue@[0],
                    bundle.checkbox_styles.check.normal,
                )
            } else {
                children.queue@.len() == 0
            }
        },
        _ => {
            &&& children.parent is None
            &&& children.queue@.len() == 0
            &&& after == before
            &&& store_after == store_before
        },
    }
}

/// Renders a checkbox.
///
/// The checkbox takes its state from its first hook call site; the render
/// that creates the state also gives the node the style of an unchecked
/// box that is not hovered. The node asks for one child while it is
/// checked, the check mark, and for none otherwise.
///
/// A node whose props are not those of a checkbox is left as it is: the
/// list that comes back is empty and finalized for no node. So is a
/// checkbox that has no state yet where the store has no room for one.
pub fn render(
    current: CurrentWidget,
    node: &mut WidgetNode<WidgetProps, CheckboxState>,
    store: &mut NodeStore,
) -> (children: WidgetChildren<WidgetProps>)
    requires
        old(node).wf(),
        old(node).alive_in(*old(store)),
        current.entity == old(node).id,
    ensures
        final(node).wf(),
        final(node).alive_in(*final(store)),
        old(node).evolves_to(*final(node), *old(store), *final(store)),
        rendered_as(*old(node), *final(node), *old(store), *final(store), current, children),
        final(store).live().len() + old(node).hooks.states@.len() <= old(store).live().len()
            + final(node).hooks.states@.len(),
{
    let mut children: WidgetChildren<WidgetProps> = WidgetChildren::default();
    let checkbox_styles: CheckboxWidgetStyles = match &node.props {
        WidgetProps::Checkbox(bundle) => bundle.checkbox_styles,
        _ => {
            proof {
                node.lemma_evolves_refl(*store);
            }
            return children;
        },
    };
    let ordinal: usize = node.hooks.cursor;
    let first: bool = ordinal >= node.hooks.states.len();
    let default_state = CheckboxState::default();
    let state_entity: u64 = match node.use_state(store, CheckboxState::default()) {
        Some(id) => id,
        None => {
            return children;
        },
    };
    let ghost used = *node;
    if first {
        node.styles = checkbox_styles.background.get_style(&default_state);
        proof {
            assert(used.hooks.ids() =~= node.hooks.ids());
            used.lemma_same_shape(*node, *store);
            old(node).lemma_evolves_trans(used, *node, *old(store), *store, *store);
        }
    }
    let state: CheckboxState = match node.hooks.position(state_entity) {
        Some(k) => {
            assert(node.hooks.states@[ordinal as int].id == state_entity);
            assert(k == ordinal);
            node.hooks.states[k].value
        },
        None => default_state,
    };

    if state.is_checked {
        let check_styles = checkbox_styles.check.get_style(&default_state);
        children.add(
            ELEMENT,
            WidgetProps::Element(
                ElementBundle {
                    styles: check_styles,
                    render: Some(
                        WidgetRender::Svg {
                            path: CHECKMARK.to_owned(),
                            color: Some(check_styles.color),
                        },
                    ),
                },
            ),
        );
    }
    children.apply(current.as_parent());
    children
}

impl WidgetSystems<WidgetProps, CheckboxState> for Checkbox {
    /// A checkbox and what it shows are due when their props or their
    /// state were written.
    open spec fn due(&self, node: WidgetNode<WidgetProps, CheckboxState>) -> Option<bool> {
        Some(node.should_update_spec())
    }

    /// A checkbox asks for the check mark while it is checked and for
    /// nothing otherwise; an element asks for nothing. A checkbox that has
    /// no state yet, in a store without room for one, gives up.
    open spec fn asks(
        &self,
        widget: u64,
        props: WidgetProps,
        states: Seq<CheckboxState>,
        room: int,
    ) -> Option<Seq<(u64, Option<u64>)>> {
        if widget == CHECKBOX {
            match props {
                WidgetProps::Checkbox(_) => if states.len() == 0 && room < 1 {
                    None
                } else {
                    Some(
                        if states.len() > 0 && states[0].is_checked {
                            seq![(ELEMENT, None::<u64>)]
                        } else {
                            Seq::empty()
                        },
                    )
                },
                _ => None,
            }
        } else if widget == ELEMENT {
            match props {
                WidgetProps::Element(_) => Some(Seq::empty()),
                _ => None,
            }
        } else {
            None
        }
    }

    /// A checkbox and what it shows are rendered when their props or
    /// their state were written.
    fn update(&self, current: CurrentWidget, node: &WidgetNode<WidgetProps, CheckboxState>) -> (due:
        bool)
        ensures
            due == node.should_update_spec(),
    {
        node.should_update()
    }

    /// Renders a checkbox or an element, by the node's widget type. A node
    /// of another type keeps its children.
    fn render(
        &mut self,
        current: CurrentWidget,
        node: &mut WidgetNode<WidgetProps, CheckboxState>,
        store: &mut NodeStore,
    ) -> (children: WidgetChildren<WidgetProps>)
        ensures
            old(node).widget == CHECKBOX ==> rendered_as(
                *old(node),
                *final(node),
                *old(store),
                *final(store),
                current,
                children,
            ),
            old(node).widget == ELEMENT ==> *final(store) == *old(store) && element::rendered_as(
                *old(node),
                *final(node),
                current,
                children,
            ),
            old(node).widget != CHECKBOX && old(node).widget != ELEMENT ==> {
                &&& children.queue@.len() == 0
                &&& children.parent is None
                &&& *final(node) == *old(node)
                &&& *final(store) == *old(store)
            },
    {
        if node.widget == CHECKBOX {
            let children = render(current, node, store);
            proof {
                let asked = self.asks(
                    old(node).widget,
                    old(node).props,
                    old(node).hooks.values(),
                    u32::MAX - old(store).live().len(),
                );
                if asked is Some {
                    assert(descriptor_tags(children.queue@) =~= asked->0);
                }
            }
            children
        } else if node.widget == ELEMENT {
            let children = element::render(current, node);
            proof {
                assert(old(node).hooks.ids() =~= node.hooks.ids());
                old(node).lemma_same_shape(*node, *store);
                let asked = self.asks(
                    old(node).widget,
                    old(node).props,
                    old(node).hooks.values(),
                    u32::MAX - old(store).live().len(),
                );
                if asked is Some {
                    assert(descriptor_tags(children.queue@) =~= asked->0);
                }
            }
            children
        } else {
            proof {
                node.lemma_evolves_refl(*store);
            }
            WidgetChildren::default()
        }
    }
}

} // verus!
