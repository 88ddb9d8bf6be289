use woodpecker_ui::node::WidgetNode;
use woodpecker_ui::runner::{visit, WoodpeckerContext};
use woodpecker_ui::store::NodeStore;
use woodpecker_ui::widgets::checkbox::{
    state_entity, Checkbox, CheckboxBundle, CheckboxState, WidgetProps, CHECKBOX,
};
use woodpecker_ui::widgets::element::{ElementBundle, ELEMENT};

#[test]
fn new_store_is_empty() {
    let store = NodeStore::new();
    assert_eq!(store.len(), 0);
    assert!(!store.contains(0));
    assert!(!store.contains(1 << 32));
    assert!(!store.contains(u64::MAX));
}

#[test]
fn created_nodes_are_held_until_destroyed() {
    let mut store = NodeStore::new();
    let a = store.create_node().unwrap();
    let b = store.create_node().unwrap();
    assert_ne!(a, b);
    assert!(store.contains(a) && store.contains(b));
    assert_eq!(store.len(), 2);

    assert!(store.destroy_node(a));
    assert!(!store.contains(a));
    assert!(store.contains(b));
    assert_eq!(store.len(), 1);
    // What is gone cannot be destroyed again.
    assert!(!store.destroy_node(a));
    assert_eq!(store.len(), 1);

    // A new node does not take the identity of one that is held.
    let c = store.create_node().unwrap();
    assert_ne!(c, b);
    assert!(store.contains(c));
    assert_eq!(store.len(), 2);
}

#[test]
fn bits_of_no_entity_are_not_held() {
    let mut store = NodeStore::new();
    let a = store.create_node().unwrap();
    assert!(!store.contains(0));
    assert!(!store.destroy_node(0));
    assert!(!store.contains(u64::MAX));
    assert!(!store.destroy_node(u64::MAX));
    assert!(store.contains(a));
    assert_eq!(store.len(), 1);
}

#[test]
fn stores_do_not_share_their_nodes() {
    let mut one = NodeStore::new();
    let other = NodeStore::new();
    let a = one.create_node().unwrap();
    assert!(one.contains(a));
    assert!(!other.contains(a));
    assert_eq!(other.len(), 0);
}

#[test]
fn checkbox_state_identity() {
    let mut store = NodeStore::new();
    let mut tree: WidgetNode<WidgetProps, CheckboxState> = WidgetNode::new(
        &mut store,
        CHECKBOX,
        None,
        WidgetProps::Checkbox(CheckboxBundle::default()),
    ).unwrap();
    // Before its first render a checkbox has no state.
    assert_eq!(state_entity(&tree), None);
    visit(&mut Checkbox, &mut tree, &mut store, usize::MAX);
    let state = state_entity(&tree).unwrap();
    assert_eq!(state, tree.hooks.states[0].id);
    assert!(store.contains(state));
    assert!(tree.contains_state(state));

    let mut element: WidgetNode<WidgetProps, CheckboxState> = WidgetNode::new(
        &mut store,
        ELEMENT,
        None,
        WidgetProps::Element(ElementBundle::default()),
    ).unwrap();
    element.use_state(&mut store, CheckboxState::default()).unwrap();
    assert_eq!(state_entity(&element), None);
}

#[test]
fn pass_renders_all_within_its_depth_and_clears_the_flag() {
    let mut store = NodeStore::new();
    let mut context: WoodpeckerContext<WidgetProps, CheckboxState> = WoodpeckerContext::new(1);
    let tree = WidgetNode::new(
        &mut store,
        CHECKBOX,
        None,
        WidgetProps::Checkbox(CheckboxBundle {
            internal_children: Default::default(),
            ..CheckboxBundle::default()
        }),
    ).unwrap();
    context.set_root_widget(tree);
    assert!(context.run(&mut Checkbox, &mut store));
    {
        let root = context.root_widget.as_mut().unwrap();
        assert!(root.rendered && !root.has_changed());
        let state = state_entity(root).unwrap();
        assert!(root.set_state(state, CheckboxState { is_hovering: false, is_checked: true }));
    }
    assert!(context.run(&mut Checkbox, &mut store));
    let root = context.root_widget.as_ref().unwrap();
    assert!(root.rendered && !root.has_changed());
    assert_eq!(root.children.len(), 1);
    // One level below the root is within the depth of the pass.
    assert!(root.children[0].rendered);
    assert!(!root.children[0].has_changed());
    assert!(matches!(root.props, WidgetProps::Checkbox(_)));
}
