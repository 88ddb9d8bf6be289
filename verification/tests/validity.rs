use woodpecker_ui::store::NodeStore;
use woodpecker_ui::children::WidgetChildren;
use woodpecker_ui::hooks::{HookHelper, StateNode};
use woodpecker_ui::node::WidgetNode;
use woodpecker_ui::runner::WoodpeckerContext;

fn small_tree(store: &mut NodeStore) -> WidgetNode<u32, u32> {
    let mut root: WidgetNode<u32, u32> = WidgetNode::new(store, 1, None, 0).unwrap();
    root.use_state(store, 1).unwrap();
    let mut list: WidgetChildren<u32> = WidgetChildren::new();
    list.add(2, 0);
    list.add(3, 0);
    list.apply(root.current().as_parent());
    assert!(list.process(&mut root, store));
    root.children[1].use_state(store, 2).unwrap();
    root
}

#[test]
fn entities_lists_the_whole_tree() {
    let mut store = NodeStore::new();
    let root = small_tree(&mut store);
    let mut expected = vec![
        root.id,
        root.hooks.states[0].id,
        root.children[0].id,
        root.children[1].id,
        root.children[1].hooks.states[0].id,
    ];
    let mut all = root.entities();
    all.sort();
    expected.sort();
    assert_eq!(all, expected);
    for id in &expected {
        assert!(root.owns_entity(*id));
    }
    assert!(root.children[1].owns_entity(root.children[1].hooks.states[0].id));
    assert!(!root.children[0].owns_entity(root.id));
    assert!(!root.children[0].owns_entity(root.children[1].id));

    let stranger = store.create_node().unwrap();
    assert!(!root.owns_entity(stranger));
}

#[test]
fn built_tree_is_well_formed_and_alive() {
    let mut store = NodeStore::new();
    let root = small_tree(&mut store);
    assert!(root.is_well_formed());
    assert!(root.is_alive_in(&store));
    assert_eq!(store.len(), 5);
}

#[test]
fn tree_with_a_despawned_entity_is_not_alive() {
    let mut store = NodeStore::new();
    let root = small_tree(&mut store);
    let state = root.children[1].hooks.states[0].id;
    assert!(store.destroy_node(state));
    assert!(root.is_well_formed());
    assert!(!root.is_alive_in(&store));
    assert!(root.children[0].is_alive_in(&store));
}

#[test]
fn tree_is_not_alive_in_another_store() {
    let mut store = NodeStore::new();
    let root = small_tree(&mut store);
    let other = NodeStore::new();
    assert!(!root.is_alive_in(&other));
}

#[test]
fn repeated_identity_is_not_well_formed() {
    let mut store = NodeStore::new();

    // A child with the identity of its parent.
    let mut root = small_tree(&mut store);
    root.children[0].id = root.id;
    assert!(!root.is_well_formed());

    // Two children with one identity.
    let mut root = small_tree(&mut store);
    root.children[1].id = root.children[0].id;
    assert!(!root.is_well_formed());

    // A state with the identity of a node below.
    let mut root = small_tree(&mut store);
    root.hooks.states[0].id = root.children[0].id;
    assert!(!root.is_well_formed());

    // A state of a child with the identity of a state of the parent.
    let mut root = small_tree(&mut store);
    root.children[1].hooks.states[0].id = root.hooks.states[0].id;
    assert!(!root.is_well_formed());
    assert!(root.children[1].is_well_formed());
}

#[test]
fn hook_registry_well_formedness() {
    let state = |id: u64| StateNode { id, value: 0u8, changed: false };
    let good = HookHelper { states: vec![state(1), state(2), state(3)], cursor: 3 };
    assert!(good.is_well_formed());
    let twice = HookHelper { states: vec![state(1), state(2), state(1)], cursor: 0 };
    assert!(!twice.is_well_formed());
    let beyond = HookHelper { states: vec![state(1)], cursor: 2 };
    assert!(!beyond.is_well_formed());
    let empty: HookHelper<u8> = HookHelper::new();
    assert!(empty.is_well_formed());
    assert_eq!(good.position(2), Some(1));
    assert_eq!(good.position(9), None);
    assert_eq!(twice.position(1), Some(0));
}

#[test]
fn context_validity() {
    let mut store = NodeStore::new();
    let mut context: WoodpeckerContext<u32, u32> = WoodpeckerContext::new(8);
    assert!(context.is_valid(&store));
    let root = small_tree(&mut store);
    let child = root.children[0].id;
    context.set_root_widget(root);
    assert!(context.is_valid(&store));
    assert!(store.destroy_node(child));
    assert!(!context.is_valid(&store));
}

#[test]
fn clearing_flags_keeps_states_and_records() {
    let mut store = NodeStore::new();
    let mut root = small_tree(&mut store);
    let state = root.hooks.states[0].id;
    assert!(root.set_state(state, 9));
    assert!(root.has_changed());
    assert!(root.should_update());
    root.clear_changed();
    assert!(!root.has_changed());
    assert!(!root.should_update());
    assert_eq!(root.get_state(state), Some(&9));
    assert_eq!(root.hooks.states[0].id, state);
    assert_eq!(root.props, 0);
    assert_eq!(root.children.len(), 2);
}
