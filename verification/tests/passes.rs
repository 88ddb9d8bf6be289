use std::cell::RefCell;
use woodpecker_ui::store::NodeStore;
use woodpecker_ui::children::WidgetChildren;
use woodpecker_ui::context::CurrentWidget;
use woodpecker_ui::node::WidgetNode;
use woodpecker_ui::render::WidgetRender;
use woodpecker_ui::runner::{visit, visit_as, WidgetSystems, WoodpeckerContext};

const APP: u64 = 1;
const COUNTER: u64 = 2;
const TEXT: u64 = 3;
const BUTTON: u64 = 4;

#[derive(Clone, Debug, PartialEq)]
enum Props {
    App,
    Counter { initial_count: u32 },
    Text(String),
    Button,
}

/// The widgets of a small application: an app with one counter, a counter
/// with a text and a button. It keeps a log of what the runner asks.
struct Widgets {
    /// For each predicate that ran: the node, and what `has_changed` said.
    predicates: RefCell<Vec<(u64, bool)>>,
    /// The nodes that were rendered, in order.
    renders: Vec<u64>,
    /// What `use_state` handed to each render of a counter.
    states: Vec<u64>,
}

impl Widgets {
    fn new() -> Self {
        Widgets { predicates: RefCell::new(Vec::new()), renders: Vec::new(), states: Vec::new() }
    }

    fn forget(&mut self) {
        self.predicates.borrow_mut().clear();
        self.renders.clear();
    }
}

impl WidgetSystems<Props, u32> for Widgets {
    fn update(&self, current: CurrentWidget, node: &WidgetNode<Props, u32>) -> bool {
        assert_eq!(current.entity(), node.id);
        self.predicates.borrow_mut().push((node.id, node.has_changed()));
        node.should_update()
    }

    fn render(
        &mut self,
        current: CurrentWidget,
        node: &mut WidgetNode<Props, u32>,
        store: &mut NodeStore,
    ) -> WidgetChildren<Props> {
        self.renders.push(node.id);
        let mut children = WidgetChildren::default();
        match node.widget {
            APP => {
                children.add(COUNTER, Props::Counter { initial_count: 0 });
            }
            COUNTER => {
                let Props::Counter { initial_count } = node.props.clone() else {
                    return children;
                };
                let Some(state_entity) = node.use_state(store, initial_count) else {
                    return children;
                };
                self.states.push(state_entity);
                let Some(count) = node.get_state(state_entity).copied() else {
                    return children;
                };
                children.add(TEXT, Props::Text(format!("Current Count: {}", count)));
                children.add(BUTTON, Props::Button);
            }
            TEXT => {
                if let Props::Text(content) = &node.props {
                    node.render =
                        Some(WidgetRender::Text { content: content.clone(), word_wrap: false });
                }
            }
            _ => {}
        }
        children.apply(current.as_parent());
        children
    }
}

fn alive(store: &NodeStore, id: u64) -> bool {
    store.contains(id)
}

fn click(root: &mut WidgetNode<Props, u32>, state_entity: u64) -> bool {
    let Some(count) = root.get_state(state_entity).copied() else {
        return false;
    };
    root.set_state(state_entity, count + 1)
}

fn text_of(root: &WidgetNode<Props, u32>) -> String {
    let counter = &root.children[0];
    match &counter.children[0].render {
        Some(WidgetRender::Text { content, .. }) => content.clone(),
        other => panic!("the text child draws {:?}", other),
    }
}

#[test]
fn first_pass_renders_parent_before_child() {
    let mut store = NodeStore::new();
    let mut widgets = Widgets::new();
    let mut root: WidgetNode<Props, u32> = WidgetNode::new(&mut store, APP, None, Props::App).unwrap();
    visit(&mut widgets, &mut root, &mut store, usize::MAX);

    let counter = &root.children[0];
    let text = &counter.children[0];
    let button = &counter.children[1];
    assert_eq!(widgets.renders, vec![root.id, counter.id, text.id, button.id]);
    // A node that was never rendered is rendered without asking its predicate.
    assert!(widgets.predicates.borrow().is_empty());
    assert!(root.rendered && counter.rendered && text.rendered && button.rendered);
    assert_eq!(counter.props, Props::Counter { initial_count: 0 });
    assert_eq!(text_of(&root), "Current Count: 0");
    // Four nodes and the counter's state.
    assert_eq!(store.len(), 5);
}

#[test]
fn counter_shows_the_number_of_clicks() {
    let mut store = NodeStore::new();
    let mut widgets = Widgets::new();
    let mut root: WidgetNode<Props, u32> = WidgetNode::new(&mut store, APP, None, Props::App).unwrap();
    visit(&mut widgets, &mut root, &mut store, usize::MAX);
    assert_eq!(text_of(&root), "Current Count: 0");
    let state_entity = widgets.states[0];
    let text_id = root.children[0].children[0].id;

    for clicks in 1..=3u32 {
        assert!(click(&mut root, state_entity));
        visit(&mut widgets, &mut root, &mut store, usize::MAX);
        assert_eq!(text_of(&root), format!("Current Count: {}", clicks));
    }
    assert_eq!(text_of(&root), "Current Count: 3");
    assert_eq!(root.get_state(state_entity), Some(&3));
    // The text child is the same node throughout.
    assert_eq!(root.children[0].children[0].id, text_id);
    assert_eq!(store.len(), 5);

    // Two clicks between passes count both.
    assert!(click(&mut root, state_entity));
    assert!(click(&mut root, state_entity));
    visit(&mut widgets, &mut root, &mut store, usize::MAX);
    assert_eq!(text_of(&root), "Current Count: 5");
}

#[test]
fn a_click_renders_the_counter_and_not_the_app() {
    let mut store = NodeStore::new();
    let mut widgets = Widgets::new();
    let mut root: WidgetNode<Props, u32> = WidgetNode::new(&mut store, APP, None, Props::App).unwrap();
    visit(&mut widgets, &mut root, &mut store, usize::MAX);
    let state_entity = widgets.states[0];
    widgets.forget();

    assert!(click(&mut root, state_entity));
    visit(&mut widgets, &mut root, &mut store, usize::MAX);
    let counter = &root.children[0];
    // The app is skipped, its child is still visited; the counter renders and
    // with it, through their new props, its children.
    assert_eq!(widgets.renders, vec![counter.id, counter.children[0].id, counter.children[1].id]);
}

#[test]
fn use_state_gives_the_same_state_in_every_pass() {
    let mut store = NodeStore::new();
    let mut widgets = Widgets::new();
    let mut root: WidgetNode<Props, u32> = WidgetNode::new(&mut store, APP, None, Props::App).unwrap();
    visit(&mut widgets, &mut root, &mut store, usize::MAX);
    let state_entity = widgets.states[0];

    // Passes in which nothing is due render nothing and keep the state.
    for _ in 0..3 {
        visit(&mut widgets, &mut root, &mut store, usize::MAX);
    }
    assert_eq!(widgets.states, vec![state_entity]);
    assert_eq!(root.children[0].hooks.states[0].id, state_entity);
    assert!(alive(&store, state_entity));

    // Passes that render the counter get the state they got before.
    for _ in 0..4 {
        assert!(click(&mut root, state_entity));
        visit(&mut widgets, &mut root, &mut store, usize::MAX);
    }
    assert_eq!(widgets.states, vec![state_entity; 5]);
    assert_eq!(root.children[0].hooks.states.len(), 1);
    assert_eq!(root.get_state(state_entity), Some(&4));
}

#[test]
fn initial_value_is_used_once() {
    let mut store = NodeStore::new();
    let mut node: WidgetNode<Props, u32> = WidgetNode::new(&mut store, COUNTER, None, Props::App).unwrap();
    node.begin_render();
    let first = node.use_state(&mut store, 11).unwrap();
    let second = node.use_state(&mut store, 22).unwrap();
    assert_ne!(first, second);
    assert!(alive(&store, first) && alive(&store, second));
    assert_eq!(store.len(), 3);

    node.begin_render();
    assert_eq!(node.use_state(&mut store, 33).unwrap(), first);
    assert_eq!(node.use_state(&mut store, 44).unwrap(), second);
    assert_eq!(node.get_state(first), Some(&11));
    assert_eq!(node.get_state(second), Some(&22));
    assert_eq!(store.len(), 3);

    // A call site that a later render reaches for the first time gets a new state.
    let third = node.use_state(&mut store, 55).unwrap();
    assert!(third != first && third != second);
    assert_eq!(node.get_state(third), Some(&55));
    assert_eq!(node.hooks.cursor, 3);
}

#[test]
fn overwritten_props_are_seen_by_one_predicate() {
    let mut store = NodeStore::new();
    let mut widgets = Widgets::new();
    let mut root: WidgetNode<Props, u32> = WidgetNode::new(&mut store, APP, None, Props::App).unwrap();
    visit(&mut widgets, &mut root, &mut store, usize::MAX);
    visit(&mut widgets, &mut root, &mut store, usize::MAX);
    let counter_id = root.children[0].id;
    widgets.forget();

    root.children[0].set_props(Props::Counter { initial_count: 0 });
    assert!(root.children[0].has_changed());

    let seen = |widgets: &Widgets| -> Vec<bool> {
        widgets
            .predicates
            .borrow()
            .iter()
            .filter(|(id, _)| *id == counter_id)
            .map(|(_, changed)| *changed)
            .collect()
    };
    visit(&mut widgets, &mut root, &mut store, usize::MAX);
    assert_eq!(seen(&widgets), vec![true]);
    assert!(!root.children[0].has_changed());
    assert!(widgets.renders.contains(&counter_id));

    widgets.forget();
    visit(&mut widgets, &mut root, &mut store, usize::MAX);
    visit(&mut widgets, &mut root, &mut store, usize::MAX);
    assert_eq!(seen(&widgets), vec![false, false]);
    assert!(widgets.renders.is_empty());

    root.children[0].set_props(Props::Counter { initial_count: 0 });
    visit(&mut widgets, &mut root, &mut store, usize::MAX);
    assert_eq!(seen(&widgets), vec![false, false, true]);
}

#[test]
fn stale_state_is_not_written() {
    let mut store = NodeStore::new();
    let mut widgets = Widgets::new();
    let mut root: WidgetNode<Props, u32> = WidgetNode::new(&mut store, APP, None, Props::App).unwrap();
    visit(&mut widgets, &mut root, &mut store, usize::MAX);
    let state_entity = widgets.states[0];

    // The app stops asking for its counter.
    let mut empty: WidgetChildren<Props> = WidgetChildren::new();
    empty.apply(root.current().as_parent());
    assert!(empty.process(&mut root, &mut store));
    assert!(!alive(&store, state_entity));
    assert_eq!(store.len(), 1);

    assert!(!root.contains_state(state_entity));
    assert_eq!(root.get_state(state_entity), None);
    assert!(!root.set_state(state_entity, 9));
    assert!(!click(&mut root, state_entity));
    assert!(!root.should_update());
}

#[test]
fn set_state_marks_the_owner_only() {
    let mut store = NodeStore::new();
    let mut widgets = Widgets::new();
    let mut root: WidgetNode<Props, u32> = WidgetNode::new(&mut store, APP, None, Props::App).unwrap();
    visit(&mut widgets, &mut root, &mut store, usize::MAX);
    let state_entity = widgets.states[0];
    assert!(!root.children[0].should_update());

    assert!(root.set_state(state_entity, 7));
    assert!(root.children[0].should_update());
    assert!(root.children[0].hooks.states[0].changed);
    // The props were not written.
    assert!(!root.children[0].has_changed());
    assert!(!root.should_update());
    assert!(!root.children[0].children[0].should_update());
    assert_eq!(root.get_state(state_entity), Some(&7));
}

#[test]
fn depth_limits_how_far_a_pass_goes() {
    let mut store = NodeStore::new();
    let mut widgets = Widgets::new();
    let mut root: WidgetNode<Props, u32> = WidgetNode::new(&mut store, APP, None, Props::App).unwrap();
    visit(&mut widgets, &mut root, &mut store, 0);
    assert_eq!(widgets.renders, vec![root.id]);
    assert_eq!(root.children.len(), 1);
    assert!(!root.children[0].rendered);

    visit(&mut widgets, &mut root, &mut store, 1);
    assert!(root.children[0].rendered);
    assert_eq!(root.children[0].children.len(), 2);
    assert!(!root.children[0].children[0].rendered);

    visit(&mut widgets, &mut root, &mut store, 2);
    assert!(root.children[0].children[0].rendered);
    assert_eq!(text_of(&root), "Current Count: 0");
}

#[test]
fn context_runs_from_its_root() {
    let mut store = NodeStore::new();
    let mut widgets = Widgets::new();
    let mut context: WoodpeckerContext<Props, u32> = WoodpeckerContext::new(usize::MAX);
    assert_eq!(context.get_root_widget(), None);
    assert!(!context.run(&mut widgets, &mut store));
    assert_eq!(store.len(), 0);

    let root = WidgetNode::new(&mut store, APP, None, Props::App).unwrap();
    let root_id = root.id;
    assert!(context.set_root_widget(root).is_none());
    assert_eq!(context.get_root_widget(), Some(root_id));
    assert!(context.run(&mut widgets, &mut store));
    assert_eq!(context.get_root_widget(), Some(root_id));
    let tree = context.root_widget.as_ref().unwrap();
    assert_eq!(text_of(tree), "Current Count: 0");

    let other = WidgetNode::new(&mut store, APP, None, Props::App).unwrap();
    let previous = context.set_root_widget(other).unwrap();
    assert_eq!(previous.id, root_id);
    previous.destroy(&mut store);
    assert_eq!(store.len(), 1);
}

#[test]
fn render_without_its_record_keeps_the_children() {
    let mut store = NodeStore::new();
    let mut widgets = Widgets::new();
    let mut root: WidgetNode<Props, u32> = WidgetNode::new(&mut store, APP, None, Props::App).unwrap();
    visit(&mut widgets, &mut root, &mut store, usize::MAX);
    let before: Vec<u64> = root.children[0].children.iter().map(|n| n.id).collect();

    // The counter finds props that are not its own: its render gives up.
    root.children[0].set_props(Props::Button);
    visit(&mut widgets, &mut root, &mut store, usize::MAX);
    let after: Vec<u64> = root.children[0].children.iter().map(|n| n.id).collect();
    assert_eq!(after, before);
    assert_eq!(text_of(&root), "Current Count: 0");
    assert_eq!(store.len(), 5);
}

#[test]
fn node_that_is_not_due_keeps_its_children() {
    let mut store = NodeStore::new();
    let mut widgets = Widgets::new();
    let mut root: WidgetNode<Props, u32> = WidgetNode::new(&mut store, APP, None, Props::App).unwrap();
    visit(&mut widgets, &mut root, &mut store, usize::MAX);
    let counter_id = root.children[0].id;
    let state_entity = widgets.states[0];
    widgets.forget();

    root.set_props(Props::App);
    assert!(click(&mut root, state_entity));
    // The app is written to, but it is visited as a node that is not due.
    visit_as(&mut widgets, &mut root, &mut store, usize::MAX, false);
    assert!(!widgets.renders.contains(&root.id));
    assert!(!root.has_changed());
    assert_eq!(root.children.len(), 1);
    assert_eq!(root.children[0].id, counter_id);
    // Its child was due by its own state, and was rendered.
    assert_eq!(widgets.renders[0], counter_id);
    assert_eq!(text_of(&root), "Current Count: 1");
    assert_eq!(root.children[0].hooks.states[0].id, state_entity);
}

#[test]
fn node_that_is_due_is_rendered_without_its_predicate() {
    let mut store = NodeStore::new();
    let mut widgets = Widgets::new();
    let mut root: WidgetNode<Props, u32> = WidgetNode::new(&mut store, APP, None, Props::App).unwrap();
    visit(&mut widgets, &mut root, &mut store, usize::MAX);
    let counter_id = root.children[0].id;
    widgets.forget();

    visit_as(&mut widgets, &mut root, &mut store, 0, true);
    assert_eq!(widgets.renders, vec![root.id]);
    assert!(widgets.predicates.borrow().is_empty());
    // The render asks for the same child: it stays, with new props.
    assert_eq!(root.children[0].id, counter_id);
    assert!(root.children[0].has_changed());
}
