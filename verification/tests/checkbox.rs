use woodpecker_ui::store::NodeStore;
use woodpecker_ui::change::Change;
use woodpecker_ui::node::WidgetNode;
use woodpecker_ui::render::WidgetRender;
use woodpecker_ui::runner::visit;
use woodpecker_ui::styles::{Color, Corner, Units, WoodpeckerStyle};
use woodpecker_ui::widgets::checkbox::{
    on_pointer, Checkbox, CheckboxBundle, CheckboxChanged, CheckboxState, CheckboxStyles,
    CheckboxWidgetStyles, PointerEvent, WidgetProps, CHECKBOX, CHECKMARK,
};
use woodpecker_ui::widgets::element::{ElementBundle, ELEMENT};

fn style(background_color: Color) -> WoodpeckerStyle {
    WoodpeckerStyle { background_color, ..WoodpeckerStyle::default() }
}

fn four() -> CheckboxStyles {
    CheckboxStyles {
        normal: style(Color::BackgroundLight),
        hovered: style(Color::Background),
        checked: style(Color::PrimaryLight),
        hovered_checked: style(Color::Primary),
    }
}

fn checkbox_tree(store: &mut NodeStore) -> WidgetNode<WidgetProps, CheckboxState> {
    WidgetNode::new(store, CHECKBOX, None, WidgetProps::Checkbox(CheckboxBundle::default())).unwrap()
}

#[test]
fn get_style_picks_by_state() {
    let styles = four();
    let at = |is_checked, is_hovering| {
        styles.get_style(&CheckboxState { is_hovering, is_checked }).background_color
    };
    assert_eq!(at(false, false), Color::BackgroundLight);
    assert_eq!(at(false, true), Color::Background);
    assert_eq!(at(true, false), Color::PrimaryLight);
    assert_eq!(at(true, true), Color::Primary);
}

#[test]
fn default_state_is_neither_hovered_nor_checked() {
    assert_eq!(CheckboxState::default(), CheckboxState { is_hovering: false, is_checked: false });
}

#[test]
fn default_style_record() {
    assert_eq!(
        WoodpeckerStyle::default(),
        WoodpeckerStyle {
            background_color: Color::Transparent,
            color: Color::White,
            width: Units::Auto,
            height: Units::Auto,
            border_radius: Corner { top_left: 0, top_right: 0, bottom_left: 0, bottom_right: 0 },
        }
    );
    assert_eq!(
        Corner::all(3),
        Corner { top_left: 3, top_right: 3, bottom_left: 3, bottom_right: 3 }
    );
}

#[test]
fn default_checkbox_styles() {
    let styles = CheckboxWidgetStyles::default();
    let backgrounds = [
        (styles.background.normal, Color::BackgroundLight),
        (styles.background.hovered, Color::Background),
        (styles.background.checked, Color::PrimaryLight),
        (styles.background.hovered_checked, Color::Primary),
    ];
    for (background, color) in backgrounds {
        assert_eq!(
            background,
            WoodpeckerStyle {
                background_color: color,
                color: Color::White,
                width: Units::Pixels(32),
                height: Units::Pixels(32),
                border_radius: Corner::all(2),
            }
        );
    }
    let check = WoodpeckerStyle { color: Color::White, ..WoodpeckerStyle::default() };
    assert_eq!(
        styles.check,
        CheckboxStyles { normal: check, hovered: check, checked: check, hovered_checked: check }
    );
}

#[test]
fn default_bundle() {
    let bundle = CheckboxBundle::default();
    assert_eq!(bundle.checkbox, Checkbox);
    assert_eq!(bundle.checkbox_styles, CheckboxWidgetStyles::default());
    assert!(bundle.internal_children.queue.is_empty());
    assert!(bundle.internal_children.parent.is_none());
    assert_eq!(bundle.styles, WoodpeckerStyle::default());
    assert!(matches!(bundle.render, WidgetRender::Quad));
    let element = ElementBundle::default();
    assert_eq!(element.styles, WoodpeckerStyle::default());
    assert!(element.render.is_none());
}

#[test]
fn handle_pointer_events() {
    let current = woodpecker_ui::context::CurrentWidget { entity: 77 };
    let idle = CheckboxState::default();

    let (over, change) = idle.handle(PointerEvent::Over, current);
    assert_eq!(over, CheckboxState { is_hovering: true, is_checked: false });
    assert!(change.is_none());

    let (clicked, change) = over.handle(PointerEvent::Click, current);
    assert_eq!(clicked, CheckboxState { is_hovering: true, is_checked: true });
    let Change { target, data } = change.unwrap();
    assert_eq!(target, 77);
    assert_eq!(data, CheckboxChanged { checked: true });

    let (out, change) = clicked.handle(PointerEvent::Out, current);
    assert_eq!(out, CheckboxState { is_hovering: false, is_checked: true });
    assert!(change.is_none());

    let (unchecked, change) = out.handle(PointerEvent::Click, current);
    assert_eq!(unchecked, idle);
    assert_eq!(change.unwrap().data, CheckboxChanged { checked: false });
}

#[test]
fn unchecked_checkbox_has_no_child() {
    let mut store = NodeStore::new();
    let mut tree = checkbox_tree(&mut store);
    visit(&mut Checkbox, &mut tree, &mut store, usize::MAX);
    assert!(tree.rendered);
    assert!(tree.children.is_empty());
    assert_eq!(tree.hooks.states.len(), 1);
    assert_eq!(tree.hooks.states[0].value, CheckboxState::default());
    // The first render gives the node the style of an idle box.
    assert_eq!(tree.styles, CheckboxWidgetStyles::default().background.normal);
    // The checkbox and its state.
    assert_eq!(store.len(), 2);
}

#[test]
fn click_checks_and_shows_the_check_mark() {
    let mut store = NodeStore::new();
    let mut tree = checkbox_tree(&mut store);
    visit(&mut Checkbox, &mut tree, &mut store, usize::MAX);
    let current = tree.current();
    let state_entity = tree.hooks.states[0].id;

    let change = on_pointer(&mut tree, current, state_entity, PointerEvent::Click).unwrap();
    assert_eq!(change.target, tree.id);
    assert_eq!(change.data, CheckboxChanged { checked: true });
    assert!(tree.should_update());
    // Nothing is rendered before the next pass.
    assert!(tree.children.is_empty());

    visit(&mut Checkbox, &mut tree, &mut store, usize::MAX);
    assert_eq!(tree.children.len(), 1);
    let mark = &tree.children[0];
    assert_eq!(mark.widget, ELEMENT);
    assert_eq!(mark.key, None);
    let check = CheckboxWidgetStyles::default().check.normal;
    assert_eq!(mark.styles, check);
    match &mark.render {
        Some(WidgetRender::Svg { path, color }) => {
            assert_eq!(path, CHECKMARK);
            assert_eq!(
                path,
                "embedded://woodpecker_ui/embedded_assets/icons/checkmark.svg"
            );
            assert_eq!(*color, Some(Color::White));
        }
        other => panic!("the check mark draws {:?}", other),
    }
    assert!(store.contains(mark.id));
    assert_eq!(store.len(), 3);
    assert_eq!(tree.hooks.states[0].id, state_entity);

    // A second click unchecks: the check mark goes away.
    let mark_id = mark.id;
    let change = on_pointer(&mut tree, current, state_entity, PointerEvent::Click).unwrap();
    assert_eq!(change.data, CheckboxChanged { checked: false });
    visit(&mut Checkbox, &mut tree, &mut store, usize::MAX);
    assert!(tree.children.is_empty());
    assert!(!store.contains(mark_id));
    assert_eq!(store.len(), 2);
}

#[test]
fn hover_is_kept_in_the_state() {
    let mut store = NodeStore::new();
    let mut tree = checkbox_tree(&mut store);
    visit(&mut Checkbox, &mut tree, &mut store, usize::MAX);
    let current = tree.current();
    let state_entity = tree.hooks.states[0].id;

    assert!(on_pointer(&mut tree, current, state_entity, PointerEvent::Over).is_none());
    assert_eq!(
        tree.get_state(state_entity),
        Some(&CheckboxState { is_hovering: true, is_checked: false })
    );
    assert!(tree.should_update());
    visit(&mut Checkbox, &mut tree, &mut store, usize::MAX);
    assert!(tree.children.is_empty());
    // Only the render that creates the state sets the style.
    assert_eq!(tree.styles, CheckboxWidgetStyles::default().background.normal);

    assert!(on_pointer(&mut tree, current, state_entity, PointerEvent::Out).is_none());
    assert_eq!(tree.get_state(state_entity), Some(&CheckboxState::default()));
}

#[test]
fn event_for_a_state_that_is_gone_does_nothing() {
    let mut store = NodeStore::new();
    let mut tree = checkbox_tree(&mut store);
    visit(&mut Checkbox, &mut tree, &mut store, usize::MAX);
    let current = tree.current();
    let missing = tree.id;
    assert!(on_pointer(&mut tree, current, missing, PointerEvent::Click).is_none());
    assert!(!tree.should_update());
    assert_eq!(tree.hooks.states[0].value, CheckboxState::default());
}

#[test]
fn checkbox_render_needs_checkbox_props() {
    let mut store = NodeStore::new();
    let mut tree: WidgetNode<WidgetProps, CheckboxState> = WidgetNode::new(
        &mut store,
        CHECKBOX,
        None,
        WidgetProps::Element(ElementBundle::default()),
    ).unwrap();
    let current = tree.current();
    let children = woodpecker_ui::widgets::checkbox::render(current, &mut tree, &mut store);
    assert!(children.parent.is_none());
    assert!(children.queue.is_empty());
    assert!(tree.hooks.states.is_empty());
    assert_eq!(store.len(), 1);
}

#[test]
fn element_takes_style_and_primitive_from_its_props() {
    let mut store = NodeStore::new();
    let styles = WoodpeckerStyle { width: Units::Percentage(100), ..WoodpeckerStyle::default() };
    let mut tree: WidgetNode<WidgetProps, CheckboxState> = WidgetNode::new(
        &mut store,
        ELEMENT,
        None,
        WidgetProps::Element(ElementBundle {
            styles,
            render: Some(WidgetRender::Text { content: "hello".to_string(), word_wrap: true }),
        }),
    ).unwrap();
    visit(&mut Checkbox, &mut tree, &mut store, usize::MAX);
    assert_eq!(tree.styles, styles);
    match &tree.render {
        Some(WidgetRender::Text { content, word_wrap }) => {
            assert_eq!(content, "hello");
            assert!(*word_wrap);
        }
        other => panic!("the element draws {:?}", other),
    }
    assert!(tree.children.is_empty());
}

#[test]
fn duplicate_copies_every_primitive() {
    let all = [
        WidgetRender::Quad,
        WidgetRender::Text { content: "a".to_string(), word_wrap: false },
        WidgetRender::Image { path: "woodpecker.jpg".to_string() },
        WidgetRender::Svg { path: "mark.svg".to_string(), color: Some(Color::Primary) },
    ];
    for primitive in &all {
        assert_eq!(format!("{:?}", primitive.duplicate()), format!("{:?}", primitive));
    }
}

#[test]
fn bundles_are_cloned_field_by_field() {
    let mut bundle = CheckboxBundle::default();
    bundle.styles.width = Units::Pixels(7);
    bundle.internal_children.add(ELEMENT, ElementBundle::default());
    let copy = bundle.clone();
    assert_eq!(copy.checkbox, bundle.checkbox);
    assert_eq!(copy.checkbox_styles, bundle.checkbox_styles);
    assert_eq!(copy.styles, bundle.styles);
    assert_eq!(copy.internal_children.queue.len(), 1);
    assert_eq!(copy.internal_children.queue[0].widget, ELEMENT);
    assert!(matches!(copy.render, WidgetRender::Quad));
    let props = WidgetProps::Checkbox(copy).clone();
    assert!(matches!(props, WidgetProps::Checkbox(_)));
}
