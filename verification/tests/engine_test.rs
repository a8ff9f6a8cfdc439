use virtual_view::event_manager::goes_on;
use virtual_view::prop::{Function, Number, Prop, Props};
use virtual_view::renderer::{pending_state, Instance, Renderer, RootIds, StateTransform};
use virtual_view::transaction::{Patch, RawView};
use virtual_view::view::{Children, Component, ComponentRef, View};

struct Plain;

impl Component for Plain {
    fn render(
        &mut self,
        _component: &ComponentRef,
        _instance: &Instance,
        _props: &Props,
        _children: &Children,
    ) -> View {
        View::new_empty()
    }
}

struct Same;

impl StateTransform for Same {
    fn apply(&self, state: &Props) -> Props {
        state.clone()
    }
}

fn text(view: &RawView) -> String {
    format!("{:?}", view)
}

fn number(value: f64) -> Prop {
    Prop::Number(Number::from_bits(value.to_bits()))
}

fn button(key: &str, handler: u64, label: &str) -> View {
    let mut view = View::new_data("button");
    view.set_key(key.to_owned());
    view.insert_prop("onclick".to_owned(), Prop::Function(Function::new(handler)));
    view.push_child(View::new_text(label));
    view
}

fn panel(handler: u64, buttons: Vec<View>) -> View {
    let mut view = View::new_data("div");
    view.insert_prop("onkey".to_owned(), Prop::Function(Function::new(handler)));
    view.insert_prop("class".to_owned(), Prop::String("panel".to_owned()));
    for button in buttons {
        view.push_child(button);
    }
    view
}

#[test]
fn test_mount_registers_the_bindings_and_mounts_the_children() {
    let mut renderer: Renderer<Plain, Same> = Renderer::new(0, Plain);
    let view = panel(1, vec![button("a", 2, "A"), button("b", 3, "B")]);
    let transactions = renderer.mount(view.clone());

    assert_eq!(transactions.len(), 1);
    let transaction = &transactions[0];
    assert_eq!(renderer.nodes().get(".0").unwrap().view, view);
    assert!(renderer.nodes().get(".0.a").is_some());
    assert!(renderer.nodes().get(".0.b").is_some());
    assert!(renderer.nodes().get(".0.a.0").is_none());
    assert_eq!(renderer.event_manager().get(".0", "onkey").map(|f| f.id()), Some(1));
    assert_eq!(renderer.event_manager().get(".0.a", "onclick").map(|f| f.id()), Some(2));
    assert_eq!(renderer.event_manager().get(".0.b", "onclick").map(|f| f.id()), Some(3));
    assert!(renderer.event_manager().get(".0", "class").is_none());
    assert_eq!(transaction.events().get(".0").unwrap().get("onkey"), Some(&true));
    assert_eq!(transaction.events().get(".0.a").unwrap().get("onclick"), Some(&true));
    assert_eq!(transaction.events().get(".0.b").unwrap().get("onclick"), Some(&true));
    match &transaction.patches().get(".0").unwrap()[0] {
        Patch::Mount(shown) => assert_eq!(text(shown), text(&RawView::from_view(&view))),
        other => panic!("no mount: {:?}", other),
    }
}

#[test]
fn test_unmount_records_what_was_shown_and_the_bindings_taken_off() {
    let mut renderer: Renderer<Plain, Same> = Renderer::new(3, Plain);
    let view = panel(1, vec![button("a", 2, "A")]);
    renderer.mount(view.clone());

    let transactions = renderer.unmount();

    assert_eq!(transactions.len(), 1);
    let transaction = &transactions[0];
    assert_eq!(transaction.removes().len(), 1);
    assert_eq!(
        text(transaction.removes().get(".3").unwrap()),
        text(&RawView::from_view(&view))
    );
    assert_eq!(transaction.events().get(".3").unwrap().get("onkey"), Some(&false));
    assert_eq!(transaction.events().get(".3.a").unwrap().get("onclick"), Some(&false));
    assert!(transaction.patches().is_empty());
    assert!(renderer.nodes().is_empty());
    assert!(renderer.event_manager().is_empty());
    assert!(renderer.unmount().is_empty());
}

#[test]
fn test_receive_adds_one_insert_for_each_new_child_then_props_then_order() {
    let mut renderer: Renderer<Plain, Same> = Renderer::new(0, Plain);
    let first = panel(1, vec![button("a", 2, "A"), button("b", 3, "B")]);
    renderer.mount(first);

    let mut second = panel(1, vec![button("c", 4, "C"), button("a", 2, "A"), button("d", 5, "D")]);
    second.insert_prop("class".to_owned(), Prop::String("wide".to_owned()));
    let (shown, transaction) = renderer.receive(".0", 0, &second).unwrap();

    assert_eq!(shown, second);
    let patches = transaction.patches().get(".0").unwrap();
    let inserts: Vec<&Patch> = patches.iter().filter(|patch| patch.is_insert()).collect();
    assert_eq!(inserts.len(), 2);
    assert_eq!(patches.len(), 4);
    assert!(patches[0].is_insert());
    assert!(patches[1].is_insert());
    assert!(patches[2].is_props());
    assert!(patches[3].is_order());
    match (&patches[0], &patches[1]) {
        (Patch::Insert(one, at_one, view_one), Patch::Insert(two, at_two, view_two)) => {
            assert!(at_one < at_two);
            assert!(one == ".0.c" || one == ".0.d");
            assert!(two == ".0.c" || two == ".0.d");
            assert_ne!(one, two);
            assert!(view_one.children().is_some());
            assert!(view_two.children().is_some());
        }
        other => panic!("no inserts: {:?}", other),
    }
    assert!(renderer.nodes().get(".0.a").is_some());
    assert!(renderer.nodes().get(".0.c").is_some());
    assert!(renderer.nodes().get(".0.d").is_some());
    assert!(renderer.nodes().get(".0.b").is_none());
    assert!(transaction.removes().contains_key(".0.b"));
    assert!(!transaction.removes().contains_key(".0.a"));
    assert!(!transaction.removes().contains_key(".0"));
    assert!(renderer.event_manager().get(".0.b", "onclick").is_none());
    assert_eq!(renderer.event_manager().get(".0.c", "onclick").map(|f| f.id()), Some(4));
    assert_eq!(transaction.events().get(".0.b").unwrap().get("onclick"), Some(&false));
    assert_eq!(transaction.events().get(".0.c").unwrap().get("onclick"), Some(&true));
    assert_eq!(renderer.nodes().get(".0").unwrap().view, second);
}

#[test]
fn test_receive_rebinds_what_the_properties_bind() {
    let mut renderer: Renderer<Plain, Same> = Renderer::new(0, Plain);
    renderer.mount(panel(1, Vec::new()));

    let mut next = View::new_data("div");
    next.insert_prop("onmove".to_owned(), Prop::Function(Function::new(9)));
    let (_, transaction) = renderer.receive(".0", 0, &next).unwrap();

    assert_eq!(renderer.event_manager().get(".0", "onmove").map(|f| f.id()), Some(9));
    assert!(renderer.event_manager().get(".0", "onkey").is_none());
    assert_eq!(transaction.events().get(".0").unwrap().get("onmove"), Some(&true));
    assert_eq!(transaction.events().get(".0").unwrap().get("onkey"), Some(&false));
    let patches = transaction.patches().get(".0").unwrap();
    assert_eq!(patches.len(), 1);
    assert!(patches[0].is_props());
}

#[test]
fn test_receive_of_another_key_gains_one_replace_and_no_removal() {
    let mut renderer: Renderer<Plain, Same> = Renderer::new(0, Plain);
    let first = panel(1, vec![button("a", 2, "A")]);
    renderer.mount(first);

    let next = button("z", 7, "Z");
    let shown_before = button("a", 2, "A");
    let (shown, transaction) = renderer.receive(".0.a", 0, &next).unwrap();

    assert_eq!(shown, next);
    let patches = transaction.patches().get(".0.a").unwrap();
    assert_eq!(patches.len(), 1);
    match &patches[0] {
        Patch::Replace(from, to) => {
            assert_eq!(text(from), text(&RawView::from_view(&shown_before)));
            assert_eq!(text(to), text(&RawView::from_view(&next)));
        }
        other => panic!("no replace: {:?}", other),
    }
    assert!(transaction.removes().is_empty());
    assert!(renderer.nodes().get(".0.z").is_some());
    assert!(renderer.nodes().get(".0.a").is_none());
    assert_eq!(renderer.event_manager().get(".0.z", "onclick").map(|f| f.id()), Some(7));
    assert!(renderer.event_manager().get(".0.a", "onclick").is_none());
}

#[test]
fn test_update_of_a_plain_node_is_its_own_view_received() {
    let mut renderer: Renderer<Plain, Same> = Renderer::new(0, Plain);
    let view = panel(1, vec![button("a", 2, "A")]);
    renderer.mount(view.clone());

    assert!(renderer.update(".0".to_owned(), 0, Same).is_empty());
    assert_eq!(renderer.nodes().get(".0").unwrap().view, view);
    assert_eq!(renderer.event_manager().get(".0", "onkey").map(|f| f.id()), Some(1));

    let mut odd = View::new_data("div");
    odd.insert_prop("value".to_owned(), number(f64::NAN));
    renderer.mount(odd);
    let transactions = renderer.update(".0".to_owned(), 0, Same);
    assert_eq!(transactions.len(), 1);
    let patches = transactions[0].patches().get(".0").unwrap();
    assert_eq!(patches.len(), 1);
    assert!(patches[0].is_props());
}

#[test]
fn test_a_pass_goes_as_deep_as_the_tree() {
    let mut deep = View::new_data("i");
    for _ in 0..300 {
        let mut outer = View::new_data("i");
        outer.push_child(deep);
        deep = outer;
    }
    let mut renderer: Renderer<Plain, Same> = Renderer::new(0, Plain);
    renderer.mount(deep);
    let mut id = ".0".to_owned();
    for _ in 0..300 {
        id.push_str(".0");
    }
    assert!(renderer.nodes().get(&id).is_some());
    renderer.unmount();
    assert!(renderer.nodes().is_empty());
}

#[test]
fn test_goes_on_until_the_last_handler_or_a_halt() {
    let mut event = Props::new();
    assert!(goes_on(0, 2, &event));
    assert!(goes_on(1, 2, &event));
    assert!(!goes_on(2, 2, &event));
    assert!(!goes_on(0, 0, &event));
    event.insert("propagation".to_owned(), Prop::Boolean(true));
    assert!(goes_on(1, 2, &event));
    event.insert("propagation".to_owned(), Prop::Boolean(false));
    assert!(!goes_on(1, 2, &event));
    assert!(!goes_on(2, 2, &event));
}

#[test]
fn test_props_update_changes_the_value_in_place() {
    let mut props = Props::new();
    props.insert("count".to_owned(), number(1.0));
    props.insert("name".to_owned(), Prop::String("n".to_owned()));

    props.update("count", |_| number(2.0));
    props.update("absent", |_| Prop::Boolean(true));

    assert_eq!(props.get("count"), &number(2.0));
    assert_eq!(props.get("name"), &Prop::String("n".to_owned()));
    assert_eq!(props.len(), 2);
    assert!(!props.contains_key("absent"));
    props.update("name", |value| match value {
        Prop::String(text) => Prop::String(text + "!"),
        other => other,
    });
    assert_eq!(props.get("name"), &Prop::String("n!".to_owned()));
}

#[test]
fn test_root_ids_count_up() {
    let mut ids = RootIds::new();
    assert_eq!(ids.upcoming(), 0);
    assert_eq!(ids.next(), 0);
    assert_eq!(ids.next(), 1);
    assert_eq!(ids.upcoming(), 2);
    let first: Renderer<Plain, Same> = Renderer::with_ids(&mut ids, Plain);
    let second: Renderer<Plain, Same> = Renderer::with_ids(&mut ids, Plain);
    assert_eq!(first.root_id(), ".2");
    assert_eq!(second.root_id(), ".3");
    assert_eq!(second.root_index(), 3);
    let mut last = RootIds::starting_at(usize::MAX);
    assert_eq!(last.next(), usize::MAX);
    assert_eq!(last.next(), 0);
}

#[test]
fn test_pending_state_wins_over_the_state() {
    let mut state = Props::new();
    state.insert("count".to_owned(), number(1.0));
    let mut asked = Props::new();
    asked.insert("count".to_owned(), number(2.0));

    assert_eq!(pending_state(&state, Some(asked.clone())), asked);
    assert_eq!(pending_state(&state, None), state);
}

#[test]
fn test_serve_asks_in_order_and_serves() {
    let mut renderer: Renderer<Plain, Same> = Renderer::new(0, Plain);
    let mut odd = View::new_data("div");
    odd.insert_prop("value".to_owned(), number(f64::NAN));
    renderer.mount(odd);

    assert!(renderer.serve(Vec::new()).is_empty());
    let transactions = renderer.serve(vec![
        (".0".to_owned(), 0, Same),
        (".7".to_owned(), 0, Same),
        (".0".to_owned(), 0, Same),
    ]);
    assert_eq!(transactions.len(), 2);
    for transaction in &transactions {
        let patches = transaction.patches().get(".0").unwrap();
        assert_eq!(patches.len(), 1);
        assert!(patches[0].is_props());
    }
}

#[test]
fn test_a_changed_text_is_replaced_under_its_own_identifier() {
    let mut renderer: Renderer<Plain, Same> = Renderer::new(0, Plain);
    let mut first = View::new_data("p");
    first.push_child(View::new_text("Count 0"));
    first.push_child(View::new_text("same"));
    renderer.mount(first);

    let mut second = View::new_data("p");
    second.push_child(View::new_text("Count 1"));
    second.push_child(View::new_text("same"));
    let (_, transaction) = renderer.receive(".0", 0, &second).unwrap();

    let patches = transaction.patches().get(".0.0").unwrap();
    assert_eq!(patches.len(), 1);
    match &patches[0] {
        Patch::Replace(RawView::Text(from), RawView::Text(to)) => {
            assert_eq!(from, "Count 0");
            assert_eq!(to, "Count 1");
        }
        other => panic!("no replace: {:?}", other),
    }
    assert!(transaction.patches().get(".0.1").is_none());
    assert!(transaction.patches().get(".0").is_none());
    assert!(transaction.removes().is_empty());
}
