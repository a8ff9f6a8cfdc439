use virtual_view::prop::{Function, Number, Prop, Props};
use virtual_view::renderer::{Instance, Renderer, StateTransform};
use virtual_view::transaction::{Patch, RawView};
use virtual_view::view::{Children, Component, ComponentRef, View};

struct NoComponents;

impl Component for NoComponents {
    fn render(
        &mut self,
        _component: &ComponentRef,
        _instance: &Instance,
        _props: &Props,
        _children: &Children,
    ) -> View {
        View::new_empty()
    }
}

struct Keep;

impl StateTransform for Keep {
    fn apply(&self, state: &Props) -> Props {
        state.clone()
    }
}

fn num(value: f64) -> Prop {
    Prop::Number(Number::from_bits(value.to_bits()))
}

fn item(key: Option<&str>, label: &str) -> View {
    let mut view = View::new_data("li");
    if let Some(key) = key {
        view.set_key(key.to_owned());
    }
    view.push_child(View::new_text(label));
    view
}

fn list(class: &str, items: Vec<View>) -> View {
    let mut view = View::new_data("ul");
    view.insert_prop("class".to_owned(), Prop::String(class.to_owned()));
    for item in items {
        view.push_child(item);
    }
    view
}

#[test]
fn test_receive_renders_the_new_view() {
    let mut renderer: Renderer<NoComponents, Keep> = Renderer::new(0, NoComponents);
    let first = list(
        "a",
        vec![item(Some("x"), "x"), item(Some("y"), "y"), item(None, "u")],
    );
    let mounted = renderer.mount(first.clone());
    match &mounted[0].patches().get(".0").unwrap()[0] {
        Patch::Mount(view) => assert_eq!(view.children().unwrap().len(), 3),
        other => panic!("no mount: {:?}", other),
    }
    assert!(renderer.nodes().get(".0.x").is_some());
    assert!(renderer.nodes().get(".0.y").is_some());
    assert!(renderer.nodes().get(".0.2").is_some());

    let second = list(
        "b",
        vec![
            item(Some("y"), "y2"),
            item(Some("z"), "z"),
            item(Some("x"), "x"),
        ],
    );
    let (shown, transaction) = renderer.receive(".0", 0, &second).unwrap();

    assert_eq!(shown, second);
    assert_eq!(renderer.nodes().get(".0").unwrap().view, second);
    let patches = transaction.patches().get(".0").unwrap();
    assert_eq!(patches.len(), 3);
    match &patches[0] {
        Patch::Insert(id, index, RawView::Data { key, .. }) => {
            assert_eq!(id, ".0.z");
            assert_eq!(*index, 3);
            assert_eq!(key.as_deref(), Some("z"));
        }
        other => panic!("no insert: {:?}", other),
    }
    match &patches[1] {
        Patch::Props(prev, patch) => {
            assert_eq!(prev.get("class"), &Prop::String("a".to_owned()));
            assert_eq!(patch.get("class"), &Prop::String("b".to_owned()));
            assert_eq!(patch.len(), 1);
        }
        other => panic!("no props: {:?}", other),
    }
    assert!(patches[2].is_order());
    assert!(transaction.removes().contains_key(".0.2"));
    assert!(!transaction.removes().contains_key(".0.x"));
    assert!(transaction.patches().get(".0.y.0").unwrap()[0].is_replace());
    assert!(transaction.patches().get(".0.x").is_none());
    assert!(renderer.nodes().get(".0.2").is_none());
    assert!(renderer.nodes().get(".0.z").is_some());

    let (again, nothing) = renderer.receive(".0", 0, &second).unwrap();
    assert_eq!(again, second);
    assert!(nothing.is_empty());
}

#[test]
fn test_receive_of_another_kind_replaces_the_node() {
    let mut renderer: Renderer<NoComponents, Keep> = Renderer::new(0, NoComponents);
    let mut first = list("a", vec![item(None, "u")]);
    first.insert_prop("onclick".to_owned(), Prop::Function(Function::new(1)));
    renderer.mount(first);
    assert!(renderer.event_manager().get(".0", "onclick").is_some());

    let mut second = View::new_data("ol");
    second.insert_prop("size".to_owned(), num(2.0));
    let (shown, transaction) = renderer.receive(".0", 0, &second).unwrap();

    assert_eq!(shown, second);
    match &transaction.patches().get(".0").unwrap()[0] {
        Patch::Replace(prev, next) => {
            assert_eq!(prev.kind().unwrap(), "ul");
            assert_eq!(next.kind().unwrap(), "ol");
        }
        other => panic!("no replace: {:?}", other),
    }
    assert_eq!(
        transaction.events().get(".0").unwrap().get("onclick"),
        Some(&false)
    );
    assert!(renderer.event_manager().is_empty());
    assert!(renderer.nodes().get(".0.0").is_none());
    assert_eq!(renderer.nodes().get(".0").unwrap().view.tag().unwrap(), "ol");
}

#[test]
fn test_receive_updates_event_bindings() {
    let mut renderer: Renderer<NoComponents, Keep> = Renderer::new(0, NoComponents);
    let mut first = View::new_data("button");
    first.insert_prop("onclick".to_owned(), Prop::Function(Function::new(1)));
    first.insert_prop("online".to_owned(), Prop::Boolean(true));
    first.insert_prop("click".to_owned(), Prop::Function(Function::new(2)));
    renderer.mount(first);
    assert_eq!(renderer.event_manager().get(".0", "onclick").unwrap().id(), 1);
    assert!(renderer.event_manager().get(".0", "online").is_none());
    assert!(renderer.event_manager().get(".0", "click").is_none());

    let mut second = View::new_data("button");
    second.insert_prop("onkey".to_owned(), Prop::Function(Function::new(3)));
    let (_, transaction) = renderer.receive(".0", 0, &second).unwrap();

    assert!(renderer.event_manager().get(".0", "onclick").is_none());
    assert_eq!(renderer.event_manager().get(".0", "onkey").unwrap().id(), 3);
    let events = transaction.events().get(".0").unwrap();
    assert_eq!(events.get("onclick"), Some(&false));
    assert_eq!(events.get("onkey"), Some(&true));
    match &transaction.patches().get(".0").unwrap()[0] {
        Patch::Props(prev, patch) => {
            assert_eq!(prev.len(), 1);
            assert_eq!(prev.get("online"), &Prop::Boolean(true));
            assert_eq!(patch.len(), 3);
            assert_eq!(patch.get("online"), &Prop::Null);
            assert!(patch.contains_key("click"));
            assert!(patch.contains_key("onclick"));
            assert!(!patch.contains_key("onkey"));
        }
        other => panic!("no props: {:?}", other),
    }
}

#[test]
fn test_receive_at_a_missing_node_does_nothing() {
    let mut renderer: Renderer<NoComponents, Keep> = Renderer::new(0, NoComponents);
    renderer.mount(list("a", vec![]));
    assert!(renderer.receive(".1", 0, &View::new_text("t")).is_none());
    assert!(renderer.receive(".0", 1, &View::new_text("t")).is_none());
    assert!(renderer.nodes().get(".0").is_some());
}
