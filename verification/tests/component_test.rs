use virtual_view::prop::{Function, Handlers, Number, Prop, Props};
use virtual_view::renderer::{Handler, Instance, Renderer, StateTransform};
use virtual_view::transaction::{Patch, RawView, Transaction};
use virtual_view::view::{Children, Component, ComponentRef, View};

const COUNTER: u64 = 1;
const BUTTON: u64 = 2;

fn num(value: f64) -> Prop {
    Prop::Number(Number::from_bits(value.to_bits()))
}

fn count_of(state: &Props) -> f64 {
    match state.get("count").number() {
        Some(number) => f64::from_bits(number.to_bits()),
        None => 0.0,
    }
}

fn text(value: &str) -> Prop {
    Prop::String(value.to_owned())
}

#[derive(Clone, Copy, Debug, PartialEq)]
enum Change {
    Add,
    Sub,
}

impl StateTransform for Change {
    fn apply(&self, state: &Props) -> Props {
        let mut next = state.clone();
        let count = count_of(state);
        let count = match self {
            Change::Add => count + 1.0,
            Change::Sub => count - 1.0,
        };
        next.insert("count".to_owned(), num(count));
        next
    }
}

struct App {
    bindings: Vec<(String, usize, Change)>,
}

impl App {
    fn bind(&mut self, instance: &Instance, change: Change) -> Function {
        let id = instance.updater().id().clone();
        let depth = instance.updater().depth();
        self.bindings.push((id, depth, change));
        Function::new((self.bindings.len() - 1) as u64)
    }
}

fn button(onclick: Function, label: &str) -> View {
    let mut view = View::new_component(ComponentRef::new(BUTTON, "Button".to_owned()));
    view.insert_prop("onclick".to_owned(), Prop::Function(onclick));
    view.push_child(View::new_text(label));
    view
}

impl Component for App {
    fn render(
        &mut self,
        component: &ComponentRef,
        instance: &Instance,
        props: &Props,
        children: &Children,
    ) -> View {
        if component.type_id() == COUNTER {
            let mut view = View::new_data("div");
            view.insert_prop("class".to_owned(), text("Counter"));
            let mut p = View::new_data("p");
            p.push_child(View::new_text(&format!(
                "Count {}",
                count_of(instance.state())
            )));
            view.push_child(p);
            let add = self.bind(instance, Change::Add);
            view.push_child(button(add, "Add"));
            let sub = self.bind(instance, Change::Sub);
            view.push_child(button(sub, "Sub"));
            view
        } else {
            let mut view = View::new_data("button");
            view.insert_prop("class".to_owned(), text("Button"));
            for i in 0..props.len() {
                view.insert_prop(props.key_at(i).clone(), props.value_at(i).clone());
            }
            for child in children {
                view.push_child(child.clone());
            }
            view
        }
    }

    fn initial_state(&mut self, component: &ComponentRef, props: &Props) -> Props {
        let mut state = Props::new();
        if component.type_id() == COUNTER {
            state.insert(
                "count".to_owned(),
                props.take("count").unwrap_or(num(0.0)),
            );
        }
        state
    }
}

struct Clicks {
    bindings: Vec<(String, usize, Change)>,
    requests: Vec<(String, usize, Change)>,
}

impl Handlers for Clicks {
    fn call(&mut self, function: &Function, _event: &mut Props) -> Prop {
        self.requests
            .push(self.bindings[function.id() as usize].clone());
        Prop::Null
    }
}

struct Sink {
    sent: Vec<(String, Transaction)>,
}

impl Handler for Sink {
    fn handle(&mut self, transaction: Transaction) {
        self.sent
            .push(("virtual_view.transaction".to_owned(), transaction));
    }
}

fn counter(count: f64) -> View {
    let mut view = View::new_component(ComponentRef::new(COUNTER, "Counter".to_owned()));
    view.insert_prop("count".to_owned(), num(count));
    view
}

fn click(renderer: &mut Renderer<App, Change>, sink: &mut Sink, id: &str) -> usize {
    let mut event = Props::new();
    event.insert("name".to_owned(), text("onclick"));
    let mut clicks = Clicks {
        bindings: renderer.components().bindings.clone(),
        requests: Vec::new(),
    };
    let called = renderer
        .event_manager()
        .dispatch(&mut clicks, id, &mut event);
    for (id, depth, change) in clicks.requests {
        for transaction in renderer.update(id, depth, change) {
            sink.handle(transaction);
        }
    }
    called
}

fn replaced_text(transaction: &Transaction, id: &str) -> String {
    match &transaction.patches().get(id).unwrap()[0] {
        Patch::Replace(_, RawView::Text(next)) => next.clone(),
        other => panic!("no replace of a text: {:?}", other),
    }
}

#[test]
fn test_component() {
    let mut sink = Sink { sent: Vec::new() };
    let mut renderer = Renderer::new(0, App { bindings: Vec::new() });
    for transaction in renderer.mount(counter(0.0)) {
        sink.handle(transaction);
    }

    click(&mut renderer, &mut sink, ".0.1");
    click(&mut renderer, &mut sink, ".0.2");
    click(&mut renderer, &mut sink, ".0.1");

    for transaction in renderer.unmount() {
        sink.handle(transaction);
    }

    assert_eq!(sink.sent.len(), 5);
    let mut transactions: Vec<Transaction> = sink.sent.into_iter().map(|(_, t)| t).collect();

    let mount_transaction = transactions.remove(0);
    let add0_update_transaction = transactions.remove(0);
    let sub_update_transaction = transactions.remove(0);
    let add1_update_transaction = transactions.remove(0);
    let unmount_transaction = transactions.remove(0);

    assert!(&mount_transaction.patches().get(".0").unwrap()[0].is_mount());
    assert!(&add0_update_transaction.patches().get(".0.0.0").unwrap()[0].is_replace());
    assert!(&sub_update_transaction.patches().get(".0.0.0").unwrap()[0].is_replace());
    assert!(&add1_update_transaction.patches().get(".0.0.0").unwrap()[0].is_replace());
    assert!(&unmount_transaction.removes().contains_key(".0"));

    assert_eq!(replaced_text(&add0_update_transaction, ".0.0.0"), "Count 1");
    assert_eq!(replaced_text(&sub_update_transaction, ".0.0.0"), "Count 0");
    assert_eq!(replaced_text(&add1_update_transaction, ".0.0.0"), "Count 1");
}

#[test]
fn test_mount_registers_nodes_and_events() {
    let mut renderer: Renderer<App, Change> = Renderer::new(0, App { bindings: Vec::new() });
    let transactions = renderer.mount(counter(0.0));

    assert_eq!(transactions.len(), 1);
    assert_eq!(renderer.root_id(), ".0");
    assert_eq!(renderer.root_index(), 0);
    let nodes = renderer.nodes();
    assert!(nodes.get_at_depth(".0", 0).unwrap().is_component());
    assert!(!nodes.get_at_depth(".0", 1).unwrap().is_component());
    assert!(nodes.get(".0.0").is_some());
    assert!(nodes.get(".0.1").unwrap().is_component());
    assert!(nodes.contains(".0.1", 1));
    assert!(nodes.contains(".0.2", 1));
    assert!(nodes.get(".0.0.0").is_none());
    assert!(!nodes.is_empty());

    let events = renderer.event_manager();
    assert!(events.get(".0.1", "onclick").is_some());
    assert!(events.get(".0.2", "onclick").is_some());
    assert!(events.get(".0", "onclick").is_none());

    let mount = &transactions[0];
    assert_eq!(mount.events().get(".0.1").unwrap().get("onclick"), Some(&true));
    match &mount.patches().get(".0").unwrap()[0] {
        Patch::Mount(RawView::Data { kind, props, children, .. }) => {
            assert_eq!(kind, "div");
            assert_eq!(props.get("class"), &text("Counter"));
            assert_eq!(children.len(), 3);
            assert_eq!(children[1].kind().unwrap(), "button");
            assert!(!children[1].props().unwrap().contains_key("onclick"));
        }
        other => panic!("no mount of an element: {:?}", other),
    }
}

#[test]
fn test_two_state_changes_are_served_in_order() {
    let mut renderer = Renderer::new(0, App { bindings: Vec::new() });
    let mounted = renderer.mount(counter(0.0));
    assert_eq!(mounted.len(), 1);
    assert!(mounted[0].patches().get(".0").unwrap()[0].is_mount());

    renderer.request_update(".0".to_owned(), 0, Change::Add);
    renderer.request_update(".0".to_owned(), 0, Change::Add);
    let transactions = renderer.process_queue();

    assert_eq!(transactions.len(), 2);
    assert_eq!(replaced_text(&transactions[0], ".0.0.0"), "Count 1");
    assert_eq!(replaced_text(&transactions[1], ".0.0.0"), "Count 2");
    assert!(renderer.process_queue().is_empty());
}

#[test]
fn test_unmount_clears_every_layer_and_every_handler() {
    let mut renderer: Renderer<App, Change> = Renderer::new(0, App { bindings: Vec::new() });
    renderer.mount(counter(0.0));
    assert!(renderer.nodes().contains(".0", 0));
    assert!(renderer.nodes().contains(".0", 1));
    assert!(renderer.nodes().contains(".0.1", 1));

    let transactions = renderer.unmount();

    assert_eq!(transactions.len(), 1);
    assert!(transactions[0].removes().contains_key(".0"));
    assert_eq!(
        transactions[0].events().get(".0.1").unwrap().get("onclick"),
        Some(&false)
    );
    assert!(renderer.nodes().is_empty());
    assert!(renderer.event_manager().is_empty());
    let mut sink = Sink { sent: Vec::new() };
    assert_eq!(click(&mut renderer, &mut sink, ".0.1"), 0);
    assert_eq!(click(&mut renderer, &mut sink, ".0.2"), 0);
    assert!(sink.sent.is_empty());
    assert!(renderer.unmount().is_empty());
}

#[test]
fn test_update_of_a_missing_node_is_dropped() {
    let mut renderer = Renderer::new(0, App { bindings: Vec::new() });
    renderer.mount(counter(0.0));
    assert!(renderer.update(".9".to_owned(), 0, Change::Add).is_empty());
    assert!(renderer.update(".0".to_owned(), 7, Change::Add).is_empty());

    renderer.request_unmount();
    renderer.request_update(".0".to_owned(), 0, Change::Add);
    let transactions = renderer.process_queue();
    assert_eq!(transactions.len(), 1);
    assert!(transactions[0].removes().contains_key(".0"));
}

#[test]
fn test_mount_replaces_a_mounted_tree() {
    let mut renderer: Renderer<App, Change> = Renderer::new(3, App { bindings: Vec::new() });
    assert_eq!(renderer.root_id(), ".3");
    renderer.mount(counter(0.0));
    let transactions = renderer.mount(counter(5.0));
    assert_eq!(transactions.len(), 2);
    assert!(transactions[0].removes().contains_key(".3"));
    match &transactions[1].patches().get(".3").unwrap()[0] {
        Patch::Mount(RawView::Data { children, .. }) => match &children[0] {
            RawView::Data { children, .. } => {
                assert!(matches!(&children[0], RawView::Text(t) if t == "Count 5"))
            }
            other => panic!("no element: {:?}", other),
        },
        other => panic!("no mount: {:?}", other),
    }
}

#[test]
fn test_depth_limit_stops_the_pass() {
    let mut renderer: Renderer<App, Change> = Renderer::new(0, App { bindings: Vec::new() });
    renderer.set_limit(1);
    renderer.mount(counter(0.0));
    assert!(renderer.nodes().contains(".0", 0));
    assert!(renderer.nodes().contains(".0", 1));
    assert!(renderer.nodes().get(".0.0").is_none());
    renderer.unmount();
    assert!(renderer.nodes().is_empty());
}
