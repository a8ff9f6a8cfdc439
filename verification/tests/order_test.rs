use virtual_view::prop::{Function, Handlers, Number, Prop, Props};
use virtual_view::renderer::{Handler, Instance, Renderer, StateTransform};
use virtual_view::transaction::{Patch, Transaction};
use virtual_view::view::{Children, Component, ComponentRef, View};

fn num(value: f64) -> Prop {
    Prop::Number(Number::from_bits(value.to_bits()))
}

fn count_of(state: &Props) -> f64 {
    f64::from_bits(state.take("count").unwrap().number().unwrap().to_bits())
}

struct Click;

impl StateTransform for Click {
    fn apply(&self, state: &Props) -> Props {
        let mut next = state.clone();
        next.insert("count".to_owned(), num(count_of(state) + 1.0));
        next
    }
}

struct App {
    updaters: Vec<(String, usize)>,
}

fn item(key: &str) -> View {
    let mut view = View::new_data("p");
    view.set_key(key.to_owned());
    view.push_child(View::new_text(key));
    view
}

impl Component for App {
    fn render(
        &mut self,
        _component: &ComponentRef,
        instance: &Instance,
        _props: &Props,
        _children: &Children,
    ) -> View {
        let count = count_of(instance.state()) % 3.0;

        let children = if count == 0.0 {
            vec![item("0"), item("1"), item("2"), item("3")]
        } else if count == 1.0 {
            vec![item("2"), item("3"), item("1")]
        } else {
            vec![item("1"), item("2")]
        };

        self.updaters.push((
            instance.updater().id().clone(),
            instance.updater().depth(),
        ));
        let onclick = Function::new((self.updaters.len() - 1) as u64);

        let mut view = View::new_data("div");
        view.insert_prop("class".to_owned(), Prop::String("App".to_owned()));
        let mut button = View::new_data("button");
        button.insert_prop("onclick".to_owned(), Prop::Function(onclick));
        button.push_child(View::new_text("Click Me!"));
        view.push_child(button);
        let mut list = View::new_data("div");
        for child in children {
            list.push_child(child);
        }
        view.push_child(list);
        view
    }

    fn initial_state(&mut self, _component: &ComponentRef, _props: &Props) -> Props {
        let mut state = Props::new();
        state.insert("count".to_owned(), num(0.0));
        state
    }
}

struct Clicks {
    updaters: Vec<(String, usize)>,
    requests: Vec<(String, usize)>,
}

impl Handlers for Clicks {
    fn call(&mut self, function: &Function, _event: &mut Props) -> Prop {
        self.requests
            .push(self.updaters[function.id() as usize].clone());
        Prop::Null
    }
}

struct Sink {
    sent: Vec<(String, Transaction)>,
}

impl Handler for Sink {
    fn handle(&mut self, transaction: Transaction) {
        self.sent
            .push(("virtual_view.transaction".to_owned(), transaction));
    }
}

fn click(renderer: &mut Renderer<App, Click>, sink: &mut Sink, id: &str) {
    let mut event = Props::new();
    event.insert("name".to_owned(), Prop::String("onclick".to_owned()));
    let mut clicks = Clicks {
        updaters: renderer.components().updaters.clone(),
        requests: Vec::new(),
    };
    renderer
        .event_manager()
        .dispatch(&mut clicks, id, &mut event);
    for (id, depth) in clicks.requests {
        for transaction in renderer.update(id, depth, Click) {
            sink.handle(transaction);
        }
    }
}

#[test]
fn test_order() {
    let mut sink = Sink { sent: Vec::new() };
    let mut renderer = Renderer::new(0, App { updaters: Vec::new() });
    for transaction in renderer.mount(View::new_component(ComponentRef::new(
        1,
        "App".to_owned(),
    ))) {
        sink.handle(transaction);
    }

    click(&mut renderer, &mut sink, ".0.0");
    click(&mut renderer, &mut sink, ".0.0");
    click(&mut renderer, &mut sink, ".0.0");

    let mut transactions: Vec<Transaction> = sink.sent.into_iter().map(|(_, t)| t).collect();
    assert_eq!(transactions.len(), 4);

    let _mount_transaction = transactions.remove(0);
    let update0_transaction = transactions.remove(0);
    let update1_transaction = transactions.remove(0);
    let update2_transaction = transactions.remove(0);

    assert!(update0_transaction.patches().get(".0.1").unwrap()[0].is_order());
    assert!(update0_transaction.removes().contains_key(".0.1.0"));

    assert!(update1_transaction.patches().get(".0.1").unwrap()[0].is_order());
    assert!(update1_transaction.removes().contains_key(".0.1.3"));

    assert!(update2_transaction.patches().get(".0.1").unwrap()[0].is_insert());
    assert!(update2_transaction.patches().get(".0.1").unwrap()[1].is_insert());
    assert!(update2_transaction.patches().get(".0.1").unwrap()[2].is_order());

    match &update0_transaction.patches().get(".0.1").unwrap()[0] {
        Patch::Order(order) => {
            assert_eq!(
                order.removes(),
                &[
                    (0, None),
                    (0, Some("1".to_owned())),
                    (0, Some("2".to_owned())),
                    (0, Some("3".to_owned()))
                ]
            );
            assert_eq!(
                order.inserts(),
                &[
                    (Some("2".to_owned()), 0),
                    (Some("3".to_owned()), 1),
                    (Some("1".to_owned()), 2)
                ]
            );
        }
        other => panic!("no order: {:?}", other),
    }
    match &update2_transaction.patches().get(".0.1").unwrap()[0] {
        Patch::Insert(id, index, _) => {
            assert_eq!(id, ".0.1.0");
            assert_eq!(*index, 2);
        }
        other => panic!("no insert: {:?}", other),
    }
    assert!(renderer.nodes().get(".0.1.0").is_some());
    assert!(renderer.nodes().get(".0.1.3").is_some());
}

#[test]
fn test_keyed_child_keeps_its_node() {
    let mut renderer = Renderer::new(0, App { updaters: Vec::new() });
    renderer.mount(View::new_component(ComponentRef::new(1, "App".to_owned())));
    assert!(renderer.nodes().get(".0.1.1").is_some());
    assert!(renderer.nodes().get(".0.1.2").is_some());

    let transactions = renderer.update(".0".to_owned(), 0, Click);

    assert_eq!(transactions.len(), 1);
    let update = &transactions[0];
    assert!(update.removes().get(".0.1.1").is_none());
    assert!(update.removes().get(".0.1.2").is_none());
    assert!(update.removes().get(".0.1.3").is_none());
    assert!(update.patches().get(".0.1.1").is_none());
    assert!(update.patches().get(".0.1.2").is_none());
    assert!(renderer.nodes().get(".0.1.0").is_none());
    assert!(renderer.nodes().get(".0.1.1").is_some());
    assert!(renderer.nodes().get(".0.1.2").is_some());
    assert!(renderer.nodes().get(".0.1.3").is_some());
}
