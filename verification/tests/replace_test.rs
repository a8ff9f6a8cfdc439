use virtual_view::prop::{Prop, Props};
use virtual_view::renderer::{Handler, Instance, Renderer, StateTransform};
use virtual_view::transaction::{Patch, RawView, Transaction};
use virtual_view::view::{Children, Component, ComponentRef, View};

const TOP: u64 = 1;
const COMP0: u64 = 2;
const COMP1: u64 = 3;

struct Toggle;

impl StateTransform for Toggle {
    fn apply(&self, state: &Props) -> Props {
        let render = state.get("render").boolean().unwrap();
        let mut next = state.clone();
        next.insert("render".to_owned(), Prop::Boolean(!render));
        next
    }
}

struct App {
    requests: Vec<(String, usize)>,
}

fn colored(class: &str, color: Prop, label: &str) -> View {
    let mut style = Props::new();
    style.insert("color".to_owned(), color);
    let mut view = View::new_data("p");
    view.insert_prop("class".to_owned(), Prop::String(class.to_owned()));
    view.insert_prop("style".to_owned(), Prop::Object(style));
    view.push_child(View::new_text(label));
    view
}

impl Component for App {
    fn render(
        &mut self,
        component: &ComponentRef,
        instance: &Instance,
        _props: &Props,
        _children: &Children,
    ) -> View {
        if component.type_id() == TOP {
            let mut view = View::new_data("div");
            view.insert_prop("class".to_owned(), Prop::String("TopComp".to_owned()));
            if instance.state().get("render").boolean().unwrap() {
                view.push_child(View::new_component(ComponentRef::new(
                    COMP0,
                    "Comp0".to_owned(),
                )));
            } else {
                view.push_child(View::new_component(ComponentRef::new(
                    COMP1,
                    "Comp1".to_owned(),
                )));
            }
            view
        } else if component.type_id() == COMP0 {
            colored("Comp0", instance.context().take("color").unwrap(), "0")
        } else {
            colored("Comp1", instance.context().take("color").unwrap(), "1")
        }
    }

    fn initial_state(&mut self, component: &ComponentRef, _props: &Props) -> Props {
        let mut state = Props::new();
        if component.type_id() == TOP {
            state.insert("render".to_owned(), Prop::Boolean(true));
        }
        state
    }

    fn context(&mut self, component: &ComponentRef, _props: &Props) -> Props {
        let mut context = Props::new();
        if component.type_id() == TOP {
            context.insert("color".to_owned(), Prop::String("#F00".to_owned()));
        }
        context
    }

    fn inherit_context(
        &mut self,
        component: &ComponentRef,
        context: Props,
        parent_context: &Props,
    ) -> Props {
        let mut context = context;
        if component.type_id() != TOP {
            context.extend(parent_context);
        }
        context
    }

    fn will_mount(&mut self, component: &ComponentRef, instance: &Instance) {
        if component.type_id() == TOP {
            self.requests.push((
                instance.updater().id().clone(),
                instance.updater().depth(),
            ));
        }
    }
}

struct Sink {
    sent: Vec<(String, Transaction)>,
}

impl Handler for Sink {
    fn handle(&mut self, transaction: Transaction) {
        self.sent
            .push(("virtual_view.transaction".to_owned(), transaction));
    }
}

#[test]
fn test_replace_component_transaction() {
    let mut sink = Sink { sent: Vec::new() };
    let mut renderer = Renderer::new(0, App { requests: Vec::new() });
    for transaction in renderer.mount(View::new_component(ComponentRef::new(
        TOP,
        "TopComp".to_owned(),
    ))) {
        sink.handle(transaction);
    }
    let requests: Vec<(String, usize)> = renderer.components_mut().requests.drain(..).collect();
    for (id, depth) in requests {
        for transaction in renderer.update(id, depth, Toggle) {
            sink.handle(transaction);
        }
    }

    let mut transactions: Vec<Transaction> = sink.sent.into_iter().map(|(_, t)| t).collect();
    assert_eq!(transactions.len(), 2);

    let _mount_transaction = transactions.remove(0);
    let switch_transaction = transactions.remove(0);

    assert!(switch_transaction.patches().get(".0.0").unwrap()[0].is_replace());

    match &switch_transaction.patches().get(".0.0").unwrap()[0] {
        Patch::Replace(prev, next) => {
            assert_eq!(prev.props().unwrap().get("class"), &Prop::String("Comp0".to_owned()));
            assert_eq!(next.props().unwrap().get("class"), &Prop::String("Comp1".to_owned()));
            match next.props().unwrap().get("style") {
                Prop::Object(style) => {
                    assert_eq!(style.get("color"), &Prop::String("#F00".to_owned()))
                }
                other => panic!("no style: {:?}", other),
            }
            assert!(matches!(&next.children().unwrap()[0], RawView::Text(t) if t == "1"));
        }
        other => panic!("no replace: {:?}", other),
    }
    assert!(renderer.nodes().get(".0.0").unwrap().is_component());
    assert_eq!(
        renderer.nodes().get(".0.0").unwrap().view.component().unwrap().type_id(),
        COMP1
    );
}
