use virtual_view::prop::{Number, Prop, Props};
use virtual_view::renderer::{Instance, Renderer, StateTransform};
use virtual_view::transaction::Patch;
use virtual_view::view::{Children, Component, ComponentRef, View};

struct SetCount(f64);

impl StateTransform for SetCount {
    fn apply(&self, state: &Props) -> Props {
        let mut next = state.clone();
        next.insert(
            "count".to_owned(),
            Prop::Number(Number::from_bits(self.0.to_bits())),
        );
        next
    }
}

struct Plain {
    seen: Vec<(usize, usize)>,
}

impl Component for Plain {
    fn render(
        &mut self,
        _component: &ComponentRef,
        instance: &Instance,
        _props: &Props,
        _children: &Children,
    ) -> View {
        self.seen
            .push((instance.state().len(), instance.context().len()));
        let mut view = View::new_data("p");
        view.push_child(View::new_text(&format!("{}", instance.state().len())));
        view
    }
}

struct Frozen {
    rendered: usize,
}

impl Component for Frozen {
    fn render(
        &mut self,
        _component: &ComponentRef,
        instance: &Instance,
        _props: &Props,
        _children: &Children,
    ) -> View {
        self.rendered += 1;
        let mut view = View::new_data("p");
        view.push_child(View::new_text(&format!("{}", instance.state().len())));
        view
    }

    fn context(&mut self, _component: &ComponentRef, _props: &Props) -> Props {
        let mut context = Props::new();
        context.insert("color".to_owned(), Prop::Null);
        context
    }

    fn should_update(
        &mut self,
        _component: &ComponentRef,
        _prev_state: &Props,
        _prev_props: &Props,
        _prev_children: &Children,
        _next_state: &Props,
        _next_props: &Props,
        _next_children: &Children,
    ) -> bool {
        false
    }
}

fn component() -> View {
    let mut view = View::new_component(ComponentRef::new(1, "C".to_owned()));
    view.insert_prop("a".to_owned(), Prop::Boolean(true));
    view
}

#[test]
fn test_component_defaults() {
    let mut renderer: Renderer<Plain, SetCount> = Renderer::new(0, Plain { seen: Vec::new() });
    renderer.mount(component());
    assert_eq!(renderer.components().seen, vec![(0, 0)]);

    let transactions = renderer.update(".0".to_owned(), 0, SetCount(1.0));

    assert_eq!(renderer.components().seen, vec![(0, 0), (1, 0)]);
    assert_eq!(transactions.len(), 1);
    assert!(transactions[0].patches().get(".0.0").unwrap()[0].is_replace());

    let mut plain = Plain { seen: Vec::new() };
    let kind = ComponentRef::new(1, "C".to_owned());
    let mut props = Props::new();
    props.insert("a".to_owned(), Prop::Boolean(true));
    assert!(plain.initial_state(&kind, &props).is_empty());
    assert!(plain.context(&kind, &props).is_empty());
    let mut parent = Props::new();
    parent.insert("b".to_owned(), Prop::Null);
    assert_eq!(plain.inherit_context(&kind, props.clone(), &parent), props);
    assert!(plain.should_update(&kind, &props, &props, &Vec::new(), &parent, &props, &Vec::new()));
}

#[test]
fn test_component_that_is_not_rendered_again_keeps_what_it_shows() {
    let mut renderer: Renderer<Frozen, SetCount> = Renderer::new(0, Frozen { rendered: 0 });
    renderer.mount(component());
    assert_eq!(renderer.components().rendered, 1);

    assert!(renderer.update(".0".to_owned(), 0, SetCount(1.0)).is_empty());
    assert_eq!(renderer.components().rendered, 1);

    let (shown, transaction) = renderer.receive(".0", 0, &component()).unwrap();
    assert!(transaction.is_empty());
    assert_eq!(shown.tag().unwrap(), "p");
    assert_eq!(shown.children().unwrap()[0], View::new_text("0"));
    assert_eq!(renderer.components().rendered, 1);
    assert_eq!(renderer.nodes().get_at_depth(".0", 1).unwrap().view, shown);
}

#[test]
fn test_update_of_an_element_diffs_it_against_itself() {
    let mut renderer: Renderer<Plain, SetCount> = Renderer::new(0, Plain { seen: Vec::new() });
    let mut view = View::new_data("div");
    view.insert_prop("size".to_owned(), Prop::Number(Number::from_bits(2.0f64.to_bits())));
    view.push_child(View::new_text("t"));
    renderer.mount(view);
    assert!(renderer.update(".0".to_owned(), 0, SetCount(1.0)).is_empty());

    let mut view = View::new_data("div");
    view.insert_prop("size".to_owned(), Prop::Number(Number::from_bits(f64::NAN.to_bits())));
    renderer.mount(view);
    let transactions = renderer.update(".0".to_owned(), 0, SetCount(1.0));
    assert_eq!(transactions.len(), 1);
    let patches = transactions[0].patches().get(".0").unwrap();
    assert_eq!(patches.len(), 1);
    match &patches[0] {
        Patch::Props(prev, patch) => {
            assert!(prev.get("size").number().unwrap().is_nan());
            assert!(patch.get("size").number().unwrap().is_nan());
        }
        other => panic!("no props: {:?}", other),
    }
}
