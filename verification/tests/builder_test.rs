use virtual_view::prop::{Array, Number, Prop, Props};
use virtual_view::utils::visited_ids;
use virtual_view::view::macros::{
    add_child, add_prop, can_close, can_close_component, child_to_parent,
    child_to_parent_component, extend, set_key, unwrap,
};
use virtual_view::view::{ComponentRef, View};

fn num(value: f64) -> Prop {
    Prop::Number(Number::from_bits(value.to_bits()))
}

#[test]
fn test_stack_builds_a_view() {
    let mut stack: Vec<View> = Vec::new();
    stack.push(View::new_data("div"));
    add_prop(&mut stack, "class".to_owned(), Prop::String("test".to_owned()));
    set_key(&mut stack, "k".to_owned());
    let mut more = Props::new();
    more.insert("data-id".to_owned(), num(1.0));
    more.insert("class".to_owned(), Prop::String("other".to_owned()));
    extend(&mut stack, &more);
    stack.push(View::new_data("p"));
    add_child(&mut stack, View::new_text("Hello, world!"));
    assert!(can_close(&stack, "p"));
    assert!(!can_close(&stack, "div"));
    child_to_parent(&mut stack, Some("p"));
    stack.push(View::new_component(ComponentRef::new(7, "Button".to_owned())));
    assert!(can_close_component(&stack, 7));
    assert!(!can_close_component(&stack, 8));
    assert!(!can_close(&stack, "Button"));
    child_to_parent_component(&mut stack, 7);
    stack.push(View::new_data("br"));
    child_to_parent(&mut stack, None);
    assert_eq!(stack.len(), 1);
    child_to_parent(&mut stack, Some("div"));
    assert_eq!(stack.len(), 1);
    let view = unwrap(stack);

    assert_eq!(view.tag().unwrap(), "div");
    assert_eq!(view.key().unwrap(), "k");
    let props = view.props().unwrap();
    assert_eq!(props.len(), 2);
    assert_eq!(props.get("class"), &Prop::String("other".to_owned()));
    assert_eq!(props.get("data-id"), &num(1.0));
    let children = view.children().unwrap();
    assert_eq!(children.len(), 3);
    assert_eq!(children[0].tag().unwrap(), "p");
    assert_eq!(children[0].children().unwrap()[0], View::new_text("Hello, world!"));
    assert_eq!(children[1].component().unwrap().type_id(), 7);
    assert_eq!(children[1].component().unwrap().name(), "Button");
    assert_eq!(children[2].tag().unwrap(), "br");
    assert!(!can_close(&Vec::new(), "div"));
    assert!(!can_close_component(&Vec::new(), 7));
}

#[test]
fn test_view_parts_can_be_changed_in_place() {
    let mut view = View::new_data("div");
    view.props_mut()
        .unwrap()
        .insert("a".to_owned(), Prop::Boolean(true));
    view.children_mut().unwrap().push(View::new_text("t"));
    assert_eq!(view.props().unwrap().get("a"), &Prop::Boolean(true));
    assert_eq!(view.children().unwrap().len(), 1);
    let mut text = View::new_text("t");
    assert!(text.props_mut().is_none());
    assert!(text.children_mut().is_none());

    let mut array = Prop::Array(Array::new());
    array.array_mut().unwrap().push(num(1.0));
    assert_eq!(array.array().unwrap().len(), 1);
    assert!(array.object_mut().is_none());
    let mut object = Prop::Object(Props::new());
    object
        .object_mut()
        .unwrap()
        .insert("a".to_owned(), Prop::Null);
    assert_eq!(object.object().unwrap().len(), 1);
    assert!(object.array_mut().is_none());
    assert!(Prop::Null.array().is_none() && Prop::Null.object().is_none());
    assert!(Prop::Null.string().is_none() && Prop::Null.function().is_none());
    assert!(Prop::Null.number().is_none() && Prop::Null.boolean().is_none());
}

#[test]
fn test_visited_ids() {
    assert_eq!(
        visited_ids(".0.1.2", "", false, true),
        vec![".0.1.2", ".0.1", ".0"]
    );
    assert_eq!(
        visited_ids(".0.1.2", ".0", true, false),
        vec![".0.1", ".0"]
    );
    assert_eq!(
        visited_ids(".0", ".0.1.2", false, false),
        vec![".0", ".0.1", ".0.1.2"]
    );
    assert_eq!(visited_ids(".0", ".0.1.2", true, true), vec![".0.1"]);
    assert_eq!(visited_ids(".0", ".0", false, false), vec![".0"]);
    assert!(visited_ids(".0", ".0", true, false).is_empty());
    assert!(visited_ids(".0", ".0", false, true).is_empty());
}
