use virtual_view::prop::{Array, Function, Number, Prop, Props};
use virtual_view::transaction::RawView;
use virtual_view::view::{ComponentRef, View, ViewKind};

fn num(value: f64) -> Prop {
    Prop::Number(Number::from_bits(value.to_bits()))
}

fn sample() -> View {
    let mut style = Props::new();
    style.insert("color".to_owned(), Prop::String("#fff".to_owned()));
    let mut index = Array::new();
    index.push(num(0.0));
    index.push(num(1.0));
    index.push(num(2.0));
    let mut view = View::new_data("div");
    view.insert_prop("class".to_owned(), Prop::String("test".to_owned()));
    view.insert_prop("index".to_owned(), num(1.0));
    view.insert_prop("style".to_owned(), Prop::Object(style));
    view.insert_prop("index".to_owned(), Prop::Array(index));
    view.insert_prop("onclick".to_owned(), Prop::Function(Function::new(0)));
    view.insert_prop("ondblclick".to_owned(), Prop::Function(Function::new(1)));
    view.insert_prop("data-id".to_owned(), num(1.0));
    let mut p = View::new_data("p");
    p.push_child(View::new_text("Hello, world!"));
    view.push_child(p);
    view
}

#[test]
fn test_view() {
    let _ = sample();
}

#[test]
fn test_view_getters() {
    let view = sample();
    assert!(view.is_data());
    assert!(!view.is_text());
    assert_eq!(view.tag().unwrap(), "div");
    assert!(view.component().is_none());
    assert!(view.key().is_none());
    assert!(view.kind().unwrap().is_string());
    assert_eq!(view.props().unwrap().len(), 6);
    assert!(view.props().unwrap().get("index").is_array());
    assert_eq!(view.children().unwrap().len(), 1);

    let text = View::new_text("a");
    assert!(text.is_text());
    assert!(text.kind().is_none() && text.props().is_none() && text.children().is_none());
    assert_eq!(View::new_empty(), View::new_text(""));

    let mut keyed = View::new_data("li");
    keyed.set_key("k".to_owned());
    assert_eq!(keyed.key().unwrap(), "k");
    let mut same_text = View::new_text("a");
    same_text.set_key("k".to_owned());
    same_text.insert_prop("a".to_owned(), Prop::Null);
    same_text.push_child(View::new_empty());
    assert_eq!(same_text, text);
}

#[test]
fn test_view_new_takes_the_key_out_of_the_props() {
    let mut props = Props::new();
    props.insert("key".to_owned(), Prop::String("k".to_owned()));
    props.insert("class".to_owned(), Prop::String("c".to_owned()));
    let view = View::new(ViewKind::String("div".to_owned()), props, vec![View::new_text("x")]);
    assert_eq!(view.key().unwrap(), "k");
    assert_eq!(view.props().unwrap().len(), 1);
    assert!(!view.props().unwrap().contains_key("key"));
    assert_eq!(view.children().unwrap().len(), 1);

    let mut props = Props::new();
    props.insert("key".to_owned(), num(1.0));
    let view = View::new(ViewKind::String("div".to_owned()), props, Vec::new());
    assert!(view.key().is_none());
    assert!(view.props().unwrap().contains_key("key"));
}

#[test]
fn test_view_equality() {
    assert_eq!(sample(), sample());
    let mut other = sample();
    other.push_child(View::new_text("more"));
    assert_ne!(sample(), other);
    let mut keyed = sample();
    keyed.set_key("k".to_owned());
    assert_ne!(sample(), keyed);
    let a = View::new_component(ComponentRef::new(1, "A".to_owned()));
    let renamed = View::new_component(ComponentRef::new(1, "B".to_owned()));
    let b = View::new_component(ComponentRef::new(2, "A".to_owned()));
    assert_eq!(a, renamed);
    assert_ne!(a, b);
    assert_ne!(a, View::new_data("A"));
    assert_eq!(sample().clone_no_children().children().unwrap().len(), 0);
    assert_eq!(sample().clone_no_children().props().unwrap().len(), 6);
}

#[test]
fn test_view_kind() {
    let tag = ViewKind::String("div".to_owned());
    let component = ViewKind::Component(ComponentRef::new(7, "Counter".to_owned()));
    assert!(tag.is_string() && !tag.is_component());
    assert!(component.is_component() && !component.is_string());
    assert_eq!(tag.type_id(), None);
    assert_eq!(component.type_id(), Some(7));
    assert_eq!(tag.to_text(), "div");
    assert_eq!(component.to_text(), "Component(Counter)");
    assert_eq!(tag.clone().take_string(), "div");
    assert_eq!(tag, ViewKind::String("div".to_owned()));
    assert_ne!(tag, component);
}

#[test]
fn test_raw_view() {
    let raw = RawView::from_view(&sample());
    assert_eq!(raw.kind().unwrap(), "div");
    assert!(raw.key().is_none());
    let props = raw.props().unwrap();
    assert_eq!(props.len(), 4);
    assert!(!props.contains_key("onclick"));
    assert!(!props.contains_key("ondblclick"));
    assert_eq!(props.get("class"), &Prop::String("test".to_owned()));
    let children = raw.children().unwrap();
    assert_eq!(children.len(), 1);
    assert_eq!(children[0].kind().unwrap(), "p");
    assert!(matches!(&children[0].children().unwrap()[0], RawView::Text(t) if t == "Hello, world!"));

    let component = View::new_component(ComponentRef::new(7, "Counter".to_owned()));
    assert_eq!(RawView::from_view(&component).kind().unwrap(), "Component(Counter)");
    let text = RawView::from_view(&View::new_text("t"));
    assert!(text.kind().is_none() && text.props().is_none() && text.children().is_none());
    assert_eq!(raw.clone().props().unwrap().len(), 4);
}
