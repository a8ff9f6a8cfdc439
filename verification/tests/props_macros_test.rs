use virtual_view::prop::{Array, Function, Number, Prop, Props};

fn num(value: f64) -> Prop {
    Prop::Number(Number::from_bits(value.to_bits()))
}

#[test]
fn test_prop_null() {
    assert_eq!(Prop::Null, Prop::Null);
    assert!(Prop::Null.is_null());
    assert_eq!(Prop::Null.null(), Some(()));
}

#[test]
fn test_prop_bool() {
    assert_eq!(Prop::Boolean(true), Prop::Boolean(true));
    assert_eq!(Prop::Boolean(false), Prop::Boolean(false));
    assert_ne!(Prop::Boolean(true), Prop::Boolean(false));
    assert_eq!(Prop::Boolean(true).boolean(), Some(true));
}

#[test]
fn test_prop_number() {
    assert_eq!(num(0.0), Prop::Number(Number::from_bits(0)));
    assert_eq!(num(1.0), Prop::Number(Number::from_bits(1.0f64.to_bits())));
    assert_eq!(num(-1.0), Prop::Number(Number::from_bits((-1.0f64).to_bits())));
    assert_ne!(num(1.0), num(-1.0));
    assert_eq!(num(1.0).number().unwrap().to_bits(), 1.0f64.to_bits());
}

#[test]
fn test_prop_string() {
    assert_eq!(
        Prop::String("Hello, world!".to_owned()),
        Prop::String("Hello, world!".into())
    );
    assert_eq!(
        Prop::String("Hello, world!".to_owned()).string().unwrap(),
        "Hello, world!"
    );
}

#[test]
fn test_prop_array() {
    let mut a = Array::new();
    a.push(num(0.0));
    a.push(num(1.0));
    let mut b = Array::with_capacity(2);
    b.push(num(0.0));
    b.push(num(1.0));
    assert_eq!(Prop::Array(a), Prop::Array(b));
}

#[test]
fn test_prop_map() {
    let mut props = Props::new();
    props.insert("key".to_owned(), Prop::String("value".to_owned()));
    let mut other = Props::new();
    other.insert("key".to_owned(), Prop::String("value".to_owned()));
    assert_eq!(Prop::Object(other), Prop::Object(props));
}

#[test]
fn test_prop_full() {
    let mut array = Array::new();
    array.push(num(0.0));
    array.push(num(1.0));
    array.push(num(2.0));
    let mut f = Props::new();
    f.insert("count".to_owned(), num(0.0));
    f.insert("onclick".to_owned(), Prop::Function(Function::new(0)));
    f.insert("array".to_owned(), Prop::Array(array));

    assert!(f.get("onclick").is_function());
    assert!(f.get("array").is_array());
    assert!(f.get("count").is_number());
    assert!(f.get("missing").is_null());
}

#[test]
fn test_prop_extend() {
    let mut a = Props::new();
    a.insert("0".to_owned(), num(0.0));
    let mut b = Props::new();
    b.insert("1".to_owned(), num(1.0));
    b.extend(&a);

    assert_eq!(b.get("0"), &num(0.0));
    assert_eq!(b.get("1"), &num(1.0));
}

#[test]
fn test_props_keep_the_order_of_insertion() {
    let mut props = Props::new();
    props.insert("b".to_owned(), num(1.0));
    props.insert("a".to_owned(), num(2.0));
    props.insert("c".to_owned(), num(3.0));
    props.insert("a".to_owned(), num(4.0));
    assert_eq!(props.len(), 3);
    assert_eq!(props.key_at(0), "b");
    assert_eq!(props.key_at(1), "a");
    assert_eq!(props.key_at(2), "c");
    assert_eq!(props.value_at(1), &num(4.0));
    assert_eq!(props.remove("b"), Some(num(1.0)));
    assert_eq!(props.remove("b"), None);
    assert_eq!(props.key_at(0), "a");
    assert_eq!(props.key_at(1), "c");
    assert_eq!(props.get("c"), &num(3.0));
    assert!(props.contains_key("a"));
    assert!(!props.contains_key("b"));
    assert!(!props.is_empty());
    assert!(Props::new().is_empty());
}

#[test]
fn test_props_has_ignores_null() {
    let mut props = Props::new();
    props.insert("a".to_owned(), Prop::Null);
    props.insert("b".to_owned(), Prop::Boolean(false));
    assert!(!props.has("a"));
    assert!(props.has("b"));
    assert!(!props.has("c"));
    assert_eq!(props.take("a"), Some(Prop::Null));
    assert_eq!(props.take("c"), None);
    assert!(props.find("c").is_none());
}

#[test]
fn test_props_equality_ignores_order() {
    let mut a = Props::new();
    a.insert("x".to_owned(), num(1.0));
    a.insert("y".to_owned(), num(2.0));
    let mut b = Props::new();
    b.insert("y".to_owned(), num(2.0));
    b.insert("x".to_owned(), num(1.0));
    assert_eq!(a, b);
    b.insert("z".to_owned(), Prop::Null);
    assert_ne!(a, b);
    assert_ne!(b, a);
}

#[test]
fn test_prop_truthiness() {
    assert!(!Prop::Null.is_truthy());
    assert!(Prop::Boolean(true).is_truthy());
    assert!(!Prop::Boolean(false).is_truthy());
    assert!(!num(0.0).is_truthy());
    assert!(!num(-0.0).is_truthy());
    assert!(num(0.5).is_truthy());
    assert!(num(f64::NAN).is_truthy());
    assert!(!Prop::String(String::new()).is_truthy());
    assert!(Prop::String("a".to_owned()).is_truthy());
    assert!(Prop::Function(Function::new(0)).is_truthy());
    assert!(!Prop::Array(Array::new()).is_truthy());
    assert!(!Prop::Object(Props::new()).is_truthy());
    assert!(Prop::Null.is_falsey());
    assert!(Prop::Boolean(true).is_true());
    assert!(!Prop::Boolean(true).is_false());
    assert!(Prop::Boolean(false).is_false());
    assert!(!num(1.0).is_true());
    assert!(!Prop::Null.is_false());
}

#[test]
fn test_prop_take() {
    assert_eq!(Prop::Null.take_null(), Ok(()));
    assert_eq!(Prop::Boolean(true).take_null(), Err(Prop::Boolean(true)));
    assert_eq!(Prop::Boolean(true).take_boolean(), Ok(true));
    assert_eq!(Prop::String("a".to_owned()).take_string(), Ok("a".to_owned()));
    assert_eq!(Prop::Null.take_string(), Err(Prop::Null));
    assert_eq!(num(2.0).take_number().unwrap().to_bits(), 2.0f64.to_bits());
    assert_eq!(Prop::Function(Function::new(4)).take_function().unwrap().id(), 4);
    assert!(Prop::Array(Array::new()).take_array().unwrap().is_empty());
    assert!(Prop::Object(Props::new()).take_object().unwrap().is_empty());
    assert_eq!(Prop::Null.take_object().unwrap_err(), Prop::Null);
}

#[test]
fn test_number_equality_is_that_of_doubles() {
    let nan = Number::from_bits(f64::NAN.to_bits());
    let zero = Number::from_bits(0.0f64.to_bits());
    let minus_zero = Number::from_bits((-0.0f64).to_bits());
    let one = Number::from_bits(1.0f64.to_bits());
    let infinity = Number::from_bits(f64::INFINITY.to_bits());
    assert!(!nan.same(&nan));
    assert!(zero.same(&minus_zero));
    assert!(minus_zero.same(&zero));
    assert!(one.same(&one));
    assert!(!one.same(&zero));
    assert!(infinity.same(&infinity));
    assert!(!infinity.is_nan());
    assert!(nan.is_nan());
    assert!(Number::from_bits((-f64::NAN).to_bits()).is_nan());
    assert!(zero.is_zero() && minus_zero.is_zero() && !one.is_zero());
    for value in [0.0f64, -0.0, 1.0, -1.5, 1e300, f64::INFINITY, f64::NEG_INFINITY, f64::NAN, f64::MIN_POSITIVE] {
        for other in [0.0f64, -0.0, 1.0, -1.5, f64::NAN, f64::INFINITY] {
            let a = Number::from_bits(value.to_bits());
            let b = Number::from_bits(other.to_bits());
            assert_eq!(a.same(&b), value == other);
        }
    }
}

#[test]
fn test_prop_to_json_leaves_callables_out() {
    let mut inner = Props::new();
    inner.insert("f".to_owned(), Prop::Function(Function::new(1)));
    inner.insert("n".to_owned(), num(1.0));
    let mut array = Array::new();
    array.push(Prop::Function(Function::new(2)));
    array.push(Prop::String("a".to_owned()));
    array.push(Prop::Object(inner));
    let mut props = Props::new();
    props.insert("onclick".to_owned(), Prop::Function(Function::new(3)));
    props.insert("list".to_owned(), Prop::Array(array));
    props.insert("null".to_owned(), Prop::Null);

    let wire = virtual_view::prop::props_to_json(&props);

    assert_eq!(wire.len(), 2);
    assert!(!wire.contains_key("onclick"));
    assert_eq!(wire.get("null"), &Prop::Null);
    let list = wire.get("list").array().unwrap();
    assert_eq!(list.len(), 2);
    assert_eq!(list.get(0), &Prop::String("a".to_owned()));
    let object = list.get(1).object().unwrap();
    assert_eq!(object.len(), 1);
    assert_eq!(object.get("n"), &num(1.0));
    assert_eq!(Prop::Function(Function::new(9)).to_json(), Prop::Null);
    assert_eq!(num(2.0).to_json(), num(2.0));
}
