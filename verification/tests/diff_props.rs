use virtual_view::diff::{apply_props_patch, diff_props, diff_props_object};
use virtual_view::prop::{Array, Function, Number, Prop, Props};

fn num(value: f64) -> Prop {
    Prop::Number(Number::from_bits(value.to_bits()))
}

fn text(value: &str) -> Prop {
    Prop::String(value.to_owned())
}

fn props(entries: Vec<(&str, Prop)>) -> Props {
    let mut props = Props::new();
    for (key, value) in entries {
        props.insert(key.to_owned(), value);
    }
    props
}

fn object(entries: Vec<(&str, Prop)>) -> Prop {
    Prop::Object(props(entries))
}

fn array(items: Vec<Prop>) -> Prop {
    let mut array = Array::new();
    for item in items {
        array.push(item);
    }
    Prop::Array(array)
}

#[test]
fn test_diff_props() {
    let a = object(vec![("a", text("old"))]);
    let b = object(vec![("a", text("new"))]);
    assert_eq!(diff_props(&a, &b), object(vec![("a", text("new"))]));
    assert_eq!(diff_props(&a, &a), Prop::Null);

    let a = object(vec![("a", object(vec![("a", array(vec![]))]))]);
    let b = object(vec![(
        "a",
        object(vec![("a", array(vec![num(1.0), num(2.0)]))]),
    )]);
    assert_eq!(
        diff_props(&a, &b),
        object(vec![(
            "a",
            object(vec![("a", array(vec![num(1.0), num(2.0)]))])
        )])
    );

    let a = object(vec![("a", num(0.0)), ("b", num(1.0))]);
    let b = object(vec![("a", num(0.0))]);
    assert_eq!(diff_props(&a, &b), object(vec![("b", Prop::Null)]));
    assert_eq!(diff_props(&b, &a), object(vec![("b", num(1.0))]));
}

#[test]
fn test_diff_props_object_of_equal_maps_is_none() {
    let p = props(vec![
        ("a", num(1.5)),
        ("b", text("x")),
        ("c", array(vec![Prop::Boolean(true), Prop::Null])),
        ("d", object(vec![("e", Prop::Function(Function::new(7)))])),
    ]);
    assert!(diff_props_object(&p, &p).is_none());
    assert!(diff_props_object(&Props::new(), &Props::new()).is_none());
}

#[test]
fn test_diff_props_nan_differs_from_itself() {
    let p = props(vec![("a", num(f64::NAN))]);
    let patch = diff_props_object(&p, &p).unwrap();
    assert_eq!(patch.len(), 1);
    assert!(patch.get("a").number().unwrap().is_nan());
}

#[test]
fn test_diff_props_zeros_are_equal() {
    let p = props(vec![("a", num(0.0))]);
    let q = props(vec![("a", num(-0.0))]);
    assert!(diff_props_object(&p, &q).is_none());
}

#[test]
fn test_diff_props_callables_compare_by_identity() {
    let p = props(vec![("onclick", Prop::Function(Function::new(1)))]);
    let same = props(vec![("onclick", Prop::Function(Function::new(1)))]);
    let other = props(vec![("onclick", Prop::Function(Function::new(2)))]);
    assert!(diff_props_object(&p, &same).is_none());
    let patch = diff_props_object(&p, &other).unwrap();
    assert_eq!(patch.get("onclick"), &Prop::Function(Function::new(2)));
}

#[test]
fn test_diff_props_nested_patch_names_what_changed() {
    let p = props(vec![(
        "style",
        object(vec![("color", text("red")), ("size", num(1.0))]),
    )]);
    let q = props(vec![(
        "style",
        object(vec![("color", text("blue")), ("size", num(1.0)), ("top", num(2.0))]),
    )]);
    let patch = diff_props_object(&p, &q).unwrap();
    assert_eq!(
        Prop::Object(patch),
        object(vec![(
            "style",
            object(vec![("color", text("blue")), ("top", num(2.0))])
        )])
    );
}

#[test]
fn test_diff_props_of_values_that_are_no_objects() {
    assert_eq!(diff_props(&num(1.0), &text("a")), text("a"));
    assert_eq!(diff_props(&object(vec![]), &num(2.0)), num(2.0));
    assert_eq!(diff_props(&text("a"), &object(vec![("a", num(1.0))])), object(vec![("a", num(1.0))]));
    assert_eq!(
        diff_props(&object(vec![]), &Prop::Function(Function::new(3))),
        Prop::Function(Function::new(3))
    );
}

#[test]
fn test_apply_props_patch() {
    let target = props(vec![
        ("a", num(1.0)),
        ("b", object(vec![("c", num(1.0)), ("d", num(2.0))])),
        ("e", text("x")),
    ]);
    let patch = props(vec![
        ("a", Prop::Null),
        ("b", object(vec![("c", Prop::Null), ("f", num(3.0))])),
        ("e", object(vec![("g", num(4.0))])),
        ("h", Prop::Null),
        ("i", Prop::Boolean(true)),
    ]);
    let result = apply_props_patch(&target, &patch);
    assert_eq!(
        result,
        props(vec![
            ("b", object(vec![("d", num(2.0)), ("f", num(3.0))])),
            ("e", object(vec![("g", num(4.0))])),
            ("i", Prop::Boolean(true)),
        ])
    );
    assert_eq!(apply_props_patch(&target, &Props::new()), target);
}

#[test]
fn test_props_round_trip() {
    let pairs = vec![
        (
            props(vec![("a", num(1.0)), ("b", text("x")), ("c", object(vec![("d", num(1.0))]))]),
            props(vec![("a", num(2.0)), ("c", object(vec![("e", text("y"))])), ("f", array(vec![num(1.0)]))]),
        ),
        (Props::new(), props(vec![("a", object(vec![("b", object(vec![]))]))])),
        (props(vec![("a", object(vec![("b", num(1.0))]))]), props(vec![("a", object(vec![]))])),
        (props(vec![("a", num(1.0))]), Props::new()),
        (props(vec![("a", object(vec![("b", num(1.0))]))]), props(vec![("a", num(3.0))])),
        (props(vec![("a", num(3.0))]), props(vec![("a", object(vec![("b", num(1.0))]))])),
    ];
    for (p, q) in pairs {
        let applied = match diff_props_object(&p, &q) {
            Some(patch) => apply_props_patch(&p, &patch),
            None => p.clone(),
        };
        assert_eq!(applied, q);
    }
}
