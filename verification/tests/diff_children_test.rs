use virtual_view::diff::diff_children;
use virtual_view::view::View;

fn div() -> View {
    View::new_data("div")
}

fn keyed(key: &str) -> View {
    let mut view = View::new_data("div");
    view.set_key(key.to_owned());
    view
}

fn keys_of(slots: &[Option<&View>]) -> Vec<Option<String>> {
    slots
        .iter()
        .map(|slot| slot.map(|view| view.key().cloned().unwrap_or_default()))
        .collect()
}

fn some(key: &str) -> Option<String> {
    Some(key.to_owned())
}

#[test]
fn test_diff_children_complex() {
    let prev = [keyed("0"), keyed("1"), keyed("2")];
    let next = [keyed("2"), keyed("0")];

    let diff = diff_children(&prev, &next);

    assert!(diff.children[1].is_none());
}

#[test]
fn test_diff_children_keys() {
    let prev = [keyed("0"), keyed("1")];
    let next = [keyed("1"), keyed("0")];

    let diff = diff_children(&prev, &next);

    let &(index, ref key) = &diff.removes[0];
    assert_eq!(index, 1);
    assert_eq!(key, &Some(&String::from("1")));

    let &(ref key, index) = &diff.inserts[0];
    assert_eq!(index, 0);
    assert_eq!(key, &Some(&String::from("1")));
}

#[test]
fn test_diff_children_insert() {
    let prev = [div()];
    let next = [div(), div()];

    let diff = diff_children(&prev, &next);

    assert!(diff.children[0].is_some());
    assert!(diff.children[1].is_some());
}

#[test]
fn test_diff_children_remove() {
    let prev = [div(), div()];
    let next = [div()];

    let diff = diff_children(&prev, &next);

    assert!(diff.children[0].is_some());
    assert!(diff.children[1].is_none());
}

#[test]
fn test_diff_children_deleted_key_leaves_an_empty_slot() {
    let prev = [keyed("0"), keyed("1"), keyed("2")];
    let next = [keyed("2"), keyed("0")];

    let diff = diff_children(&prev, &next);

    assert_eq!(keys_of(&diff.children), vec![some("0"), None, some("2")]);
    assert_eq!(diff.indices, vec![1, 0]);
    assert_eq!(diff.next_len(), 2);
    assert_eq!(diff.removes.len(), 2);
    assert_eq!(diff.removes[0], (1, None));
    assert_eq!(diff.removes[1], (1, Some(&"2".to_owned())));
    assert_eq!(diff.inserts, vec![(Some(&"2".to_owned()), 0)]);
}

#[test]
fn test_diff_children_same_list_moves_nothing() {
    let next = [keyed("a"), div(), keyed("b"), div()];

    let diff = diff_children(&next, &next);

    assert!(diff.removes.is_empty());
    assert!(diff.inserts.is_empty());
    assert_eq!(diff.indices, vec![0, 1, 2, 3]);
    assert!(diff.children.iter().all(|slot| slot.is_some()));
}

#[test]
fn test_diff_children_only_deletes_are_left_out() {
    let prev = [keyed("a"), keyed("b"), keyed("c")];
    let next = [keyed("a"), keyed("c")];

    let diff = diff_children(&prev, &next);

    assert_eq!(keys_of(&diff.children), vec![some("a"), None, some("c")]);
    assert!(diff.removes.is_empty());
    assert!(diff.inserts.is_empty());
}

#[test]
fn test_diff_children_unkeyed_list_is_taken_as_it_stands() {
    let prev = [keyed("a"), keyed("b"), keyed("c")];
    let next = [div(), div()];

    let diff = diff_children(&prev, &next);

    assert_eq!(diff.children.len(), 3);
    assert!(diff.children[0].is_some());
    assert!(diff.children[1].is_some());
    assert!(diff.children[2].is_none());
    assert!(diff.removes.is_empty());
    assert!(diff.inserts.is_empty());
}

#[test]
fn test_diff_children_empty_lists() {
    let none: [View; 0] = [];
    let diff = diff_children(&none, &none);
    assert!(diff.children.is_empty());
    assert!(diff.removes.is_empty());

    let next = [keyed("a")];
    let diff = diff_children(&none, &next);
    assert_eq!(keys_of(&diff.children), vec![some("a")]);
    assert!(diff.inserts.is_empty());
}

#[test]
fn test_diff_children_keyed_item_behind_unkeyed() {
    let prev = [keyed("a"), div()];
    let next = [div(), keyed("a")];

    let diff = diff_children(&prev, &next);

    assert_eq!(keys_of(&diff.children), vec![some("a"), some("")]);
    assert_eq!(diff.removes, vec![(0, Some(&"a".to_owned()))]);
    assert_eq!(diff.inserts, vec![(Some(&"a".to_owned()), 1)]);
}

#[test]
fn test_diff_children_new_key_is_appended_and_inserted() {
    let prev = [keyed("a"), keyed("b")];
    let next = [keyed("a"), keyed("x"), keyed("b")];

    let diff = diff_children(&prev, &next);

    assert_eq!(
        keys_of(&diff.children),
        vec![some("a"), some("b"), some("x")]
    );
    assert_eq!(diff.inserts, vec![(Some(&"x".to_owned()), 1)]);
    assert_eq!(diff.removes, vec![(2, Some(&"x".to_owned()))]);
}

#[test]
fn test_diff_children_into_order() {
    let prev = [keyed("0"), keyed("1")];
    let next = [keyed("1"), keyed("0")];

    let order = diff_children(&prev, &next).into_order();

    assert_eq!(order.removes(), &[(1, Some("1".to_owned()))]);
    assert_eq!(order.inserts(), &[(Some("1".to_owned()), 0)]);
    assert!(!order.is_empty());
}
