use virtual_view::prop::{Prop, Props};
use virtual_view::renderer::{Message, Node, NodeKind, Nodes, Queue, Updater};
use virtual_view::str_map::StrMap;
use virtual_view::transaction::{Order, Patch, RawView, Transaction};
use virtual_view::view::View;

fn raw(text: &str) -> RawView {
    RawView::from_view(&View::new_text(text))
}

#[test]
fn test_transaction_starts_empty() {
    let transaction = Transaction::new();
    assert!(transaction.is_empty());
    assert!(transaction.patches().is_empty());
    assert!(transaction.removes().is_empty());
    assert!(transaction.events().is_empty());
}

#[test]
fn test_transaction_keeps_patches_in_order() {
    let mut transaction = Transaction::new();
    transaction.mount(".0", raw("a"));
    transaction.insert(".0", ".0.1", 1, raw("b"));
    transaction.replace(".0", raw("a"), raw("c"));
    transaction.order(".0", Order::new(vec![(0, None)], vec![(Some("k".to_owned()), 1)]));
    transaction.props(".0", Props::new(), Props::new());
    transaction.replace(".1", raw("x"), raw("y"));

    assert!(!transaction.is_empty());
    let patches = transaction.patches().get(".0").unwrap();
    assert_eq!(patches.len(), 5);
    assert!(patches[0].is_mount());
    assert!(patches[1].is_insert());
    assert!(patches[2].is_replace());
    assert!(patches[3].is_order());
    assert!(patches[4].is_props());
    assert!(!patches[0].is_insert() && !patches[0].is_replace());
    assert!(!patches[0].is_order() && !patches[0].is_props() && !patches[1].is_mount());
    match &patches[1] {
        Patch::Insert(id, index, view) => {
            assert_eq!(id, ".0.1");
            assert_eq!(*index, 1);
            assert!(matches!(view, RawView::Text(t) if t == "b"));
        }
        other => panic!("no insert: {:?}", other),
    }
    assert_eq!(transaction.patches().get(".1").unwrap().len(), 1);
    assert_eq!(transaction.patches().len(), 2);
    assert!(transaction.removes().is_empty());
}

#[test]
fn test_transaction_records_removals_and_events() {
    let mut transaction = Transaction::new();
    transaction.remove(".0.1", raw("a"));
    transaction.unmount(".0", raw("b"));
    transaction.add_event(".0", "onclick");
    transaction.add_event(".0", "onkey");
    transaction.remove_event(".0", "onclick");
    transaction.remove_event(".1", "onclick");

    assert!(transaction.removes().contains_key(".0.1"));
    assert!(transaction.removes().contains_key(".0"));
    assert_eq!(transaction.removes().len(), 2);
    let events = transaction.events();
    assert_eq!(events.get(".0").unwrap().get("onclick"), Some(&false));
    assert_eq!(events.get(".0").unwrap().get("onkey"), Some(&true));
    assert_eq!(events.get(".1").unwrap().get("onclick"), Some(&false));
    assert!(transaction.patches().is_empty());

    let mut only_event = Transaction::new();
    only_event.add_event(".0", "onclick");
    assert!(!only_event.is_empty());
    let mut only_removal = Transaction::new();
    only_removal.remove(".0", raw("a"));
    assert!(!only_removal.is_empty());
}

#[test]
fn test_order_holds_what_it_was_given() {
    let order = Order::new(
        vec![(1, Some("a".to_owned())), (0, None)],
        vec![(Some("a".to_owned()), 0)],
    );
    assert_eq!(order.removes(), &[(1, Some("a".to_owned())), (0, None)]);
    assert_eq!(order.inserts(), &[(Some("a".to_owned()), 0)]);
    assert!(!order.is_empty());
    assert!(Order::new(Vec::new(), Vec::new()).is_empty());
}

#[test]
fn test_str_map() {
    let mut map: StrMap<u32> = StrMap::new();
    assert!(map.is_empty());
    assert_eq!(map.len(), 0);
    map.insert("b".to_owned(), 1);
    map.insert("a".to_owned(), 2);
    map.insert("c".to_owned(), 3);
    map.insert("a".to_owned(), 4);
    assert_eq!(map.len(), 3);
    assert_eq!(map.get("a"), Some(&4));
    assert_eq!(map.get("d"), None);
    assert_eq!(map.position("a"), Some(1));
    assert_eq!(map.position("d"), None);
    assert!(map.contains_key("c"));
    assert_eq!((map.key_at(0).as_str(), *map.value_at(0)), ("b", 1));
    assert_eq!((map.key_at(2).as_str(), *map.value_at(2)), ("c", 3));
    assert_eq!(map.replace_at(2, 9), 3);
    assert_eq!(map.get("c"), Some(&9));
    assert_eq!(map.remove("b"), Some(1));
    assert_eq!(map.remove("b"), None);
    assert_eq!(map.len(), 2);
    assert_eq!(map.position("a"), Some(0));
    assert_eq!(map.position("c"), Some(1));
    assert_eq!(map.get("a"), Some(&4));
    assert_eq!(map.get("c"), Some(&9));
    map.insert("b".to_owned(), 5);
    assert_eq!(map.position("b"), Some(2));
    assert_eq!(map.remove("a"), Some(4));
    assert_eq!(map.remove("c"), Some(9));
    assert_eq!(map.remove("b"), Some(5));
    assert!(map.is_empty());
}

fn node(id: &str, depth: usize) -> Node {
    Node::new(0, depth, id.to_owned(), View::new_text(id), NodeKind::View, Props::new())
}

#[test]
fn test_nodes_registry() {
    let mut nodes = Nodes::new();
    assert!(nodes.is_empty());
    nodes.insert_at_depth(".0".to_owned(), 0, node(".0", 0));
    nodes.insert_at_depth(".0".to_owned(), 1, node(".0", 1));
    nodes.insert_at_depth(".0".to_owned(), 2, node(".0", 2));
    nodes.insert_at_depth(".0".to_owned(), 4, node(".0", 4));
    nodes.insert_at_depth(".0.1".to_owned(), 0, node(".0.1", 0));
    nodes.insert_at_depth(".00".to_owned(), 0, node(".00", 0));
    assert!(!nodes.is_empty());
    assert_eq!(nodes.get(".0").unwrap().depth, 0);
    assert_eq!(nodes.get_at_depth(".0", 2).unwrap().depth, 2);
    assert!(nodes.get_at_depth(".0", 3).is_none());
    assert!(nodes.contains(".0", 4));
    assert!(!nodes.contains(".0", 5));
    assert!(nodes.get(".1").is_none());

    assert_eq!(nodes.remove_at_depth(".0", 1).unwrap().depth, 1);
    assert!(nodes.contains(".0", 0));
    assert!(!nodes.contains(".0", 1));
    assert!(!nodes.contains(".0", 2));
    assert!(nodes.contains(".0", 4));
    assert!(nodes.remove_at_depth(".0", 1).is_none());
    assert!(nodes.remove_at_depth(".7", 0).is_none());

    assert_eq!(nodes.take_at_depth(".0", 4).unwrap().depth, 4);
    assert!(nodes.take_at_depth(".0", 4).is_none());
    assert!(nodes.contains(".0", 0));

    nodes.remove_under(".0");
    assert!(!nodes.contains(".0", 0));
    assert!(!nodes.contains(".0.1", 0));
    assert!(nodes.contains(".00", 0));
    nodes.remove_under(".00");
    assert!(nodes.is_empty());
}

#[test]
fn test_node_should_update() {
    let mut a = View::new_data("div");
    let mut b = View::new_data("div");
    assert!(Node::should_update(&a, &b));
    assert!(!Node::should_update(&a, &View::new_data("p")));
    assert!(!Node::should_update(&a, &View::new_text("div")));
    assert!(!Node::should_update(&View::new_text("div"), &a));
    assert!(Node::should_update(&View::new_text("a"), &View::new_text("b")));
    a.set_key("k".to_owned());
    assert!(!Node::should_update(&a, &b));
    b.set_key("k".to_owned());
    assert!(Node::should_update(&a, &b));
    b.insert_prop("class".to_owned(), Prop::Null);
    assert!(Node::should_update(&a, &b));
}

#[test]
fn test_node_takes_a_view_of_its_kind_in_place() {
    let plain = node(".0", 0);
    assert!(plain.takes(&View::new_text("other")));
    assert!(!plain.takes(&View::new_data("div")));
    assert!(!plain.is_component());
    let element = Node::new(0, 0, ".0".to_owned(), View::new_data("div"), NodeKind::View, Props::new());
    assert!(element.takes(&View::new_data("div")));
    assert!(!element.takes(&View::new_data("p")));
    assert!(!element.takes(&View::new_component(
        virtual_view::view::ComponentRef::new(1, "div".to_owned())
    )));
}

#[test]
fn test_queue_is_first_in_first_out() {
    let mut queue: Queue<u8> = Queue::new();
    assert!(queue.is_empty());
    assert!(queue.pop().is_none());
    queue.push_mount(View::new_text("a"));
    queue.push_update(".0".to_owned(), 1, 7);
    queue.push_unmount();
    assert_eq!(queue.len(), 3);
    assert!(matches!(queue.pop(), Some(Message::Mount(View::Text(t))) if t == "a"));
    assert!(matches!(queue.pop(), Some(Message::Update(id, 1, 7)) if id == ".0"));
    assert!(matches!(queue.pop(), Some(Message::Unmount)));
    assert!(queue.pop().is_none());
}

#[test]
fn test_updater() {
    let updater = Updater::new(".0.1".to_owned(), 2);
    assert_eq!(updater.id(), ".0.1");
    assert_eq!(updater.depth(), 2);
    assert_eq!(updater.to_text(), "Updater(.0.1, 2)");
    assert!(updater.same(&updater.clone()));
    assert!(!updater.same(&Updater::new(".0.1".to_owned(), 3)));
    assert!(!updater.same(&Updater::new(".0.2".to_owned(), 2)));
    let mut json = Props::new();
    json.insert("a".to_owned(), Prop::Null);
    let message = updater.set_json_id(json);
    assert_eq!(message.get("component_id"), &Prop::String(".0.1".to_owned()));
    assert_eq!(message.len(), 2);
}
