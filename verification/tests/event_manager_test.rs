use virtual_view::event_manager::{propagation_stopped, EventManager};
use virtual_view::prop::{Function, Handlers, Prop, Props};

fn event(name: &str) -> Props {
    let mut event = Props::new();
    event.insert("name".to_owned(), Prop::String(name.to_owned()));
    event
}

struct Recorder {
    seen: Vec<(u64, String)>,
    stop_at: Option<u64>,
}

impl Handlers for Recorder {
    fn call(&mut self, function: &Function, event: &mut Props) -> Prop {
        let at = event.get("component_id").string().unwrap().clone();
        self.seen.push((function.id(), at));
        if self.stop_at == Some(function.id()) {
            event.insert("propagation".to_owned(), Prop::Boolean(false));
        }
        Prop::Null
    }
}

fn manager() -> EventManager {
    let mut manager = EventManager::new();
    manager.add(".0", "onclick", Function::new(1));
    manager.add(".0.1", "onclick", Function::new(2));
    manager.add(".0.1.2", "onclick", Function::new(3));
    manager.add(".0.1", "onkey", Function::new(4));
    manager.add(".0.10", "onclick", Function::new(5));
    manager
}

#[test]
fn test_event_funcs_lists_the_way_up() {
    let manager = manager();
    let funcs = manager.event_funcs(".0.1.2", &event("onclick"));
    let ids: Vec<(String, u64)> = funcs.iter().map(|(id, f)| (id.clone(), f.id())).collect();
    assert_eq!(
        ids,
        vec![
            (".0.1.2".to_owned(), 3),
            (".0.1".to_owned(), 2),
            (".0".to_owned(), 1)
        ]
    );
    assert_eq!(manager.event_funcs(".0.1.7.8", &event("onclick")).len(), 2);
    assert_eq!(manager.event_funcs(".0.1.2", &event("onkey")).len(), 1);
    assert!(manager.event_funcs(".0.1.2", &event("onfocus")).is_empty());
    assert!(manager.event_funcs(".9", &event("onclick")).is_empty());
    assert!(manager.event_funcs(".0.1.2", &Props::new()).is_empty());
    let mut unnamed = Props::new();
    unnamed.insert("name".to_owned(), Prop::Boolean(true));
    assert!(manager.event_funcs(".0.1.2", &unnamed).is_empty());
}

#[test]
fn test_dispatch_calls_every_handler_on_the_way() {
    let manager = manager();
    let mut recorder = Recorder { seen: Vec::new(), stop_at: None };
    let mut event = event("onclick");
    let called = manager.dispatch(&mut recorder, ".0.1.2", &mut event);
    assert_eq!(called, 3);
    assert_eq!(
        recorder.seen,
        vec![
            (3, ".0.1.2".to_owned()),
            (2, ".0.1".to_owned()),
            (1, ".0".to_owned())
        ]
    );
    assert_eq!(event.get("component_id"), &Prop::String(".0".to_owned()));
}

#[test]
fn test_dispatch_stops_when_propagation_is_halted() {
    let manager = manager();
    let mut recorder = Recorder { seen: Vec::new(), stop_at: Some(2) };
    let mut event = event("onclick");
    let called = manager.dispatch(&mut recorder, ".0.1.2", &mut event);
    assert_eq!(called, 2);
    assert_eq!(recorder.seen.len(), 2);
    assert!(propagation_stopped(&event));
    assert!(!propagation_stopped(&Props::new()));
    let mut on = Props::new();
    on.insert("propagation".to_owned(), Prop::Boolean(true));
    assert!(!propagation_stopped(&on));
}

#[test]
fn test_dispatch_without_handlers_does_nothing() {
    let manager = EventManager::new();
    let mut recorder = Recorder { seen: Vec::new(), stop_at: None };
    let mut event = event("onclick");
    assert_eq!(manager.dispatch(&mut recorder, ".0.1", &mut event), 0);
    assert!(recorder.seen.is_empty());
    assert!(!event.contains_key("component_id"));
}

#[test]
fn test_add_and_remove_are_idempotent() {
    let mut manager = EventManager::new();
    assert!(manager.is_empty());
    manager.add(".0", "onclick", Function::new(1));
    manager.add(".0", "onclick", Function::new(2));
    assert_eq!(manager.get(".0", "onclick").unwrap().id(), 2);
    manager.remove(".0", "onkey");
    manager.remove(".1", "onclick");
    assert!(!manager.is_empty());
    manager.remove(".0", "onclick");
    manager.remove(".0", "onclick");
    assert!(manager.get(".0", "onclick").is_none());
    assert!(manager.is_empty());
}

#[test]
fn test_remove_all_purges_a_subtree() {
    let mut manager = manager();
    manager.remove_all(".0.1");
    assert!(manager.get(".0.1", "onclick").is_none());
    assert!(manager.get(".0.1.2", "onclick").is_none());
    assert!(manager.get(".0.1", "onkey").is_none());
    assert_eq!(manager.get(".0", "onclick").unwrap().id(), 1);
    assert_eq!(manager.get(".0.10", "onclick").unwrap().id(), 5);
    manager.remove_all(".0");
    assert!(manager.is_empty());
    manager.remove_all(".0");
    assert!(manager.is_empty());
}
