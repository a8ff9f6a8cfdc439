use std::collections::HashMap;
use virtual_view::diff::diff_children;
use virtual_view::view::View;

fn child(key: Option<&str>, label: &str) -> View {
    let mut view = View::new_data("li");
    if let Some(key) = key {
        view.set_key(key.to_owned());
    }
    view.push_child(View::new_text(label));
    view
}

fn label(view: &View) -> String {
    match &view.children().unwrap()[0] {
        View::Text(text) => text.clone(),
        _ => String::new(),
    }
}

fn replay(prev: &[View], next: &[View]) -> Vec<String> {
    let diff = diff_children(prev, next);
    let mut list: Vec<Option<&View>> = diff.children.clone();
    let mut stash: HashMap<String, &View> = HashMap::new();
    for (at, key) in &diff.removes {
        let item = list.remove(*at);
        if let (Some(key), Some(item)) = (key, item) {
            stash.insert((*key).clone(), item);
        }
    }
    for (key, to) in &diff.inserts {
        let item = key.and_then(|key| stash.get(key).copied());
        list.insert(*to, item);
    }
    list.into_iter().flatten().map(label).collect()
}

fn lists(keys: &[Option<&'static str>], tag: &str) -> Vec<Vec<View>> {
    let mut all: Vec<Vec<usize>> = vec![Vec::new()];
    let mut frontier: Vec<Vec<usize>> = vec![Vec::new()];
    for _ in 0..keys.len() {
        let mut grown = Vec::new();
        for list in &frontier {
            for i in 0..keys.len() {
                if !list.contains(&i) {
                    let mut longer = list.clone();
                    longer.push(i);
                    grown.push(longer);
                }
            }
        }
        all.extend(grown.iter().cloned());
        frontier = grown;
    }
    all.into_iter()
        .map(|list| {
            list.into_iter()
                .enumerate()
                .map(|(at, i)| child(keys[i], &format!("{}{}", tag, at)))
                .collect()
        })
        .collect()
}

#[test]
fn test_replay_reconstructs_next_for_keyed_lists() {
    let keys = [Some("a"), Some("b"), Some("c"), Some("d")];
    let prevs = lists(&keys, "p");
    let nexts = lists(&keys, "n");
    for prev in &prevs {
        for next in &nexts {
            let wanted: Vec<String> = next.iter().map(label).collect();
            assert_eq!(replay(prev, next), wanted);
        }
    }
}

#[test]
fn test_replay_reconstructs_next_for_mixed_lists() {
    let prevs = lists(&[Some("a"), Some("b"), None, None], "p");
    let nexts = lists(&[Some("b"), Some("c"), None, None], "n");
    for prev in &prevs {
        for next in &nexts {
            let wanted: Vec<String> = next.iter().map(label).collect();
            assert_eq!(replay(prev, next), wanted);
        }
    }
}

#[test]
fn test_replay_of_an_item_moved_by_two_places() {
    let prev = [
        child(Some("a"), "a"),
        child(Some("b"), "b"),
        child(Some("c"), "c"),
        child(Some("d"), "d"),
    ];
    let next = [
        child(Some("b"), "b"),
        child(Some("c"), "c"),
        child(Some("a"), "a"),
        child(Some("d"), "d"),
    ];
    let diff = diff_children(&prev, &next);
    assert_eq!(
        diff.removes,
        vec![
            (0, Some(&"a".to_owned())),
            (0, Some(&"b".to_owned())),
            (0, Some(&"c".to_owned()))
        ]
    );
    assert_eq!(
        diff.inserts,
        vec![
            (Some(&"b".to_owned()), 0),
            (Some(&"c".to_owned()), 1),
            (Some(&"a".to_owned()), 2)
        ]
    );
    assert_eq!(replay(&prev, &next), vec!["b", "c", "a", "d"]);
}

#[test]
fn test_key_in_both_lists_keeps_its_slot() {
    let prevs = lists(&[Some("a"), Some("k"), None, None], "p");
    let nexts = lists(&[Some("k"), Some("z"), None, None], "n");
    for prev in &prevs {
        for next in &nexts {
            let at = prev.iter().position(|v| v.key().map(|k| k.as_str()) == Some("k"));
            let wanted = next.iter().find(|v| v.key().map(|k| k.as_str()) == Some("k"));
            if let (Some(at), Some(wanted)) = (at, wanted) {
                let diff = diff_children(prev, next);
                let held = diff.children[at].unwrap();
                assert_eq!(held.key().unwrap(), "k");
                assert_eq!(label(held), label(wanted));
            }
        }
    }
}

#[test]
fn test_same_list_moves_nothing() {
    for list in lists(&[Some("a"), Some("b"), None, None], "n") {
        let diff = diff_children(&list, &list);
        assert!(diff.removes.is_empty());
        assert!(diff.inserts.is_empty());
        assert_eq!(diff.children.len(), list.len());
        assert!(diff.children.iter().all(|slot| slot.is_some()));
    }
}

#[test]
fn test_a_key_that_stands_twice_breaks_the_replay() {
    let prev = [child(Some("a"), "p")];
    let next = [child(Some("a"), "n0"), child(Some("a"), "n1")];
    let diff = diff_children(&prev, &next);
    assert_eq!(diff.children.len(), 2);
    assert_eq!(label(diff.children[0].unwrap()), "n1");
    assert!(diff.children[1].is_none());
    assert!(diff.removes.is_empty());
    assert_eq!(diff.inserts, vec![(Some(&"a".to_owned()), 1)]);
    assert_eq!(replay(&prev, &next), vec!["n1"]);
}
