use virtual_view::utils::{
    child_view_id, decimal_string, is_ancestor_id_of, is_boundary, last_index_of,
    next_descendant_id, parent_id, path_ids, traverse_path, view_id,
};

#[test]
fn test_last_index_of() {
    assert_eq!(last_index_of(".0.1", '.'), Some(2));
}

#[test]
fn test_next_descendant_id() {
    assert_eq!(next_descendant_id("", ".0.1.2.3"), ".0".to_owned());
    assert_eq!(next_descendant_id(".", ".0.1.2.3"), ".0".to_owned());
    assert_eq!(next_descendant_id(".0", ".0.1.2.3"), ".0.1".to_owned());
    assert_eq!(
        next_descendant_id(".0.1.2.3", ".0.1.2.3"),
        ".0.1.2.3".to_owned()
    );
}

#[test]
fn test_is_boundary() {
    assert_eq!(is_boundary(".0.1", 0), true);
    assert_eq!(is_boundary(".0.1", 1), false);
    assert_eq!(is_boundary(".0.1", 2), true);
    assert_eq!(is_boundary(".0.1", 3), false);
    assert_eq!(is_boundary(".0.1", 4), true);
}

#[test]
fn test_parent_id() {
    assert_eq!(parent_id(".0.1"), ".0".to_owned());
    assert_eq!(parent_id(".0"), String::new());
}

#[test]
fn test_is_ancestor_id_of() {
    assert_eq!(is_ancestor_id_of(".0", ".0.1"), true);
    assert_eq!(is_ancestor_id_of(".0.0", ".0.0"), true);
    assert_eq!(is_ancestor_id_of(".0,1", ".0"), false);
}

#[test]
fn test_traverse_path() {
    let mut index = 0;
    let ids = [".0.1.2.3.4", ".0.1.2.3", ".0.1.2", ".0.1", ".0"];

    {
        let i = &mut index;
        traverse_path(".0.1.2.3.4", ".0", false, false, move |id, _| {
            assert_eq!(ids[*i], id);
            *i += 1;
            true
        });
    }
    {
        let i = &mut index;
        traverse_path(".0", ".0.1.2.3.4", false, false, move |id, _| {
            *i -= 1;
            assert_eq!(ids[*i], id);
            true
        });
    }
}

#[test]
fn test_traverse_path_visits_every_level() {
    let mut seen: Vec<(String, bool)> = Vec::new();
    traverse_path(".0.1.2", "", false, true, |id, up| {
        seen.push((id.to_owned(), up));
        true
    });
    assert_eq!(
        seen,
        vec![
            (".0.1.2".to_owned(), true),
            (".0.1".to_owned(), true),
            (".0".to_owned(), true)
        ]
    );
}

#[test]
fn test_traverse_path_stops_when_told() {
    let mut seen: Vec<String> = Vec::new();
    traverse_path(".0.1.2", "", true, false, |id, _| {
        seen.push(id.to_owned());
        seen.len() < 2
    });
    assert_eq!(seen, vec![".0.1".to_owned(), ".0".to_owned()]);
}

#[test]
fn test_path_ids_between_unrelated_ids() {
    assert_eq!(
        path_ids(".5", ".0.1"),
        vec![".5".to_owned(), ".0.1".to_owned()]
    );
    assert_eq!(
        path_ids("", ".0.1"),
        vec!["".to_owned(), ".0".to_owned(), ".0.1".to_owned()]
    );
    assert_eq!(path_ids(".0.1.2", ".0"), vec![".0.1.2", ".0.1", ".0"]);
    assert_eq!(path_ids("", ""), vec![""]);
}

#[test]
fn test_parent_id_of_edge_cases() {
    assert_eq!(parent_id(""), "");
    assert_eq!(parent_id("abc"), "");
    assert_eq!(parent_id(".0.key"), ".0");
    assert_eq!(last_index_of("abc", '.'), None);
    assert_eq!(last_index_of("", '.'), None);
}

#[test]
fn test_is_boundary_past_the_end() {
    assert_eq!(is_boundary(".0.1", 5), false);
    assert_eq!(is_boundary("", 0), true);
}

#[test]
fn test_is_ancestor_needs_a_boundary() {
    assert_eq!(is_ancestor_id_of(".1", ".10"), false);
    assert_eq!(is_ancestor_id_of("", ".0"), true);
    assert_eq!(is_ancestor_id_of(".0.1", ".0"), false);
}

#[test]
fn test_view_id() {
    assert_eq!(view_id(".0", None, 3), ".0.3");
    assert_eq!(view_id(".0", Some(&"key".to_owned()), 3), ".0.key");
    assert_eq!(view_id("", None, 0), ".0");
    assert_eq!(child_view_id(None, 120), "120");
    assert_eq!(child_view_id(Some(&"a".to_owned()), 120), "a");
}

#[test]
fn test_decimal_string() {
    assert_eq!(decimal_string(0), "0");
    assert_eq!(decimal_string(9), "9");
    assert_eq!(decimal_string(10), "10");
    assert_eq!(decimal_string(4096), "4096");
    assert_eq!(decimal_string(usize::MAX), usize::MAX.to_string());
}
