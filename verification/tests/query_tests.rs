use kittest::{by, By, Error, NodeData, Role, State, TreeUpdate};

fn node(id: u64, role: Role, label: Option<&str>, parent: Option<u64>, children: Vec<u64>) -> NodeData {
    NodeData {
        id,
        role,
        label: label.map(|s| s.to_string()),
        value: None,
        focused: false,
        hidden: false,
        disabled: false,
        toggled: None,
        children,
        parent,
        labelled_by: vec![],
        center: None,
    }
}

/// The tree of the examples: buttons, a checkbox, a captioned button and a
/// labelled group holding a second "Duplicate" button.
fn sample_state() -> State {
    let mut label_node = node(5, Role::Label, None, Some(0), vec![]);
    label_node.value = Some("Submit".to_string());
    let mut submit_button = node(6, Role::Button, Some("Submit"), Some(0), vec![]);
    submit_button.labelled_by = vec![5];
    let mut group_label = node(7, Role::Label, None, Some(0), vec![]);
    group_label.value = Some("My Group".to_string());
    let mut group = node(8, Role::Group, None, Some(0), vec![9]);
    group.labelled_by = vec![7];
    let nodes = vec![
        node(0, Role::Window, None, None, vec![1, 2, 3, 4, 5, 6, 7, 8]),
        node(1, Role::Button, Some("Button 1"), Some(0), vec![]),
        node(2, Role::Button, Some("Button 2"), Some(0), vec![]),
        node(3, Role::CheckBox, Some("Check me"), Some(0), vec![]),
        node(4, Role::Button, Some("Duplicate"), Some(0), vec![]),
        label_node,
        submit_button,
        group_label,
        group,
        node(9, Role::Button, Some("Duplicate"), Some(8), vec![]),
    ];
    State::new(TreeUpdate { nodes, root: Some(0) }).unwrap()
}

#[test]
fn query_all_is_stable_and_idempotent() {
    let state = sample_state();
    let root = state.root();
    let filter1 = by().role(Role::Button);
    let filter2 = by().role(Role::Button);
    let first: Vec<u64> = root.query_all(&filter1).iter().map(|n| n.id()).collect();
    let second: Vec<u64> = root.query_all(&filter2).iter().map(|n| n.id()).collect();
    assert_eq!(first, second);
    assert_eq!(first, vec![1, 2, 4, 6, 9]);
}

#[test]
fn query_all_preserves_preorder() {
    let state = sample_state();
    let root = state.root();
    let all: Vec<u64> = root.query_all(&By::new()).iter().map(|n| n.id()).collect();
    assert_eq!(all, vec![1, 2, 3, 4, 5, 6, 7, 8, 9]);
}

#[test]
fn label_exclusion_drops_the_caption_node() {
    let state = sample_state();
    let root = state.root();
    let found: Vec<u64> = root.query_all_by_label("Submit").iter().map(|n| n.id()).collect();
    assert_eq!(found, vec![6]);
}

#[test]
fn include_labels_keeps_the_caption_node() {
    let state = sample_state();
    let root = state.root();
    let filter = by().label("Submit").include_labels();
    let found: Vec<u64> = root.query_all(&filter).iter().map(|n| n.id()).collect();
    assert_eq!(found, vec![5, 6]);
}

#[test]
fn exact_label_match_rejects_longer_labels() {
    let nodes = vec![
        node(0, Role::Window, None, None, vec![1, 2]),
        node(1, Role::Button, Some("Submit"), Some(0), vec![]),
        node(2, Role::Button, Some("Submit Form"), Some(0), vec![]),
    ];
    let state = State::new(TreeUpdate { nodes, root: Some(0) }).unwrap();
    let root = state.root();
    let exact: Vec<u64> = root.query_all(&by().label("Submit")).iter().map(|n| n.id()).collect();
    assert_eq!(exact, vec![1]);
    let sub: Vec<u64> = root.query_all(&by().label_contains("Sub")).iter().map(|n| n.id()).collect();
    assert_eq!(sub, vec![1, 2]);
}

#[test]
fn get_by_label_succeeds_on_a_unique_label() {
    let state = sample_state();
    let root = state.root();
    let button = root.get_by_label("Button 1").unwrap();
    assert_eq!(button.id(), 1);
}

#[test]
fn get_by_label_is_ambiguous_on_a_duplicated_label() {
    let state = sample_state();
    let root = state.root();
    match root.get_by_label("Duplicate") {
        Err(Error::Ambiguous { query, first, second }) => {
            assert!(query.contains("Duplicate"));
            assert!(first.contains("id: 4"));
            assert!(second.contains("id: 9"));
        }
        other => panic!("expected Ambiguous, got {:?}", other.map(|n| n.id())),
    }
}

#[test]
fn get_by_label_reports_not_found() {
    let state = sample_state();
    let root = state.root();
    match root.get_by_label("No Such Label") {
        Err(Error::NotFound { query, root: searched }) => {
            assert!(query.contains("No Such Label"));
            assert!(searched.contains("id: 0"));
        }
        other => panic!("expected NotFound, got {:?}", other.map(|n| n.id())),
    }
}

#[test]
fn query_by_label_returns_none_without_raising() {
    let state = sample_state();
    let root = state.root();
    let result = root.query_by_label("No Such Label").unwrap();
    assert!(result.is_none());
}

#[test]
fn non_recursive_query_sees_only_direct_children() {
    let nodes = vec![
        node(0, Role::Window, None, None, vec![1]),
        node(1, Role::Group, None, Some(0), vec![2]),
        node(2, Role::Button, Some("Duplicate"), Some(1), vec![]),
    ];
    let state = State::new(TreeUpdate { nodes, root: Some(0) }).unwrap();
    let root = state.root();
    let shallow = root.query_all(&by().label("Duplicate").recursive(false));
    assert_eq!(shallow.len(), 0);
    let deep = root.query_all(&by().label("Duplicate"));
    assert_eq!(deep.len(), 1);
    assert_eq!(deep[0].id(), 2);
}

#[test]
fn queries_can_start_at_an_inner_node() {
    let state = sample_state();
    let root = state.root();
    let group = root.get_by_role(Role::Group).unwrap();
    let inner = group.get_by_label("Duplicate").unwrap();
    assert_eq!(inner.id(), 9);
}

#[test]
fn role_and_label_disambiguate() {
    let state = sample_state();
    let root = state.root();
    let submit = root.get_by_role_and_label(Role::Button, "Submit").unwrap();
    assert_eq!(submit.id(), 6);
}

#[test]
fn query_by_value_matches_exactly() {
    let state = sample_state();
    let root = state.root();
    let caption = root.get_by_value("My Group").unwrap();
    assert_eq!(caption.id(), 7);
    assert!(root.query_by_value("My Grou").unwrap().is_none());
}

#[test]
fn predicate_queries_filter_the_subtree() {
    let state = sample_state();
    let root = state.root();
    let hits = root.query_all_by(&|n: &kittest::Node<'_>| n.role() == Role::CheckBox);
    assert_eq!(hits.len(), 1);
    assert_eq!(hits[0].id(), 3);
    let miss = root.query_by(&|n: &kittest::Node<'_>| n.id() == 77).unwrap();
    assert!(miss.is_none());
}

#[test]
fn missing_root_is_a_missing_capability() {
    let nodes = vec![node(0, Role::Window, None, None, vec![])];
    match State::new(TreeUpdate { nodes, root: None }) {
        Err(Error::MissingCapability) => {}
        _ => panic!("expected MissingCapability"),
    }
    let nodes = vec![node(0, Role::Window, None, None, vec![])];
    match State::new(TreeUpdate { nodes, root: Some(7) }) {
        Err(Error::MissingCapability) => {}
        _ => panic!("expected MissingCapability"),
    }
}

#[test]
fn update_replaces_the_snapshot_wholesale() {
    let mut state = sample_state();
    assert_eq!(state.root().id(), 0);
    let nodes = vec![
        node(10, Role::Window, None, None, vec![11]),
        node(11, Role::Button, Some("Fresh"), Some(10), vec![]),
    ];
    state.update(TreeUpdate { nodes, root: Some(10) }).unwrap();
    let root = state.root();
    assert_eq!(root.id(), 10);
    assert_eq!(root.get_by_label("Fresh").unwrap().id(), 11);
}

#[test]
fn node_accessors_read_the_snapshot() {
    let mut toggled = node(1, Role::CheckBox, Some("Check me"), Some(0), vec![]);
    toggled.toggled = Some(kittest::Toggled::True);
    toggled.focused = true;
    let nodes = vec![node(0, Role::Window, None, None, vec![1]), toggled];
    let state = State::new(TreeUpdate { nodes, root: Some(0) }).unwrap();
    let root = state.root();
    let check = root.get_by_label("Check me").unwrap();
    assert_eq!(check.role(), Role::CheckBox);
    assert_eq!(check.label().unwrap().as_str(), "Check me");
    assert!(check.value().is_none());
    assert!(check.is_focused());
    assert!(!check.is_hidden());
    assert!(!check.is_disabled());
    assert_eq!(check.toggled(), Some(kittest::Toggled::True));
    let parent = check.parent().unwrap();
    assert_eq!(parent.id(), 0);
    assert!(root.parent().is_none());
    let children = root.children();
    assert_eq!(children.len(), 1);
    assert_eq!(children[0].id(), 1);
}

#[test]
fn child_ids_that_resolve_to_no_node_are_skipped() {
    let nodes = vec![
        node(0, Role::Window, None, None, vec![1, 99]),
        node(1, Role::Button, Some("A"), Some(0), vec![]),
    ];
    let state = State::new(TreeUpdate { nodes, root: Some(0) }).unwrap();
    let root = state.root();
    let all = root.query_all(&By::new());
    assert_eq!(all.len(), 1);
    assert_eq!(all[0].id(), 1);
    let children = root.children();
    assert_eq!(children.len(), 1);
    assert_eq!(children[0].id(), 1);
}

#[test]
fn exclusion_set_comes_from_the_matched_candidates_only() {
    // The caption node (5) captions the button (6), but the role criterion
    // excludes the button from the matched set, so nothing marks 5 as a
    // caption to drop: the label query scoped to caption nodes returns it.
    let mut caption = node(5, Role::Label, None, Some(0), vec![]);
    caption.value = Some("X".to_string());
    let mut button = node(6, Role::Button, Some("X"), Some(0), vec![]);
    button.labelled_by = vec![5];
    let nodes = vec![node(0, Role::Window, None, None, vec![5, 6]), caption, button];
    let state = State::new(TreeUpdate { nodes, root: Some(0) }).unwrap();
    let found: Vec<u64> = state
        .query_all(&by().label("X").role(Role::Label))
        .iter()
        .map(|n| n.id())
        .collect();
    assert_eq!(found, vec![5]);
}

#[test]
fn predicate_combines_with_other_criteria() {
    let state = sample_state();
    let root = state.root();
    let late_buttons: Vec<u64> = root
        .query_all_with(by().role(Role::Button), &|n: &kittest::Node<'_>| n.id() >= 4)
        .iter()
        .map(|n| n.id())
        .collect();
    assert_eq!(late_buttons, vec![4, 6, 9]);
    let submit: Vec<u64> = root
        .query_all_with(by().label("Submit"), &|_n: &kittest::Node<'_>| true)
        .iter()
        .map(|n| n.id())
        .collect();
    assert_eq!(submit, vec![6]);
    let submit_all: Vec<u64> = root
        .query_all_with(by().label("Submit").include_labels(), &|_n: &kittest::Node<'_>| true)
        .iter()
        .map(|n| n.id())
        .collect();
    assert_eq!(submit_all, vec![5, 6]);
    let none: Vec<u64> = root
        .query_all_with(by().role(Role::Button), &|_n: &kittest::Node<'_>| false)
        .iter()
        .map(|n| n.id())
        .collect();
    assert_eq!(none, Vec::<u64>::new());
}
