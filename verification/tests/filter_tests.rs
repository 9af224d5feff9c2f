use kittest::{by, By, NodeData, Role, Toggled};
use kittest::node::debug_fmt_node;
use kittest::state::{State, TreeUpdate};
use kittest::strings::{str_contains, u64_to_string};

fn node(id: u64, role: Role, label: Option<&str>, parent: Option<u64>, children: Vec<u64>) -> NodeData {
    NodeData {
        id,
        role,
        label: label.map(|s| s.to_string()),
        value: None,
        focused: false,
        hidden: false,
        disabled: false,
        toggled: None,
        children,
        parent,
        labelled_by: vec![],
        center: None,
    }
}

#[test]
fn matches_checks_label_role_and_value() {
    let mut field = node(3, Role::TextInput, Some("Name"), Some(0), vec![]);
    field.value = Some("Ada".to_string());
    assert!(by().label("Name").matches(&field));
    assert!(!by().label("Nam").matches(&field));
    assert!(by().label_contains("Nam").matches(&field));
    assert!(by().role(Role::TextInput).matches(&field));
    assert!(!by().role(Role::Button).matches(&field));
    assert!(by().value("Ada").matches(&field));
    assert!(!by().value("Ad").matches(&field));
    assert!(by().label("Name").role(Role::TextInput).value("Ada").matches(&field));
    assert!(!by().label("Name").role(Role::Button).matches(&field));
    assert!(By::new().matches(&field));
}

#[test]
fn label_criterion_reads_the_value_of_a_caption_node() {
    let mut caption = node(5, Role::Label, None, Some(0), vec![]);
    caption.value = Some("Submit".to_string());
    assert!(by().label("Submit").matches(&caption));
    let unlabelled = node(6, Role::Button, None, Some(0), vec![]);
    assert!(!by().label("Submit").matches(&unlabelled));
}

#[test]
fn describe_names_each_present_criterion() {
    let rendered = by().label("Send").role(Role::Button).recursive(false).describe();
    assert_eq!(rendered, "By { label: \"Send\" role: Button recursive: false }");
    let rendered = by().label_contains("Sen").include_labels().describe();
    assert_eq!(rendered, "By { label_contains: \"Sen\" include_labels }");
    let rendered = by().value("42").describe();
    assert_eq!(rendered, "By { value: \"42\" }");
    let rendered = By::new().describe();
    assert_eq!(rendered, "By { }");
}

#[test]
fn debug_clone_keeps_every_criterion() {
    let filter = by().label("Send").role(Role::CheckBox).recursive(false);
    let copy = filter.debug_clone_without_predicate();
    assert_eq!(copy.describe(), filter.describe());
    assert!(copy.should_filter_labels());
    assert!(!by().label("Send").include_labels().should_filter_labels());
    assert!(!By::new().should_filter_labels());
}

#[test]
fn error_messages_carry_the_criteria() {
    let nodes = vec![node(0, Role::Window, None, None, vec![])];
    let state = State::new(TreeUpdate { nodes, root: Some(0) }).unwrap();
    let err = match state.root().get_by_label("Missing") {
        Err(e) => e,
        Ok(_) => panic!("expected an error"),
    };
    let message = err.message();
    assert!(message.contains("no nodes found matching the query"));
    assert!(message.contains("label: \"Missing\""));
    assert!(message.contains("Node { id: 0, role: Window"));
}

#[test]
fn debug_fmt_node_renders_the_subtree() {
    let mut check = node(2, Role::CheckBox, Some("Check me"), Some(0), vec![]);
    check.toggled = Some(Toggled::True);
    check.focused = true;
    let nodes = vec![node(0, Role::Window, None, None, vec![2]), check];
    let state = State::new(TreeUpdate { nodes, root: Some(0) }).unwrap();
    let rendered = debug_fmt_node(&state.root());
    assert_eq!(
        rendered,
        "Node { id: 0, role: Window, focused: false, hidden: false, disabled: false, \
         children: [Node { id: 2, role: CheckBox, label: \"Check me\", focused: true, \
         hidden: false, disabled: false, toggled: True, children: [] }] }"
    );
}

#[test]
fn substring_search_handles_edges() {
    assert!(str_contains("hello", ""));
    assert!(str_contains("", ""));
    assert!(!str_contains("", "a"));
    assert!(str_contains("hello", "hello"));
    assert!(str_contains("hello", "ell"));
    assert!(!str_contains("hello", "hellos"));
    assert!(!str_contains("hello", "lel"));
    assert!(str_contains("aaab", "aab"));
}

#[test]
fn numbers_render_in_decimal() {
    assert_eq!(u64_to_string(0), "0");
    assert_eq!(u64_to_string(9), "9");
    assert_eq!(u64_to_string(10), "10");
    assert_eq!(u64_to_string(90210), "90210");
    assert_eq!(u64_to_string(u64::MAX), "18446744073709551615");
}

#[test]
fn predicate_errors_mark_the_predicate() {
    let nodes = vec![node(0, Role::Window, None, None, vec![])];
    let state = State::new(TreeUpdate { nodes, root: Some(0) }).unwrap();
    let err = match state.root().get_by(&|_n: &kittest::Node<'_>| true) {
        Err(e) => e,
        Ok(_) => panic!("expected an error"),
    };
    let message = err.message();
    assert!(message.contains("By { predicate }"));
}

#[test]
fn state_offers_the_query_primitives() {
    let nodes = vec![
        node(0, Role::Window, None, None, vec![1, 2]),
        node(1, Role::Button, Some("Left"), Some(0), vec![]),
        node(2, Role::Button, Some("Right"), Some(0), vec![]),
    ];
    let state = State::new(TreeUpdate { nodes, root: Some(0) }).unwrap();
    assert_eq!(state.query_all(&by().role(Role::Button)).len(), 2);
    assert_eq!(state.get(by().label("Left")).unwrap().id(), 1);
    assert!(state.query(by().label("Middle")).unwrap().is_none());
    let both = state.get_all(by().role(Role::Button)).unwrap();
    assert_eq!(both.len(), 2);
    match state.get(by().role(Role::Button)) {
        Err(kittest::Error::Ambiguous { .. }) => {}
        _ => panic!("expected Ambiguous"),
    }
    assert_eq!(state.node().id(), 0);
}
