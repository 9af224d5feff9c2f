//! The accessible node data model: one widget or container of the
//! accessibility tree, described by plain values.
//!
//! The external adapter converts its toolkit's tree into `NodeData` records;
//! everything the query engine reads is held here directly.

use vstd::prelude::*;
use crate::event::{Key, SharedEventQueue, click_events, focus_events, hover_events,
    key_combination_events, key_down_events, key_press_events, key_up_events,
    press_keys_events, shared_queue_push_group, simulate_click_events, type_text_events};
use crate::query::Error;

verus! {

/// The widget kind of an accessible node.
///
/// The adapter maps its toolkit's role onto one of these kinds; a kind the
/// library does not distinguish is mapped to `Unknown`.
#[derive(Clone, Copy, Debug, PartialEq, Eq, Structural)]
pub enum Role {
    Unknown,
    Label,
    Button,
    CheckBox,
    RadioButton,
    TextInput,
    MultilineTextInput,
    ComboBox,
    Slider,
    Switch,
    List,
    ListItem,
    Group,
    GenericContainer,
    Window,
    Pane,
    Image,
    Link,
    MenuItem,
    Tab,
    Table,
    Row,
    Cell,
    Document,
    Paragraph,
    ProgressIndicator,
    ScrollBar,
}

/// The tri-state of a toggleable widget.
#[derive(Clone, Copy, Debug, PartialEq, Eq, Structural)]
pub enum Toggled {
    False,
    True,
    Mixed,
}

/// One accessible node, as supplied by the external tree source.
///
/// `id` is stable within one snapshot; `children` and `labelled_by` hold ids
/// of other nodes of the same snapshot; `parent` is `None` only for the
/// root.  `center` is the center of the node's
/// bounding box, already computed by the adapter (coordinate math is the
/// adapter's concern); it is carried opaquely and only handed back inside
/// cursor events.
pub struct NodeData {
    pub id: u64,
    pub role: Role,
    pub label: Option<String>,
    pub value: Option<String>,
    pub focused: bool,
    pub hidden: bool,
    pub disabled: bool,
    pub toggled: Option<Toggled>,
    pub children: Vec<u64>,
    pub parent: Option<u64>,
    pub labelled_by: Vec<u64>,
    pub center: Option<accesskit::Point>,
}

/// The name of a role, as diagnostic descriptions render it.
pub open spec fn role_name(r: Role) -> Seq<char> {
    match r {
        Role::Unknown => "Unknown"@,
        Role::Label => "Label"@,
        Role::Button => "Button"@,
        Role::CheckBox => "CheckBox"@,
        Role::RadioButton => "RadioButton"@,
        Role::TextInput => "TextInput"@,
        Role::MultilineTextInput => "MultilineTextInput"@,
        Role::ComboBox => "ComboBox"@,
        Role::Slider => "Slider"@,
        Role::Switch => "Switch"@,
        Role::List => "List"@,
        Role::ListItem => "ListItem"@,
        Role::Group => "Group"@,
        Role::GenericContainer => "GenericContainer"@,
        Role::Window => "Window"@,
        Role::Pane => "Pane"@,
        Role::Image => "Image"@,
        Role::Link => "Link"@,
        Role::MenuItem => "MenuItem"@,
        Role::Tab => "Tab"@,
        Role::Table => "Table"@,
        Role::Row => "Row"@,
        Role::Cell => "Cell"@,
        Role::Document => "Document"@,
        Role::Paragraph => "Paragraph"@,
        Role::ProgressIndicator => "ProgressIndicator"@,
        Role::ScrollBar => "ScrollBar"@,
    }
}

/// Renders a role's name.
pub fn role_name_str(r: Role) -> (s: &'static str)
    ensures
        s@ == role_name(r),
{
    match r {
        Role::Unknown => "Unknown",
        Role::Label => "Label",
        Role::Button => "Button",
        Role::CheckBox => "CheckBox",
        Role::RadioButton => "RadioButton",
        Role::TextInput => "TextInput",
        Role::MultilineTextInput => "MultilineTextInput",
        Role::ComboBox => "ComboBox",
        Role::Slider => "Slider",
        Role::Switch => "Switch",
        Role::List => "List",
        Role::ListItem => "ListItem",
        Role::Group => "Group",
        Role::GenericContainer => "GenericContainer",
        Role::Window => "Window",
        Role::Pane => "Pane",
        Role::Image => "Image",
        Role::Link => "Link",
        Role::MenuItem => "MenuItem",
        Role::Tab => "Tab",
        Role::Table => "Table",
        Role::Row => "Row",
        Role::Cell => "Cell",
        Role::Document => "Document",
        Role::Paragraph => "Paragraph",
        Role::ProgressIndicator => "ProgressIndicator",
        Role::ScrollBar => "ScrollBar",
    }
}

/// Index of the first node of `nodes` whose id is `id`, if any.
pub open spec fn find_node(nodes: Seq<NodeData>, id: u64) -> Option<int>
    decreases nodes.len(),
{
    if nodes.len() == 0 {
        None
    } else if nodes[0].id == id {
        Some(0int)
    } else {
        match find_node(nodes.drop_first(), id) {
            Some(i) => Some(i + 1),
            None => None,
        }
    }
}

/// What `find_node` returns: the first index holding `id`, or `None` when no
/// node has it.
pub proof fn lemma_find_node(nodes: Seq<NodeData>, id: u64)
    ensures
        match find_node(nodes, id) {
            Some(i) => 0 <= i < nodes.len() && nodes[i].id == id && (forall|k: int|
                0 <= k < i ==> nodes[k].id != id),
            None => forall|k: int| 0 <= k < nodes.len() ==> nodes[k].id != id,
        },
    decreases nodes.len(),
{
    if nodes.len() > 0 && nodes[0].id != id {
        lemma_find_node(nodes.drop_first(), id);
        assert forall|k: int| 1 <= k < nodes.len() implies nodes[k] == nodes.drop_first()[k
            - 1] by {}
    }
}

/// The ordered child ids of the node with id `id`; empty when `id` names no
/// node of the snapshot.
pub open spec fn children_of(nodes: Seq<NodeData>, id: u64) -> Seq<u64> {
    match find_node(nodes, id) {
        Some(i) => nodes[i].children@,
        None => Seq::empty(),
    }
}

/// The ids of the nodes that label the node with id `id`.
pub open spec fn labelled_by_of(nodes: Seq<NodeData>, id: u64) -> Seq<u64> {
    match find_node(nodes, id) {
        Some(i) => nodes[i].labelled_by@,
        None => Seq::empty(),
    }
}

/// Finds the index of the node with id `id` in a snapshot's node list.
pub fn find_node_index(nodes: &Vec<NodeData>, id: u64) -> (r: Option<usize>)
    ensures
        match r {
            Some(i) => i < nodes@.len() && nodes@[i as int].id == id && find_node(nodes@, id)
                == Some(i as int),
            None => find_node(nodes@, id) is None,
        },
{
    proof {
        lemma_find_node(nodes@, id);
    }
    let n = nodes.len();
    for i in 0..n
        invariant
            n == nodes@.len(),
            forall|k: int| 0 <= k < i ==> nodes@[k].id != id,
            match find_node(nodes@, id) {
                Some(j) => 0 <= j < nodes@.len() && nodes@[j].id == id && (forall|k: int|
                    0 <= k < j ==> nodes@[k].id != id),
                None => forall|k: int| 0 <= k < nodes@.len() ==> nodes@[k].id != id,
            },
    {
        if nodes[i].id == id {
            return Some(i);
        }
    }
    None
}

/// The ids of `ids` that name a node of the snapshot, in order.
pub open spec fn existing_ids(nodes: Seq<NodeData>, ids: Seq<u64>) -> Seq<u64>
    decreases ids.len(),
{
    if ids.len() == 0 {
        Seq::empty()
    } else {
        let head = if find_node(nodes, ids[0]) is Some {
            seq![ids[0]]
        } else {
            Seq::<u64>::empty()
        };
        head + existing_ids(nodes, ids.drop_first())
    }
}

/// Keeping the existing ids distributes over concatenation.
proof fn lemma_existing_concat(nodes: Seq<NodeData>, a: Seq<u64>, b: Seq<u64>)
    ensures
        existing_ids(nodes, a + b) == existing_ids(nodes, a) + existing_ids(nodes, b),
    decreases a.len(),
{
    if a.len() == 0 {
        assert(a + b =~= b);
        assert(existing_ids(nodes, a) + existing_ids(nodes, b) =~= existing_ids(nodes, b));
    } else {
        let ab = a + b;
        assert(ab.len() > 0 && ab[0] == a[0]);
        assert(ab.drop_first() =~= a.drop_first() + b);
        lemma_existing_concat(nodes, a.drop_first(), b);
        let head = if find_node(nodes, a[0]) is Some {
            seq![a[0]]
        } else {
            Seq::<u64>::empty()
        };
        assert(head + (existing_ids(nodes, a.drop_first()) + existing_ids(nodes, b)) =~= (head
            + existing_ids(nodes, a.drop_first())) + existing_ids(nodes, b));
    }
}

/// Keeping the existing ids of a single id.
proof fn lemma_existing_single(nodes: Seq<NodeData>, x: u64)
    ensures
        existing_ids(nodes, seq![x]) == (if find_node(nodes, x) is Some {
            seq![x]
        } else {
            Seq::<u64>::empty()
        }),
{
    assert(seq![x].drop_first() =~= Seq::<u64>::empty());
    assert(existing_ids(nodes, Seq::<u64>::empty()) == Seq::<u64>::empty());
    let head = if find_node(nodes, x) is Some {
        seq![x]
    } else {
        Seq::<u64>::empty()
    };
    assert(existing_ids(nodes, seq![x]) == head + Seq::<u64>::empty());
    assert(head + Seq::<u64>::empty() =~= head);
}

/// A read-only handle on one node of a snapshot: the Accessible Node View.
///
/// Handles borrow the snapshot they came from and share one event queue, so
/// any number of them can be held at once; they cannot outlive the
/// snapshot's replacement.
#[derive(Clone, Copy)]
pub struct Node<'t> {
    nodes: &'t Vec<NodeData>,
    index: usize,
    queue: &'t SharedEventQueue,
}

impl<'t> Node<'t> {
    #[verifier::type_invariant]
    spec fn type_inv(self) -> bool {
        self.index < self.nodes@.len()
    }

    /// The snapshot this handle reads.
    pub closed spec fn spec_nodes(self) -> Seq<NodeData> {
        self.nodes@
    }

    /// The position of this node in the snapshot's node list.
    pub closed spec fn spec_index(self) -> int {
        self.index as int
    }

    /// The node's attributes.
    pub open spec fn data(self) -> NodeData {
        self.spec_nodes()[self.spec_index()]
    }

    /// The node's id.
    pub open spec fn spec_id(self) -> u64 {
        self.data().id
    }

    /// Builds a handle on position `index` of the snapshot.
    pub(crate) fn from_index(
        nodes: &'t Vec<NodeData>,
        index: usize,
        queue: &'t SharedEventQueue,
    ) -> (r: Node<'t>)
        requires
            index < nodes@.len(),
        ensures
            r.spec_nodes() == nodes@,
            r.spec_index() == index as int,
    {
        Node { nodes, index, queue }
    }

    /// The node's stable id within this snapshot.
    pub fn id(&self) -> (r: u64)
        ensures
            r == self.spec_id(),
    {
        proof {
            use_type_invariant(self);
        }
        self.nodes[self.index].id
    }

    /// The node's role.
    pub fn role(&self) -> (r: Role)
        ensures
            r == self.data().role,
    {
        proof {
            use_type_invariant(self);
        }
        self.nodes[self.index].role
    }

    /// The node's label, if any.
    pub fn label(&self) -> (r: Option<&'t String>)
        ensures
            match r {
                Some(l) => self.data().label == Some(*l),
                None => self.data().label is None,
            },
    {
        proof {
            use_type_invariant(self);
        }
        match &self.nodes[self.index].label {
            Some(l) => Some(l),
            None => None,
        }
    }

    /// The node's value, if any.
    pub fn value(&self) -> (r: Option<&'t String>)
        ensures
            match r {
                Some(v) => self.data().value == Some(*v),
                None => self.data().value is None,
            },
    {
        proof {
            use_type_invariant(self);
        }
        match &self.nodes[self.index].value {
            Some(v) => Some(v),
            None => None,
        }
    }

    /// Whether the node has keyboard focus.
    pub fn is_focused(&self) -> (r: bool)
        ensures
            r == self.data().focused,
    {
        proof {
            use_type_invariant(self);
        }
        self.nodes[self.index].focused
    }

    /// Whether the node is hidden.
    pub fn is_hidden(&self) -> (r: bool)
        ensures
            r == self.data().hidden,
    {
        proof {
            use_type_invariant(self);
        }
        self.nodes[self.index].hidden
    }

    /// Whether the node is disabled.
    pub fn is_disabled(&self) -> (r: bool)
        ensures
            r == self.data().disabled,
    {
        proof {
            use_type_invariant(self);
        }
        self.nodes[self.index].disabled
    }

    /// The node's toggle state, if it has one.
    pub fn toggled(&self) -> (r: Option<Toggled>)
        ensures
            r == self.data().toggled,
    {
        proof {
            use_type_invariant(self);
        }
        self.nodes[self.index].toggled
    }

    /// The ids of the nodes that caption this node (its "labelled by"
    /// links).
    pub fn labelled_by(&self) -> (r: &'t Vec<u64>)
        ensures
            r@ == self.data().labelled_by@,
    {
        proof {
            use_type_invariant(self);
        }
        &self.nodes[self.index].labelled_by
    }

    /// The parent view; `None` for the root (or when the parent id resolves
    /// to no node of the snapshot).
    pub fn parent(&self) -> (r: Option<Node<'t>>)
        ensures
            match self.data().parent {
                Some(pid) => match find_node(self.spec_nodes(), pid) {
                    Some(i) => r matches Some(p) && p.spec_nodes() == self.spec_nodes()
                        && p.spec_index() == i,
                    None => r is None,
                },
                None => r is None,
            },
    {
        proof {
            use_type_invariant(self);
        }
        match self.nodes[self.index].parent {
            Some(pid) => match find_node_index(self.nodes, pid) {
                Some(i) => Some(Node { nodes: self.nodes, index: i, queue: self.queue }),
                None => None,
            },
            None => None,
        }
    }

    /// The direct child views, in order; a child id that resolves to no
    /// node of the snapshot is skipped.  The sequence is recomputed from
    /// the snapshot on every call.
    pub fn children(&self) -> (r: Vec<Node<'t>>)
        ensures
            r@.len() == existing_ids(self.spec_nodes(), self.data().children@).len(),
            forall|k: int|
                0 <= k < r@.len() ==> (#[trigger] r@[k]).spec_nodes() == self.spec_nodes()
                    && r@[k].spec_id() == existing_ids(self.spec_nodes(), self.data().children@)[k],
    {
        proof {
            use_type_invariant(self);
        }
        let ids = &self.nodes[self.index].children;
        let mut r: Vec<Node<'t>> = Vec::new();
        let n = ids.len();
        for j in 0..n
            invariant
                n == ids@.len(),
                ids@ == self.data().children@,
                self.index < self.nodes@.len(),
                self.spec_nodes() == self.nodes@,
                r@.len() == existing_ids(self.nodes@, ids@.subrange(0, j as int)).len(),
                forall|k: int|
                    0 <= k < r@.len() ==> (#[trigger] r@[k]).spec_nodes() == self.nodes@
                        && r@[k].spec_id() == existing_ids(
                        self.nodes@,
                        ids@.subrange(0, j as int),
                    )[k],
        {
            let x = ids[j];
            proof {
                lemma_find_node(self.nodes@, x);
            }
            match find_node_index(self.nodes, x) {
                Some(i) => {
                    r.push(Node { nodes: self.nodes, index: i, queue: self.queue });
                },
                None => {
                },
            }
            proof {
                let pre = ids@.subrange(0, j as int);
                assert(ids@.subrange(0, j + 1) =~= pre + seq![x]);
                lemma_existing_concat(self.nodes@, pre, seq![x]);
                lemma_existing_single(self.nodes@, x);
            }
        }
        proof {
            assert(ids@.subrange(0, ids@.len() as int) =~= ids@);
        }
        r
    }
}

impl<'t> Node<'t> {
    /// The backing snapshot's node list.
    pub fn snapshot_nodes(&self) -> (r: &'t Vec<NodeData>)
        ensures
            r@ == self.spec_nodes(),
    {
        self.nodes
    }

    /// The shared event queue of the snapshot this handle came from.
    pub(crate) fn shared_queue(&self) -> &'t SharedEventQueue {
        self.queue
    }
}

/// The name of a toggle state, as diagnostic descriptions render it.
pub open spec fn toggled_name(t: Toggled) -> Seq<char> {
    match t {
        Toggled::False => "False"@,
        Toggled::True => "True"@,
        Toggled::Mixed => "Mixed"@,
    }
}

/// Renders a toggle state's name.
pub fn toggled_name_str(t: Toggled) -> (s: &'static str)
    ensures
        s@ == toggled_name(t),
{
    match t {
        Toggled::False => "False",
        Toggled::True => "True",
        Toggled::Mixed => "Mixed",
    }
}

/// The diagnostic rendering of the node with id `id`: its attributes, then
/// its children, rendered recursively while `fuel` lasts (elided as "..."
/// beyond that; `fuel` set to the snapshot's node count covers any
/// self-consistent tree).
pub open spec fn render_node(nodes: Seq<NodeData>, id: u64, fuel: nat) -> Seq<char>
    decreases fuel, 0nat,
{
    match find_node(nodes, id) {
        None => "Node { id: "@ + crate::strings::dec_str(id as nat) + " }"@,
        Some(i) => {
            let n = nodes[i];
            "Node { id: "@ + crate::strings::dec_str(id as nat) + ", role: "@ + role_name(n.role)
                + (match n.label {
                Some(l) => ", label: \""@ + l@ + "\""@,
                None => Seq::<char>::empty(),
            }) + (match n.value {
                Some(v) => ", value: \""@ + v@ + "\""@,
                None => Seq::<char>::empty(),
            }) + ", focused: "@ + crate::strings::bool_str(n.focused) + ", hidden: "@
                + crate::strings::bool_str(n.hidden) + ", disabled: "@ + crate::strings::bool_str(
                n.disabled,
            ) + (match n.toggled {
                Some(t) => ", toggled: "@ + toggled_name(t),
                None => Seq::<char>::empty(),
            }) + ", children: ["@ + (if fuel > 0 {
                render_children(nodes, n.children@, (fuel - 1) as nat)
            } else {
                if n.children@.len() == 0 {
                    Seq::<char>::empty()
                } else {
                    "..."@
                }
            }) + "] }"@
        },
    }
}

/// The renderings of the nodes of `ids`, separated by commas.
pub open spec fn render_children(nodes: Seq<NodeData>, ids: Seq<u64>, fuel: nat) -> Seq<char>
    decreases fuel, ids.len() + 1,
{
    if ids.len() == 0 {
        Seq::empty()
    } else if ids.len() == 1 {
        render_node(nodes, ids[0], fuel)
    } else {
        render_node(nodes, ids[0], fuel) + ", "@ + render_children(nodes, ids.drop_first(), fuel)
    }
}

/// The tail of an id list.
fn tail_ids(v: &Vec<u64>) -> (r: Vec<u64>)
    requires
        v@.len() > 0,
    ensures
        r@ == v@.drop_first(),
{
    let mut r: Vec<u64> = Vec::new();
    let n = v.len();
    for i in 1..n
        invariant
            n == v@.len(),
            r@ == v@.subrange(1, i as int),
    {
        r.push(v[i]);
        proof {
            assert(r@ =~= v@.subrange(1, i + 1));
        }
    }
    proof {
        assert(v@.subrange(1, v@.len() as int) =~= v@.drop_first());
    }
    r
}

/// Renders one node and, while `fuel` lasts, its subtree.
#[verifier::rlimit(60)]
fn render_node_str(nodes: &Vec<NodeData>, id: u64, fuel: usize) -> (r: String)
    ensures
        r@ == render_node(nodes@, id, fuel as nat),
    decreases fuel as nat, 0nat,
{
    match find_node_index(nodes, id) {
        None => {
            let mut r = String::new();
            r.append("Node { id: ");
            let ds = crate::strings::u64_to_string(id);
            r.append(ds.as_str());
            r.append(" }");
            proof {
                assert(r@ =~= render_node(nodes@, id, fuel as nat));
            }
            r
        },
        Some(i) => {
            let n = &nodes[i];
            let mut r = String::new();
            r.append("Node { id: ");
            let ds = crate::strings::u64_to_string(id);
            r.append(ds.as_str());
            r.append(", role: ");
            r.append(role_name_str(n.role));
            let ghost g1 = "Node { id: "@ + crate::strings::dec_str(id as nat) + ", role: "@
                + role_name(n.role);
            proof {
                assert(r@ =~= g1);
            }
            let ghost g2 = g1 + (match &n.label {
                Some(l) => ", label: \""@ + l@ + "\""@,
                None => Seq::<char>::empty(),
            });
            match &n.label {
                Some(l) => {
                    r.append(", label: \"");
                    r.append(l.as_str());
                    r.append("\"");
                },
                None => {
                },
            }
            proof {
                assert(r@ =~= g2);
            }
            let ghost g3 = g2 + (match &n.value {
                Some(v) => ", value: \""@ + v@ + "\""@,
                None => Seq::<char>::empty(),
            });
            match &n.value {
                Some(v) => {
                    r.append(", value: \"");
                    r.append(v.as_str());
                    r.append("\"");
                },
                None => {
                },
            }
            proof {
                assert(r@ =~= g3);
            }
            r.append(", focused: ");
            r.append(crate::strings::bool_to_str(n.focused));
            r.append(", hidden: ");
            r.append(crate::strings::bool_to_str(n.hidden));
            r.append(", disabled: ");
            r.append(crate::strings::bool_to_str(n.disabled));
            let ghost g4 = g3 + ", focused: "@ + crate::strings::bool_str(n.focused)
                + ", hidden: "@ + crate::strings::bool_str(n.hidden) + ", disabled: "@
                + crate::strings::bool_str(n.disabled);
            proof {
                assert(r@ =~= g4);
            }
            let ghost g5 = g4 + (match n.toggled {
                Some(t) => ", toggled: "@ + toggled_name(t),
                None => Seq::<char>::empty(),
            });
            match n.toggled {
                Some(t) => {
                    r.append(", toggled: ");
                    r.append(toggled_name_str(t));
                },
                None => {
                },
            }
            proof {
                assert(r@ =~= g5);
            }
            r.append(", children: [");
            let ghost g6 = g5 + ", children: ["@ + (if fuel as nat > 0 {
                render_children(nodes@, n.children@, (fuel as nat - 1) as nat)
            } else {
                if n.children@.len() == 0 {
                    Seq::<char>::empty()
                } else {
                    "..."@
                }
            });
            if fuel > 0 {
                let cs = render_children_str(nodes, &n.children, fuel - 1);
                r.append(cs.as_str());
            } else {
                if n.children.len() > 0 {
                    r.append("...");
                }
            }
            proof {
                assert(r@ =~= g6);
            }
            r.append("] }");
            proof {
                assert(r@ =~= g6 + "] }"@);
            }
            r
        },
    }
}

/// Renders a list of nodes, separated by commas.
fn render_children_str(nodes: &Vec<NodeData>, ids: &Vec<u64>, fuel: usize) -> (r: String)
    ensures
        r@ == render_children(nodes@, ids@, fuel as nat),
    decreases fuel as nat, ids@.len() + 1,
{
    if ids.len() == 0 {
        let r = String::new();
        proof {
            assert(r@ =~= render_children(nodes@, ids@, fuel as nat));
        }
        r
    } else if ids.len() == 1 {
        render_node_str(nodes, ids[0], fuel)
    } else {
        let mut r = render_node_str(nodes, ids[0], fuel);
        r.append(", ");
        let rest = tail_ids(ids);
        let rs = render_children_str(nodes, &rest, fuel);
        r.append(rs.as_str());
        proof {
            assert(r@ =~= render_children(nodes@, ids@, fuel as nat));
        }
        r
    }
}

/// Renders a node and its subtree for diagnostics, as a single line.
pub fn debug_fmt_node(node: &Node<'_>) -> (r: String)
    ensures
        r@ == render_node(node.spec_nodes(), node.spec_id(), node.spec_nodes().len()),
{
    let nodes = node.snapshot_nodes();
    let id = node.id();
    let fuel = nodes.len();
    render_node_str(nodes, id, fuel)
}


impl<'t> Node<'t> {
    /// Requests focus on this node: enqueues one focus action request.
    pub fn focus(&self) {
        let g = focus_events(self.id());
        shared_queue_push_group(self.queue, g);
    }

    /// Requests the default (activate) action on this node: a semantic
    /// click, enqueued as one action request without pointer simulation.
    pub fn click(&self) {
        let g = click_events(self.id());
        shared_queue_push_group(self.queue, g);
    }

    /// Moves the simulated cursor to the node's bounding-box center, as the
    /// adapter supplied it; `MissingBounds` when the node exposes none.
    pub fn hover(&self) -> (r: Result<(), Error>)
        ensures
            r is Ok <==> self.data().center is Some,
    {
        proof {
            use_type_invariant(self);
        }
        match &self.nodes[self.index].center {
            Some(p) => {
                let g = hover_events(*p);
                shared_queue_push_group(self.queue, g);
                Ok(())
            },
            None => Err(Error::MissingBounds),
        }
    }

    /// Simulates a full click: a pointer-button press followed by its
    /// release, enqueued as one group of exactly those two events in that
    /// order.  Focus is not implied.
    pub fn simulate_click(&self) {
        let g = simulate_click_events();
        shared_queue_push_group(self.queue, g);
    }

    /// Focuses the node, then enqueues one text-insertion event carrying
    /// `text` verbatim, as one group.
    pub fn type_text(&self, text: &str) {
        let g = type_text_events(self.id(), text);
        shared_queue_push_group(self.queue, g);
    }

    /// Focuses the node, then enqueues the press edge of `key`.
    pub fn key_down(&self, key: Key) {
        let g = key_down_events(self.id(), key);
        shared_queue_push_group(self.queue, g);
    }

    /// Focuses the node, then enqueues the release edge of `key`.
    pub fn key_up(&self, key: Key) {
        let g = key_up_events(self.id(), key);
        shared_queue_push_group(self.queue, g);
    }

    /// Focuses the node, then enqueues the press and release edges of
    /// `key`, in that order.
    pub fn key_press(&self, key: Key) {
        let g = key_press_events(self.id(), key);
        shared_queue_push_group(self.queue, g);
    }

    /// Focuses the node, then presses every key of `keys` in order and
    /// releases them in reverse order: a chorded shortcut, enqueued as one
    /// group.
    pub fn key_combination(&self, keys: &Vec<Key>) {
        let g = key_combination_events(self.id(), keys);
        shared_queue_push_group(self.queue, g);
    }

    /// Focuses the node, then taps every key of `keys` in order: each press
    /// edge immediately followed by its own release edge, as one group.
    pub fn press_keys(&self, keys: &Vec<Key>) {
        let g = press_keys_events(self.id(), keys);
        shared_queue_push_group(self.queue, g);
    }
}


/// Whether some node of the snapshot lists `x` as a child.
pub open spec fn is_child_in(nodes: Seq<NodeData>, x: u64) -> bool {
    exists|i: int, k: int|
        0 <= i < nodes.len() && 0 <= k < nodes[i].children@.len() && nodes[i].children@[k] == x
}

/// A self-consistent snapshot with root id `root`, as the external tree
/// source owes it: the root exists, ids are unique, every child id names a
/// node, the root is nobody's child, no node is listed as a child twice,
/// and the parent links mirror the children lists (`None` exactly for the
/// root).
pub open spec fn well_formed(nodes: Seq<NodeData>, root: u64) -> bool {
    &&& find_node(nodes, root) is Some
    &&& (forall|i: int, j: int| 0 <= i < j < nodes.len() ==> nodes[i].id != nodes[j].id)
    &&& (forall|i: int, k: int|
        0 <= i < nodes.len() && 0 <= k < nodes[i].children@.len() ==> find_node(
            nodes,
            #[trigger] nodes[i].children@[k],
        ) is Some)
    &&& (forall|i: int, k: int|
        0 <= i < nodes.len() && 0 <= k < nodes[i].children@.len()
            ==> #[trigger] nodes[i].children@[k] != root)
    &&& (forall|i1: int, k1: int, i2: int, k2: int|
        #![trigger nodes[i1].children@[k1], nodes[i2].children@[k2]]
        0 <= i1 < nodes.len() && 0 <= k1 < nodes[i1].children@.len() && 0 <= i2 < nodes.len()
            && 0 <= k2 < nodes[i2].children@.len() && nodes[i1].children@[k1]
            == nodes[i2].children@[k2] ==> i1 == i2 && k1 == k2)
    &&& (forall|i: int|
        0 <= i < nodes.len() ==> ((#[trigger] nodes[i].parent is None) <==> nodes[i].id == root))
    &&& (forall|i: int|
        0 <= i < nodes.len() ==> match #[trigger] nodes[i].parent {
            Some(p) => exists|j: int, k: int|
                0 <= j < nodes.len() && nodes[j].id == p && 0 <= k < nodes[j].children@.len()
                    && nodes[j].children@[k] == nodes[i].id,
            None => true,
        })
}

/// In a well-formed snapshot the root node carries no parent link, so the
/// root view's `parent()` is `None`.
pub proof fn lemma_root_parent_none(nodes: Seq<NodeData>, root: u64)
    requires
        well_formed(nodes, root),
    ensures
        match find_node(nodes, root) {
            Some(i) => nodes[i].parent is None,
            None => false,
        },
{
    lemma_find_node(nodes, root);
}

} // verus!
