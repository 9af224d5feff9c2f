//! The query engine: depth-first traversal of a snapshot under a filter,
//! the label-deduplication pass, and the four cardinality contracts.

use vstd::prelude::*;
use crate::node::{NodeData, Node, Role, find_node, find_node_index, children_of,
    labelled_by_of, render_node, is_child_in, lemma_find_node};
use crate::filter::{By, ByView, describe_by, label_filter, label_contains_filter,
    matches_data, role_filter, role_label_filter, value_filter};

verus! {

/// Depth-first pre-order listing of the nodes named by `ids` and (while
/// `fuel` lasts) their descendants: each id is listed before its subtree.
///
/// `fuel` bounds the traversal depth; called with the snapshot's node count
/// it covers any self-consistent tree, whose depth cannot exceed its size.
/// An id that names no node of the snapshot is listed with no subtree.
pub open spec fn preorder_from(nodes: Seq<NodeData>, ids: Seq<u64>, fuel: nat) -> Seq<u64>
    decreases fuel, ids.len(),
{
    if ids.len() == 0 {
        Seq::empty()
    } else {
        let sub = if fuel > 0 {
            preorder_from(nodes, children_of(nodes, ids[0]), (fuel - 1) as nat)
        } else {
            Seq::empty()
        };
        seq![ids[0]] + sub + preorder_from(nodes, ids.drop_first(), fuel)
    }
}

/// The strict descendants of `id` in depth-first pre-order.
pub open spec fn descendants_of(nodes: Seq<NodeData>, id: u64, fuel: nat) -> Seq<u64> {
    preorder_from(nodes, children_of(nodes, id), fuel)
}

/// Whether the node with id `id` exists and matches `by`.
pub open spec fn matches_at(nodes: Seq<NodeData>, by: ByView, id: u64) -> bool {
    match find_node(nodes, id) {
        Some(i) => matches_data(by, nodes[i]),
        None => false,
    }
}

/// The ids of `ids` whose nodes match `by`, in order.
pub open spec fn matching_ids(nodes: Seq<NodeData>, by: ByView, ids: Seq<u64>) -> Seq<u64>
    decreases ids.len(),
{
    if ids.len() == 0 {
        Seq::empty()
    } else {
        let head = if matches_at(nodes, by, ids[0]) {
            seq![ids[0]]
        } else {
            Seq::<u64>::empty()
        };
        head + matching_ids(nodes, by, ids.drop_first())
    }
}

/// Every id referenced as a "labelled by" source by a node of `ids`, in
/// order of reference (only membership matters to the exclusion pass).
pub open spec fn label_sources(nodes: Seq<NodeData>, ids: Seq<u64>) -> Seq<u64>
    decreases ids.len(),
{
    if ids.len() == 0 {
        Seq::empty()
    } else {
        labelled_by_of(nodes, ids[0]) + label_sources(nodes, ids.drop_first())
    }
}

/// `ids` with every id occurring in `excl` dropped, order preserved.
pub open spec fn remove_ids(ids: Seq<u64>, excl: Seq<u64>) -> Seq<u64>
    decreases ids.len(),
{
    if ids.len() == 0 {
        Seq::empty()
    } else {
        let head = if excl.contains(ids[0]) {
            Seq::<u64>::empty()
        } else {
            seq![ids[0]]
        };
        head + remove_ids(ids.drop_first(), excl)
    }
}

/// What a query returns: the candidates (all descendants of `root` when
/// `by.recursive`, else its direct children) that match the filter, in
/// traversal order, minus — when a label criterion was given and label nodes
/// were not opted in — every candidate that captions one of the matched
/// nodes.
pub open spec fn query_all_ids(nodes: Seq<NodeData>, root: u64, by: ByView) -> Seq<u64> {
    let cands = if by.recursive {
        descendants_of(nodes, root, nodes.len())
    } else {
        children_of(nodes, root)
    };
    let m = matching_ids(nodes, by, cands);
    if by.should_filter_labels() {
        remove_ids(m, label_sources(nodes, m))
    } else {
        m
    }
}

/// Pre-order traversal distributes over concatenation of the id list.
proof fn lemma_preorder_concat(nodes: Seq<NodeData>, a: Seq<u64>, b: Seq<u64>, fuel: nat)
    ensures
        preorder_from(nodes, a + b, fuel) == preorder_from(nodes, a, fuel) + preorder_from(
            nodes,
            b,
            fuel,
        ),
    decreases a.len(),
{
    if a.len() == 0 {
        assert(a + b =~= b);
        assert(preorder_from(nodes, a, fuel) + preorder_from(nodes, b, fuel) =~= preorder_from(
            nodes,
            b,
            fuel,
        ));
    } else {
        let ab = a + b;
        assert(ab.len() > 0 && ab[0] == a[0]);
        assert(ab.drop_first() =~= a.drop_first() + b);
        lemma_preorder_concat(nodes, a.drop_first(), b, fuel);
        let sub = if fuel > 0 {
            preorder_from(nodes, children_of(nodes, a[0]), (fuel - 1) as nat)
        } else {
            Seq::<u64>::empty()
        };
        assert(preorder_from(nodes, ab, fuel) == seq![a[0]] + sub + (preorder_from(
            nodes,
            a.drop_first(),
            fuel,
        ) + preorder_from(nodes, b, fuel)));
        assert(seq![a[0]] + sub + (preorder_from(nodes, a.drop_first(), fuel) + preorder_from(
            nodes,
            b,
            fuel,
        )) =~= (seq![a[0]] + sub + preorder_from(nodes, a.drop_first(), fuel)) + preorder_from(
            nodes,
            b,
            fuel,
        ));
    }
}

/// The listing of a single id: the id, then its subtree.
proof fn lemma_preorder_single(nodes: Seq<NodeData>, x: u64, fuel: nat)
    ensures
        preorder_from(nodes, seq![x], fuel) == seq![x] + (if fuel > 0 {
            preorder_from(nodes, children_of(nodes, x), (fuel - 1) as nat)
        } else {
            Seq::<u64>::empty()
        }),
{
    let ids = seq![x];
    assert(ids.drop_first() =~= Seq::<u64>::empty());
    let sub = if fuel > 0 {
        preorder_from(nodes, children_of(nodes, x), (fuel - 1) as nat)
    } else {
        Seq::<u64>::empty()
    };
    assert(preorder_from(nodes, Seq::<u64>::empty(), fuel) == Seq::<u64>::empty());
    assert(seq![x] + sub + Seq::<u64>::empty() =~= seq![x] + sub);
}

/// Filtering by the criteria distributes over concatenation.
pub proof fn lemma_matching_concat(nodes: Seq<NodeData>, by: ByView, a: Seq<u64>, b: Seq<u64>)
    ensures
        matching_ids(nodes, by, a + b) == matching_ids(nodes, by, a) + matching_ids(nodes, by, b),
    decreases a.len(),
{
    if a.len() == 0 {
        assert(a + b =~= b);
        assert(matching_ids(nodes, by, a) + matching_ids(nodes, by, b) =~= matching_ids(
            nodes,
            by,
            b,
        ));
    } else {
        let ab = a + b;
        assert(ab.len() > 0 && ab[0] == a[0]);
        assert(ab.drop_first() =~= a.drop_first() + b);
        lemma_matching_concat(nodes, by, a.drop_first(), b);
        let head = if matches_at(nodes, by, a[0]) {
            seq![a[0]]
        } else {
            Seq::<u64>::empty()
        };
        assert(head + (matching_ids(nodes, by, a.drop_first()) + matching_ids(nodes, by, b)) =~= (
        head + matching_ids(nodes, by, a.drop_first())) + matching_ids(nodes, by, b));
    }
}

/// Filtering a single id.
pub proof fn lemma_matching_single(nodes: Seq<NodeData>, by: ByView, x: u64)
    ensures
        matching_ids(nodes, by, seq![x]) == (if matches_at(nodes, by, x) {
            seq![x]
        } else {
            Seq::<u64>::empty()
        }),
{
    assert(seq![x].drop_first() =~= Seq::<u64>::empty());
    assert(matching_ids(nodes, by, Seq::<u64>::empty()) == Seq::<u64>::empty());
    let head = if matches_at(nodes, by, x) {
        seq![x]
    } else {
        Seq::<u64>::empty()
    };
    assert(matching_ids(nodes, by, seq![x]) == head + Seq::<u64>::empty());
    assert(head + Seq::<u64>::empty() =~= head);
}

/// Label-source collection distributes over concatenation.
pub proof fn lemma_label_sources_concat(nodes: Seq<NodeData>, a: Seq<u64>, b: Seq<u64>)
    ensures
        label_sources(nodes, a + b) == label_sources(nodes, a) + label_sources(nodes, b),
    decreases a.len(),
{
    if a.len() == 0 {
        assert(a + b =~= b);
        assert(label_sources(nodes, a) + label_sources(nodes, b) =~= label_sources(nodes, b));
    } else {
        let ab = a + b;
        assert(ab.len() > 0 && ab[0] == a[0]);
        assert(ab.drop_first() =~= a.drop_first() + b);
        lemma_label_sources_concat(nodes, a.drop_first(), b);
        assert(labelled_by_of(nodes, a[0]) + (label_sources(nodes, a.drop_first())
            + label_sources(nodes, b)) =~= (labelled_by_of(nodes, a[0]) + label_sources(
            nodes,
            a.drop_first(),
        )) + label_sources(nodes, b));
    }
}

/// The label sources of a single id.
pub proof fn lemma_label_sources_single(nodes: Seq<NodeData>, x: u64)
    ensures
        label_sources(nodes, seq![x]) == labelled_by_of(nodes, x),
{
    assert(seq![x].drop_first() =~= Seq::<u64>::empty());
    assert(label_sources(nodes, Seq::<u64>::empty()) == Seq::<u64>::empty());
    assert(labelled_by_of(nodes, x) + Seq::<u64>::empty() =~= labelled_by_of(nodes, x));
}

/// Dropping an exclusion set distributes over concatenation.
pub proof fn lemma_remove_concat(a: Seq<u64>, b: Seq<u64>, excl: Seq<u64>)
    ensures
        remove_ids(a + b, excl) == remove_ids(a, excl) + remove_ids(b, excl),
    decreases a.len(),
{
    if a.len() == 0 {
        assert(a + b =~= b);
        assert(remove_ids(a, excl) + remove_ids(b, excl) =~= remove_ids(b, excl));
    } else {
        let ab = a + b;
        assert(ab.len() > 0 && ab[0] == a[0]);
        assert(ab.drop_first() =~= a.drop_first() + b);
        lemma_remove_concat(a.drop_first(), b, excl);
        let head = if excl.contains(a[0]) {
            Seq::<u64>::empty()
        } else {
            seq![a[0]]
        };
        assert(head + (remove_ids(a.drop_first(), excl) + remove_ids(b, excl)) =~= (head
            + remove_ids(a.drop_first(), excl)) + remove_ids(b, excl));
    }
}

/// Dropping an exclusion set from a single id.
pub proof fn lemma_remove_single(x: u64, excl: Seq<u64>)
    ensures
        remove_ids(seq![x], excl) == (if excl.contains(x) {
            Seq::<u64>::empty()
        } else {
            seq![x]
        }),
{
    assert(seq![x].drop_first() =~= Seq::<u64>::empty());
    assert(remove_ids(Seq::<u64>::empty(), excl) == Seq::<u64>::empty());
    let head = if excl.contains(x) {
        Seq::<u64>::empty()
    } else {
        seq![x]
    };
    assert(remove_ids(seq![x], excl) == head + Seq::<u64>::empty());
    assert(head + Seq::<u64>::empty() =~= head);
}

/// Every id kept by the filter pass names a node that matches the filter.
pub proof fn lemma_matching_ids_matches(nodes: Seq<NodeData>, by: ByView, ids: Seq<u64>)
    ensures
        forall|k: int|
            0 <= k < matching_ids(nodes, by, ids).len() ==> matches_at(
                nodes,
                by,
                #[trigger] matching_ids(nodes, by, ids)[k],
            ),
    decreases ids.len(),
{
    if ids.len() > 0 {
        lemma_matching_ids_matches(nodes, by, ids.drop_first());
        let m = matching_ids(nodes, by, ids);
        let rest = matching_ids(nodes, by, ids.drop_first());
        let head = if matches_at(nodes, by, ids[0]) {
            seq![ids[0]]
        } else {
            Seq::<u64>::empty()
        };
        assert forall|k: int| 0 <= k < m.len() implies matches_at(nodes, by, m[k]) by {
            if k < head.len() {
                assert(m[k] == ids[0]);
            } else {
                assert(m[k] == rest[k - head.len()]);
            }
        }
    }
}

/// Everything the exclusion pass keeps was already in the list, and is not
/// in the exclusion set.
pub proof fn lemma_remove_ids_sub(ids: Seq<u64>, excl: Seq<u64>)
    ensures
        forall|k: int|
            0 <= k < remove_ids(ids, excl).len() ==> ids.contains(
                #[trigger] remove_ids(ids, excl)[k],
            ) && !excl.contains(remove_ids(ids, excl)[k]),
    decreases ids.len(),
{
    if ids.len() > 0 {
        lemma_remove_ids_sub(ids.drop_first(), excl);
        let r = remove_ids(ids, excl);
        let rest = remove_ids(ids.drop_first(), excl);
        let head = if excl.contains(ids[0]) {
            Seq::<u64>::empty()
        } else {
            seq![ids[0]]
        };
        assert forall|k: int| 0 <= k < r.len() implies ids.contains(r[k]) && !excl.contains(
            r[k],
        ) by {
            if k < head.len() {
                assert(r[k] == ids[0]);
                assert(ids[0int] == ids[0]);
            } else {
                assert(r[k] == rest[k - head.len()]);
                assert(ids.drop_first().contains(rest[k - head.len()]));
                let j = choose|j: int|
                    0 <= j < ids.drop_first().len() && ids.drop_first()[j] == rest[k
                        - head.len()];
                assert(ids[j + 1] == rest[k - head.len()]);
            }
        }
    }
}

/// Every id a query returns names a node of the snapshot that matches the
/// filter.
pub proof fn lemma_query_all_ids_resolve(nodes: Seq<NodeData>, root: u64, by: ByView)
    ensures
        forall|k: int|
            0 <= k < query_all_ids(nodes, root, by).len() ==> matches_at(
                nodes,
                by,
                #[trigger] query_all_ids(nodes, root, by)[k],
            ),
{
    let cands = if by.recursive {
        descendants_of(nodes, root, nodes.len())
    } else {
        children_of(nodes, root)
    };
    let m = matching_ids(nodes, by, cands);
    lemma_matching_ids_matches(nodes, by, cands);
    if by.should_filter_labels() {
        let excl = label_sources(nodes, m);
        lemma_remove_ids_sub(m, excl);
        let r = query_all_ids(nodes, root, by);
        assert forall|k: int| 0 <= k < r.len() implies matches_at(nodes, by, r[k]) by {
            assert(m.contains(r[k]));
            let j = choose|j: int| 0 <= j < m.len() && m[j] == r[k];
            assert(matches_at(nodes, by, m[j]));
        }
    }
}

/// Copies a list of ids.
fn copy_ids(v: &Vec<u64>) -> (r: Vec<u64>)
    ensures
        r@ == v@,
{
    let mut r: Vec<u64> = Vec::new();
    let n = v.len();
    for i in 0..n
        invariant
            n == v@.len(),
            r@ == v@.subrange(0, i as int),
    {
        r.push(v[i]);
        proof {
            assert(r@ =~= v@.subrange(0, i + 1));
        }
    }
    proof {
        assert(v@.subrange(0, v@.len() as int) =~= v@);
    }
    r
}

/// Whether `v` holds `x`.
fn ids_contain(v: &Vec<u64>, x: u64) -> (r: bool)
    ensures
        r == v@.contains(x),
{
    let n = v.len();
    for i in 0..n
        invariant
            n == v@.len(),
            forall|k: int| 0 <= k < i ==> v@[k] != x,
    {
        if v[i] == x {
            return true;
        }
    }
    false
}

/// The ordered child ids of `id`, or empty when `id` names no node.
fn child_ids(nodes: &Vec<NodeData>, id: u64) -> (r: Vec<u64>)
    ensures
        r@ == children_of(nodes@, id),
{
    match find_node_index(nodes, id) {
        Some(i) => copy_ids(&nodes[i].children),
        None => Vec::new(),
    }
}

/// Collects `ids` and their descendants in depth-first pre-order, `fuel`
/// bounding the depth.
fn collect_preorder(nodes: &Vec<NodeData>, ids: &Vec<u64>, fuel: usize) -> (r: Vec<u64>)
    ensures
        r@ == preorder_from(nodes@, ids@, fuel as nat),
    decreases fuel,
{
    let mut out: Vec<u64> = Vec::new();
    let n = ids.len();
    for j in 0..n
        invariant
            n == ids@.len(),
            out@ == preorder_from(nodes@, ids@.subrange(0, j as int), fuel as nat),
    {
        let x = ids[j];
        out.push(x);
        if fuel > 0 {
            let children = child_ids(nodes, x);
            let mut sub = collect_preorder(nodes, &children, fuel - 1);
            out.append(&mut sub);
        }
        proof {
            let pre = ids@.subrange(0, j as int);
            assert(ids@.subrange(0, j + 1) =~= pre + seq![x]);
            lemma_preorder_concat(nodes@, pre, seq![x], fuel as nat);
            lemma_preorder_single(nodes@, x, fuel as nat);
            let sub_spec = if fuel > 0 {
                preorder_from(nodes@, children_of(nodes@, x), (fuel - 1) as nat)
            } else {
                Seq::<u64>::empty()
            };
            assert(out@ =~= preorder_from(nodes@, pre, fuel as nat) + (seq![x] + sub_spec));
        }
    }
    proof {
        assert(ids@.subrange(0, ids@.len() as int) =~= ids@);
    }
    out
}

/// Retains the ids whose nodes match the filter.
fn collect_matching(nodes: &Vec<NodeData>, by: &By, ids: &Vec<u64>) -> (r: Vec<u64>)
    ensures
        r@ == matching_ids(nodes@, by@, ids@),
{
    let mut out: Vec<u64> = Vec::new();
    let n = ids.len();
    for j in 0..n
        invariant
            n == ids@.len(),
            out@ == matching_ids(nodes@, by@, ids@.subrange(0, j as int)),
    {
        let x = ids[j];
        let matched = match find_node_index(nodes, x) {
            Some(i) => by.matches(&nodes[i]),
            None => false,
        };
        if matched {
            out.push(x);
        }
        proof {
            let pre = ids@.subrange(0, j as int);
            assert(ids@.subrange(0, j + 1) =~= pre + seq![x]);
            lemma_matching_concat(nodes@, by@, pre, seq![x]);
            lemma_matching_single(nodes@, by@, x);
            let head = if matches_at(nodes@, by@, x) {
                seq![x]
            } else {
                Seq::<u64>::empty()
            };
            assert(out@ =~= matching_ids(nodes@, by@, pre) + head);
        }
    }
    proof {
        assert(ids@.subrange(0, ids@.len() as int) =~= ids@);
    }
    out
}

/// Collects every id referenced as a "labelled by" source by a node of
/// `ids`.
fn collect_label_sources(nodes: &Vec<NodeData>, ids: &Vec<u64>) -> (r: Vec<u64>)
    ensures
        r@ == label_sources(nodes@, ids@),
{
    let mut out: Vec<u64> = Vec::new();
    let n = ids.len();
    for j in 0..n
        invariant
            n == ids@.len(),
            out@ == label_sources(nodes@, ids@.subrange(0, j as int)),
    {
        let x = ids[j];
        match find_node_index(nodes, x) {
            Some(i) => {
                let mut lb = copy_ids(&nodes[i].labelled_by);
                out.append(&mut lb);
            },
            None => {
            },
        }
        proof {
            let pre = ids@.subrange(0, j as int);
            assert(ids@.subrange(0, j + 1) =~= pre + seq![x]);
            lemma_label_sources_concat(nodes@, pre, seq![x]);
            lemma_label_sources_single(nodes@, x);
            assert(out@ =~= label_sources(nodes@, pre) + labelled_by_of(nodes@, x));
        }
    }
    proof {
        assert(ids@.subrange(0, ids@.len() as int) =~= ids@);
    }
    out
}

/// The ids the query returns for `root` under `by`; the heart of every
/// query entry point.
pub fn run_query(nodes: &Vec<NodeData>, root: u64, by: &By) -> (r: Vec<u64>)
    ensures
        r@ == query_all_ids(nodes@, root, by@),
{
    let cands: Vec<u64> = if by.recursive {
        let children = child_ids(nodes, root);
        collect_preorder(nodes, &children, nodes.len())
    } else {
        child_ids(nodes, root)
    };
    let matched = collect_matching(nodes, by, &cands);
    if by.should_filter_labels() {
        let sources = collect_label_sources(nodes, &matched);
        let mut out: Vec<u64> = Vec::new();
        let n = matched.len();
        for j in 0..n
            invariant
                n == matched@.len(),
                sources@ == label_sources(nodes@, matched@),
                out@ == remove_ids(matched@.subrange(0, j as int), sources@),
            {
            let x = matched[j];
            if !ids_contain(&sources, x) {
                out.push(x);
            }
            proof {
                let pre = matched@.subrange(0, j as int);
                assert(matched@.subrange(0, j + 1) =~= pre + seq![x]);
                lemma_remove_concat(pre, seq![x], sources@);
                lemma_remove_single(x, sources@);
                let head = if sources@.contains(x) {
                    Seq::<u64>::empty()
                } else {
                    seq![x]
                };
                assert(out@ =~= remove_ids(pre, sources@) + head);
            }
        }
        proof {
            assert(matched@.subrange(0, matched@.len() as int) =~= matched@);
        }
        out
    } else {
        matched
    }
}

/// A failed query or action.  Every variant is raised at the call site that
/// detects it and is meant to abort the current test assertion.
#[derive(Debug)]
pub enum Error {
    /// A required query matched no node.  Carries the filter's criteria and
    /// the searched root, rendered for the test log.
    NotFound { query: String, root: String },
    /// A single-result query matched two or more nodes.  Carries the
    /// filter's criteria and the first two matches, rendered.
    Ambiguous { query: String, first: String, second: String },
    /// A hover-style action needs geometric bounds the node does not
    /// expose.
    MissingBounds,
    /// A state was to be built from a tree update that lacks the expected
    /// root.
    MissingCapability,
}

/// The rendering of an error for a test log.
pub open spec fn error_message(e: Error) -> Seq<char> {
    match e {
        Error::NotFound { query, root } => "no nodes found matching the query "@ + query@
            + " on node "@ + root@,
        Error::Ambiguous { query, first, second } => "found two or more nodes matching the query "@
            + query@ + ": "@ + first@ + " and "@ + second@,
        Error::MissingBounds => "node has no bounds"@,
        Error::MissingCapability => "tree update has no root"@,
    }
}

impl Error {
    /// Renders the error for a test log.
    pub fn message(&self) -> (r: String)
        ensures
            r@ == error_message(*self),
    {
        match self {
            Error::NotFound { query, root } => {
                let mut r = String::new();
                r.append("no nodes found matching the query ");
                r.append(query.as_str());
                r.append(" on node ");
                r.append(root.as_str());
                proof {
                    assert(r@ =~= error_message(*self));
                }
                r
            },
            Error::Ambiguous { query, first, second } => {
                let mut r = String::new();
                r.append("found two or more nodes matching the query ");
                r.append(query.as_str());
                r.append(": ");
                r.append(first.as_str());
                r.append(" and ");
                r.append(second.as_str());
                proof {
                    assert(r@ =~= error_message(*self));
                }
                r
            },
            Error::MissingBounds => String::from_str("node has no bounds"),
            Error::MissingCapability => String::from_str("tree update has no root"),
        }
    }
}

impl<'t> Node<'t> {
    /// Every node of the subtree under this node (or of its direct
    /// children, with `recursive(false)`) that matches the filter, in
    /// depth-first pre-order; label nodes captioning a match are dropped
    /// unless opted in.  Pure: the same snapshot and filter always give the
    /// same sequence.
    pub fn query_all(&self, by: &By) -> (r: Vec<Node<'t>>)
        ensures
            r@.len() == query_all_ids(self.spec_nodes(), self.spec_id(), by@).len(),
            forall|k: int|
                0 <= k < r@.len() ==> (#[trigger] r@[k]).spec_nodes() == self.spec_nodes()
                    && r@[k].spec_id() == query_all_ids(self.spec_nodes(), self.spec_id(), by@)[k],
    {
        let nodes = self.snapshot_nodes();
        let root = self.id();
        let ids = run_query(nodes, root, by);
        proof {
            lemma_query_all_ids_resolve(nodes@, root, by@);
        }
        let mut r: Vec<Node<'t>> = Vec::new();
        let n = ids.len();
        for j in 0..n
            invariant
                n == ids@.len(),
                nodes@ == self.spec_nodes(),
                ids@ == query_all_ids(nodes@, root, by@),
                root == self.spec_id(),
                forall|k: int|
                    0 <= k < ids@.len() ==> matches_at(nodes@, by@, #[trigger] ids@[k]),
                r@.len() == j,
                forall|k: int|
                    0 <= k < j ==> (#[trigger] r@[k]).spec_nodes() == nodes@ && r@[k].spec_id()
                        == ids@[k],
        {
            let x = ids[j];
            let node = match find_node_index(nodes, x) {
                Some(i) => Node::from_index(nodes, i, self.shared_queue()),
                None => vstd::pervasive::unreached(),
            };
            r.push(node);
        }
        r
    }

    /// Like [`Node::query_all`], but `NotFound` when nothing matches; a
    /// successful result is never empty.
    pub fn get_all(&self, by: By) -> (r: Result<Vec<Node<'t>>, Error>)
        ensures
            ({
                let ids = query_all_ids(self.spec_nodes(), self.spec_id(), by@);
                match r {
                    Ok(v) => ids.len() > 0 && v@.len() == ids.len() && (forall|k: int|
                        0 <= k < v@.len() ==> (#[trigger] v@[k]).spec_nodes()
                            == self.spec_nodes() && v@[k].spec_id() == ids[k]),
                    Err(e) => ids.len() == 0 && (e matches Error::NotFound { query, root }
                        && query@ == describe_by(by@) && root@ == render_node(
                        self.spec_nodes(),
                        self.spec_id(),
                        self.spec_nodes().len(),
                    )),
                }
            }),
    {
        let results = self.query_all(&by);
        if results.len() == 0 {
            Err(
                Error::NotFound {
                    query: by.describe(),
                    root: crate::node::debug_fmt_node(self),
                },
            )
        } else {
            Ok(results)
        }
    }

    /// The single node matching the filter: `None` when nothing matches,
    /// `Ambiguous` when two or more nodes match.
    pub fn query(&self, by: By) -> (r: Result<Option<Node<'t>>, Error>)
        ensures
            ({
                let ids = query_all_ids(self.spec_nodes(), self.spec_id(), by@);
                match r {
                    Ok(None) => ids.len() == 0,
                    Ok(Some(n)) => ids.len() == 1 && n.spec_nodes() == self.spec_nodes()
                        && n.spec_id() == ids[0],
                    Err(e) => ids.len() >= 2 && (e matches Error::Ambiguous {
                        query,
                        first,
                        second,
                    } && query@ == describe_by(by@) && first@ == render_node(
                        self.spec_nodes(),
                        ids[0],
                        self.spec_nodes().len(),
                    ) && second@ == render_node(
                        self.spec_nodes(),
                        ids[1],
                        self.spec_nodes().len(),
                    )),
                }
            }),
    {
        let results = self.query_all(&by);
        if results.len() == 0 {
            Ok(None)
        } else if results.len() == 1 {
            Ok(Some(results[0]))
        } else {
            let first = crate::node::debug_fmt_node(&results[0]);
            let second = crate::node::debug_fmt_node(&results[1]);
            Err(Error::Ambiguous { query: by.describe(), first, second })
        }
    }

    /// The single node matching the filter: `NotFound` when nothing
    /// matches, `Ambiguous` when two or more nodes match.
    pub fn get(&self, by: By) -> (r: Result<Node<'t>, Error>)
        ensures
            ({
                let ids = query_all_ids(self.spec_nodes(), self.spec_id(), by@);
                match r {
                    Ok(n) => ids.len() == 1 && n.spec_nodes() == self.spec_nodes()
                        && n.spec_id() == ids[0],
                    Err(e) => match e {
                        Error::NotFound { query, root } => ids.len() == 0 && query@
                            == describe_by(by@) && root@ == render_node(
                            self.spec_nodes(),
                            self.spec_id(),
                            self.spec_nodes().len(),
                        ),
                        Error::Ambiguous { query, first, second } => ids.len() >= 2 && query@
                            == describe_by(by@) && first@ == render_node(
                            self.spec_nodes(),
                            ids[0],
                            self.spec_nodes().len(),
                        ) && second@ == render_node(
                            self.spec_nodes(),
                            ids[1],
                            self.spec_nodes().len(),
                        ),
                        _ => false,
                    },
                }
            }),
    {
        let results = self.query_all(&by);
        if results.len() == 0 {
            Err(
                Error::NotFound {
                    query: by.describe(),
                    root: crate::node::debug_fmt_node(self),
                },
            )
        } else if results.len() == 1 {
            Ok(results[0])
        } else {
            let first = crate::node::debug_fmt_node(&results[0]);
            let second = crate::node::debug_fmt_node(&results[1]);
            Err(Error::Ambiguous { query: by.describe(), first, second })
        }
    }
}

impl<'t> Node<'t> {
    /// Queries every node of the subtree whose label exactly matches `label`; a label node captioning a match is dropped.
    pub fn query_all_by_label(&self, label: &str) -> (r: Vec<Node<'t>>)
        ensures
            ({
                let ids = query_all_ids(self.spec_nodes(), self.spec_id(), label_filter(label@));
                r@.len() == ids.len() && (forall|k: int|
                    0 <= k < r@.len() ==> (#[trigger] r@[k]).spec_nodes() == self.spec_nodes()
                        && r@[k].spec_id() == ids[k])
            }),
    {
        self.query_all(&By::new().label(label))
    }

    /// Like `query_all_by_label`, but `NotFound` when nothing matches.
    pub fn get_all_by_label(&self, label: &str) -> (r: Result<Vec<Node<'t>>, Error>)
        ensures
            ({
                let ids = query_all_ids(self.spec_nodes(), self.spec_id(), label_filter(label@));
                match r {
                    Ok(v) => ids.len() > 0 && v@.len() == ids.len() && (forall|k: int|
                        0 <= k < v@.len() ==> (#[trigger] v@[k]).spec_nodes()
                            == self.spec_nodes() && v@[k].spec_id() == ids[k]),
                    Err(e) => ids.len() == 0 && (e matches Error::NotFound { query, root }
                        && query@ == describe_by(label_filter(label@)) && root@ == render_node(
                        self.spec_nodes(),
                        self.spec_id(),
                        self.spec_nodes().len(),
                    )),
                }
            }),
    {
        self.get_all(By::new().label(label))
    }

    /// The single node of the subtree whose label exactly matches `label`; a label node captioning a match is dropped: `None` when nothing
    /// matches, `Ambiguous` when two or more nodes match.
    pub fn query_by_label(&self, label: &str) -> (r: Result<Option<Node<'t>>, Error>)
        ensures
            ({
                let ids = query_all_ids(self.spec_nodes(), self.spec_id(), label_filter(label@));
                match r {
                    Ok(None) => ids.len() == 0,
                    Ok(Some(n)) => ids.len() == 1 && n.spec_nodes() == self.spec_nodes()
                        && n.spec_id() == ids[0],
                    Err(e) => ids.len() >= 2 && (e matches Error::Ambiguous {
                        query,
                        first,
                        second,
                    } && query@ == describe_by(label_filter(label@)) && first@ == render_node(
                        self.spec_nodes(),
                        ids[0],
                        self.spec_nodes().len(),
                    ) && second@ == render_node(
                        self.spec_nodes(),
                        ids[1],
                        self.spec_nodes().len(),
                    )),
                }
            }),
    {
        self.query(By::new().label(label))
    }

    /// The single node of the subtree whose label exactly matches `label`; a label node captioning a match is dropped: `NotFound` when nothing
    /// matches, `Ambiguous` when two or more nodes match.
    pub fn get_by_label(&self, label: &str) -> (r: Result<Node<'t>, Error>)
        ensures
            ({
                let ids = query_all_ids(self.spec_nodes(), self.spec_id(), label_filter(label@));
                match r {
                    Ok(n) => ids.len() == 1 && n.spec_nodes() == self.spec_nodes()
                        && n.spec_id() == ids[0],
                    Err(e) => match e {
                        Error::NotFound { query, root } => ids.len() == 0 && query@
                            == describe_by(label_filter(label@)) && root@ == render_node(
                            self.spec_nodes(),
                            self.spec_id(),
                            self.spec_nodes().len(),
                        ),
                        Error::Ambiguous { query, first, second } => ids.len() >= 2 && query@
                            == describe_by(label_filter(label@)) && first@ == render_node(
                            self.spec_nodes(),
                            ids[0],
                            self.spec_nodes().len(),
                        ) && second@ == render_node(
                            self.spec_nodes(),
                            ids[1],
                            self.spec_nodes().len(),
                        ),
                        _ => false,
                    },
                }
            }),
    {
        self.get(By::new().label(label))
    }

    /// Queries every node of the subtree whose label contains `label`; a label node captioning a match is dropped.
    pub fn query_all_by_label_contains(&self, label: &str) -> (r: Vec<Node<'t>>)
        ensures
            ({
                let ids = query_all_ids(self.spec_nodes(), self.spec_id(), label_contains_filter(label@));
                r@.len() == ids.len() && (forall|k: int|
                    0 <= k < r@.len() ==> (#[trigger] r@[k]).spec_nodes() == self.spec_nodes()
                        && r@[k].spec_id() == ids[k])
            }),
    {
        self.query_all(&By::new().label_contains(label))
    }

    /// Like `query_all_by_label_contains`, but `NotFound` when nothing matches.
    pub fn get_all_by_label_contains(&self, label: &str) -> (r: Result<Vec<Node<'t>>, Error>)
        ensures
            ({
                let ids = query_all_ids(self.spec_nodes(), self.spec_id(), label_contains_filter(label@));
                match r {
                    Ok(v) => ids.len() > 0 && v@.len() == ids.len() && (forall|k: int|
                        0 <= k < v@.len() ==> (#[trigger] v@[k]).spec_nodes()
                            == self.spec_nodes() && v@[k].spec_id() == ids[k]),
                    Err(e) => ids.len() == 0 && (e matches Error::NotFound { query, root }
                        && query@ == describe_by(label_contains_filter(label@)) && root@ == render_node(
                        self.spec_nodes(),
                        self.spec_id(),
                        self.spec_nodes().len(),
                    )),
                }
            }),
    {
        self.get_all(By::new().label_contains(label))
    }

    /// The single node of the subtree whose label contains `label`; a label node captioning a match is dropped: `None` when nothing
    /// matches, `Ambiguous` when two or more nodes match.
    pub fn query_by_label_contains(&self, label: &str) -> (r: Result<Option<Node<'t>>, Error>)
        ensures
            ({
                let ids = query_all_ids(self.spec_nodes(), self.spec_id(), label_contains_filter(label@));
                match r {
                    Ok(None) => ids.len() == 0,
                    Ok(Some(n)) => ids.len() == 1 && n.spec_nodes() == self.spec_nodes()
                        && n.spec_id() == ids[0],
                    Err(e) => ids.len() >= 2 && (e matches Error::Ambiguous {
                        query,
                        first,
                        second,
                    } && query@ == describe_by(label_contains_filter(label@)) && first@ == render_node(
                        self.spec_nodes(),
                        ids[0],
                        self.spec_nodes().len(),
                    ) && second@ == render_node(
                        self.spec_nodes(),
                        ids[1],
                        self.spec_nodes().len(),
                    )),
                }
            }),
    {
        self.query(By::new().label_contains(label))
    }

    /// The single node of the subtree whose label contains `label`; a label node captioning a match is dropped: `NotFound` when nothing
    /// matches, `Ambiguous` when two or more nodes match.
    pub fn get_by_label_contains(&self, label: &str) -> (r: Result<Node<'t>, Error>)
        ensures
            ({
                let ids = query_all_ids(self.spec_nodes(), self.spec_id(), label_contains_filter(label@));
                match r {
                    Ok(n) => ids.len() == 1 && n.spec_nodes() == self.spec_nodes()
                        && n.spec_id() == ids[0],
                    Err(e) => match e {
                        Error::NotFound { query, root } => ids.len() == 0 && query@
                            == describe_by(label_contains_filter(label@)) && root@ == render_node(
                            self.spec_nodes(),
                            self.spec_id(),
                            self.spec_nodes().len(),
                        ),
                        Error::Ambiguous { query, first, second } => ids.len() >= 2 && query@
                            == describe_by(label_contains_filter(label@)) && first@ == render_node(
                            self.spec_nodes(),
                            ids[0],
                            self.spec_nodes().len(),
                        ) && second@ == render_node(
                            self.spec_nodes(),
                            ids[1],
                            self.spec_nodes().len(),
                        ),
                        _ => false,
                    },
                }
            }),
    {
        self.get(By::new().label_contains(label))
    }

    /// Queries every node of the subtree whose role is `role`.
    pub fn query_all_by_role(&self, role: Role) -> (r: Vec<Node<'t>>)
        ensures
            ({
                let ids = query_all_ids(self.spec_nodes(), self.spec_id(), role_filter(role));
                r@.len() == ids.len() && (forall|k: int|
                    0 <= k < r@.len() ==> (#[trigger] r@[k]).spec_nodes() == self.spec_nodes()
                        && r@[k].spec_id() == ids[k])
            }),
    {
        self.query_all(&By::new().role(role))
    }

    /// Like `query_all_by_role`, but `NotFound` when nothing matches.
    pub fn get_all_by_role(&self, role: Role) -> (r: Result<Vec<Node<'t>>, Error>)
        ensures
            ({
                let ids = query_all_ids(self.spec_nodes(), self.spec_id(), role_filter(role));
                match r {
                    Ok(v) => ids.len() > 0 && v@.len() == ids.len() && (forall|k: int|
                        0 <= k < v@.len() ==> (#[trigger] v@[k]).spec_nodes()
                            == self.spec_nodes() && v@[k].spec_id() == ids[k]),
                    Err(e) => ids.len() == 0 && (e matches Error::NotFound { query, root }
                        && query@ == describe_by(role_filter(role)) && root@ == render_node(
                        self.spec_nodes(),
                        self.spec_id(),
                        self.spec_nodes().len(),
                    )),
                }
            }),
    {
        self.get_all(By::new().role(role))
    }

    /// The single node of the subtree whose role is `role`: `None` when nothing
    /// matches, `Ambiguous` when two or more nodes match.
    pub fn query_by_role(&self, role: Role) -> (r: Result<Option<Node<'t>>, Error>)
        ensures
            ({
                let ids = query_all_ids(self.spec_nodes(), self.spec_id(), role_filter(role));
                match r {
                    Ok(None) => ids.len() == 0,
                    Ok(Some(n)) => ids.len() == 1 && n.spec_nodes() == self.spec_nodes()
                        && n.spec_id() == ids[0],
                    Err(e) => ids.len() >= 2 && (e matches Error::Ambiguous {
                        query,
                        first,
                        second,
                    } && query@ == describe_by(role_filter(role)) && first@ == render_node(
                        self.spec_nodes(),
                        ids[0],
                        self.spec_nodes().len(),
                    ) && second@ == render_node(
                        self.spec_nodes(),
                        ids[1],
                        self.spec_nodes().len(),
                    )),
                }
            }),
    {
        self.query(By::new().role(role))
    }

    /// The single node of the subtree whose role is `role`: `NotFound` when nothing
    /// matches, `Ambiguous` when two or more nodes match.
    pub fn get_by_role(&self, role: Role) -> (r: Result<Node<'t>, Error>)
        ensures
            ({
                let ids = query_all_ids(self.spec_nodes(), self.spec_id(), role_filter(role));
                match r {
                    Ok(n) => ids.len() == 1 && n.spec_nodes() == self.spec_nodes()
                        && n.spec_id() == ids[0],
                    Err(e) => match e {
                        Error::NotFound { query, root } => ids.len() == 0 && query@
                            == describe_by(role_filter(role)) && root@ == render_node(
                            self.spec_nodes(),
                            self.spec_id(),
                            self.spec_nodes().len(),
                        ),
                        Error::Ambiguous { query, first, second } => ids.len() >= 2 && query@
                            == describe_by(role_filter(role)) && first@ == render_node(
                            self.spec_nodes(),
                            ids[0],
                            self.spec_nodes().len(),
                        ) && second@ == render_node(
                            self.spec_nodes(),
                            ids[1],
                            self.spec_nodes().len(),
                        ),
                        _ => false,
                    },
                }
            }),
    {
        self.get(By::new().role(role))
    }

    /// Queries every node of the subtree whose role is `role` and whose label exactly matches `label`.
    pub fn query_all_by_role_and_label(&self, role: Role, label: &str) -> (r: Vec<Node<'t>>)
        ensures
            ({
                let ids = query_all_ids(self.spec_nodes(), self.spec_id(), role_label_filter(role, label@));
                r@.len() == ids.len() && (forall|k: int|
                    0 <= k < r@.len() ==> (#[trigger] r@[k]).spec_nodes() == self.spec_nodes()
                        && r@[k].spec_id() == ids[k])
            }),
    {
        self.query_all(&By::new().role(role).label(label))
    }

    /// Like `query_all_by_role_and_label`, but `NotFound` when nothing matches.
    pub fn get_all_by_role_and_label(&self, role: Role, label: &str) -> (r: Result<Vec<Node<'t>>, Error>)
        ensures
            ({
                let ids = query_all_ids(self.spec_nodes(), self.spec_id(), role_label_filter(role, label@));
                match r {
                    Ok(v) => ids.len() > 0 && v@.len() == ids.len() && (forall|k: int|
                        0 <= k < v@.len() ==> (#[trigger] v@[k]).spec_nodes()
                            == self.spec_nodes() && v@[k].spec_id() == ids[k]),
                    Err(e) => ids.len() == 0 && (e matches Error::NotFound { query, root }
                        && query@ == describe_by(role_label_filter(role, label@)) && root@ == render_node(
                        self.spec_nodes(),
                        self.spec_id(),
                        self.spec_nodes().len(),
                    )),
                }
            }),
    {
        self.get_all(By::new().role(role).label(label))
    }

    /// The single node of the subtree whose role is `role` and whose label exactly matches `label`: `None` when nothing
    /// matches, `Ambiguous` when two or more nodes match.
    pub fn query_by_role_and_label(&self, role: Role, label: &str) -> (r: Result<Option<Node<'t>>, Error>)
        ensures
            ({
                let ids = query_all_ids(self.spec_nodes(), self.spec_id(), role_label_filter(role, label@));
                match r {
                    Ok(None) => ids.len() == 0,
                    Ok(Some(n)) => ids.len() == 1 && n.spec_nodes() == self.spec_nodes()
                        && n.spec_id() == ids[0],
                    Err(e) => ids.len() >= 2 && (e matches Error::Ambiguous {
                        query,
                        first,
                        second,
                    } && query@ == describe_by(role_label_filter(role, label@)) && first@ == render_node(
                        self.spec_nodes(),
                        ids[0],
                        self.spec_nodes().len(),
                    ) && second@ == render_node(
                        self.spec_nodes(),
                        ids[1],
                        self.spec_nodes().len(),
                    )),
                }
            }),
    {
        self.query(By::new().role(role).label(label))
    }

    /// The single node of the subtree whose role is `role` and whose label exactly matches `label`: `NotFound` when nothing
    /// matches, `Ambiguous` when two or more nodes match.
    pub fn get_by_role_and_label(&self, role: Role, label: &str) -> (r: Result<Node<'t>, Error>)
        ensures
            ({
                let ids = query_all_ids(self.spec_nodes(), self.spec_id(), role_label_filter(role, label@));
                match r {
                    Ok(n) => ids.len() == 1 && n.spec_nodes() == self.spec_nodes()
                        && n.spec_id() == ids[0],
                    Err(e) => match e {
                        Error::NotFound { query, root } => ids.len() == 0 && query@
                            == describe_by(role_label_filter(role, label@)) && root@ == render_node(
                            self.spec_nodes(),
                            self.spec_id(),
                            self.spec_nodes().len(),
                        ),
                        Error::Ambiguous { query, first, second } => ids.len() >= 2 && query@
                            == describe_by(role_label_filter(role, label@)) && first@ == render_node(
                            self.spec_nodes(),
                            ids[0],
                            self.spec_nodes().len(),
                        ) && second@ == render_node(
                            self.spec_nodes(),
                            ids[1],
                            self.spec_nodes().len(),
                        ),
                        _ => false,
                    },
                }
            }),
    {
        self.get(By::new().role(role).label(label))
    }

    /// Queries every node of the subtree whose value exactly matches `value`.
    pub fn query_all_by_value(&self, value: &str) -> (r: Vec<Node<'t>>)
        ensures
            ({
                let ids = query_all_ids(self.spec_nodes(), self.spec_id(), value_filter(value@));
                r@.len() == ids.len() && (forall|k: int|
                    0 <= k < r@.len() ==> (#[trigger] r@[k]).spec_nodes() == self.spec_nodes()
                        && r@[k].spec_id() == ids[k])
            }),
    {
        self.query_all(&By::new().value(value))
    }

    /// Like `query_all_by_value`, but `NotFound` when nothing matches.
    pub fn get_all_by_value(&self, value: &str) -> (r: Result<Vec<Node<'t>>, Error>)
        ensures
            ({
                let ids = query_all_ids(self.spec_nodes(), self.spec_id(), value_filter(value@));
                match r {
                    Ok(v) => ids.len() > 0 && v@.len() == ids.len() && (forall|k: int|
                        0 <= k < v@.len() ==> (#[trigger] v@[k]).spec_nodes()
                            == self.spec_nodes() && v@[k].spec_id() == ids[k]),
                    Err(e) => ids.len() == 0 && (e matches Error::NotFound { query, root }
                        && query@ == describe_by(value_filter(value@)) && root@ == render_node(
                        self.spec_nodes(),
                        self.spec_id(),
                        self.spec_nodes().len(),
                    )),
                }
            }),
    {
        self.get_all(By::new().value(value))
    }

    /// The single node of the subtree whose value exactly matches `value`: `None` when nothing
    /// matches, `Ambiguous` when two or more nodes match.
    pub fn query_by_value(&self, value: &str) -> (r: Result<Option<Node<'t>>, Error>)
        ensures
            ({
                let ids = query_all_ids(self.spec_nodes(), self.spec_id(), value_filter(value@));
                match r {
                    Ok(None) => ids.len() == 0,
                    Ok(Some(n)) => ids.len() == 1 && n.spec_nodes() == self.spec_nodes()
                        && n.spec_id() == ids[0],
                    Err(e) => ids.len() >= 2 && (e matches Error::Ambiguous {
                        query,
                        first,
                        second,
                    } && query@ == describe_by(value_filter(value@)) && first@ == render_node(
                        self.spec_nodes(),
                        ids[0],
                        self.spec_nodes().len(),
                    ) && second@ == render_node(
                        self.spec_nodes(),
                        ids[1],
                        self.spec_nodes().len(),
                    )),
                }
            }),
    {
        self.query(By::new().value(value))
    }

    /// The single node of the subtree whose value exactly matches `value`: `NotFound` when nothing
    /// matches, `Ambiguous` when two or more nodes match.
    pub fn get_by_value(&self, value: &str) -> (r: Result<Node<'t>, Error>)
        ensures
            ({
                let ids = query_all_ids(self.spec_nodes(), self.spec_id(), value_filter(value@));
                match r {
                    Ok(n) => ids.len() == 1 && n.spec_nodes() == self.spec_nodes()
                        && n.spec_id() == ids[0],
                    Err(e) => match e {
                        Error::NotFound { query, root } => ids.len() == 0 && query@
                            == describe_by(value_filter(value@)) && root@ == render_node(
                            self.spec_nodes(),
                            self.spec_id(),
                            self.spec_nodes().len(),
                        ),
                        Error::Ambiguous { query, first, second } => ids.len() >= 2 && query@
                            == describe_by(value_filter(value@)) && first@ == render_node(
                            self.spec_nodes(),
                            ids[0],
                            self.spec_nodes().len(),
                        ) && second@ == render_node(
                            self.spec_nodes(),
                            ids[1],
                            self.spec_nodes().len(),
                        ),
                        _ => false,
                    },
                }
            }),
    {
        self.get(By::new().value(value))
    }

}

/// The view of a filter holding only a custom predicate.
pub open spec fn predicate_filter() -> ByView {
    ByView { had_predicate: true, ..ByView::empty() }
}

/// `s` with the positions whose verdict in `bs` is false dropped, order
/// preserved: the shape of a predicate pass over a candidate list.
pub open spec fn mask_filter<A>(s: Seq<A>, bs: Seq<bool>) -> Seq<A>
    decreases s.len(),
{
    if s.len() == 0 || bs.len() == 0 {
        Seq::empty()
    } else {
        let head = if bs[0] {
            seq![s[0]]
        } else {
            Seq::<A>::empty()
        };
        head + mask_filter(s.drop_first(), bs.drop_first())
    }
}

/// Extending a list and its verdicts by one position extends the masked
/// result by that position's verdict.
pub proof fn lemma_mask_filter_snoc<A>(s: Seq<A>, bs: Seq<bool>, x: A, b: bool)
    requires
        s.len() == bs.len(),
    ensures
        mask_filter(s.push(x), bs.push(b)) == mask_filter(s, bs) + (if b {
            seq![x]
        } else {
            Seq::<A>::empty()
        }),
    decreases s.len(),
{
    let tailx = if b {
        seq![x]
    } else {
        Seq::<A>::empty()
    };
    if s.len() == 0 {
        assert(s.push(x)[0] == x && bs.push(b)[0] == b);
        assert(s.push(x).drop_first() =~= Seq::<A>::empty());
        assert(bs.push(b).drop_first() =~= Seq::<bool>::empty());
        assert(mask_filter(Seq::<A>::empty(), Seq::<bool>::empty()) == Seq::<A>::empty());
        assert(s.push(x).len() == 1 && bs.push(b).len() == 1);
        assert(mask_filter(s.push(x), bs.push(b)) == tailx + mask_filter(
            s.push(x).drop_first(),
            bs.push(b).drop_first(),
        ));
        assert(tailx + Seq::<A>::empty() =~= tailx);
        assert(mask_filter(s, bs) + tailx =~= tailx);
    } else {
        assert(s.push(x).drop_first() =~= s.drop_first().push(x));
        assert(bs.push(b).drop_first() =~= bs.drop_first().push(b));
        assert(s.push(x)[0] == s[0] && bs.push(b)[0] == bs[0]);
        lemma_mask_filter_snoc(s.drop_first(), bs.drop_first(), x, b);
        let head = if bs[0] {
            seq![s[0]]
        } else {
            Seq::<A>::empty()
        };
        assert(head + (mask_filter(s.drop_first(), bs.drop_first()) + tailx) =~= (head
            + mask_filter(s.drop_first(), bs.drop_first())) + tailx);
    }
}

/// The candidates a filter retains, before any predicate or
/// label-deduplication pass: the ids of the traversed nodes (descendants in
/// pre-order, or direct children) that satisfy the filter's own criteria.
pub open spec fn matched_candidates<'t>(n: Node<'t>, by: ByView) -> Seq<u64> {
    let nodes = n.spec_nodes();
    let cands = if by.recursive {
        descendants_of(nodes, n.spec_id(), nodes.len())
    } else {
        children_of(nodes, n.spec_id())
    };
    matching_ids(nodes, by, cands)
}

/// One predicate verdict per retained candidate: `mnodes` are the candidate
/// views (in order, one per id of `matched_candidates`) and `bs[i]` is a
/// result the predicate can return for `mnodes[i]` — so the predicate is
/// consulted for every candidate, and only its verdicts decide.
pub open spec fn predicate_verdicts<'t, F: Fn(&Node<'t>) -> bool>(
    n: Node<'t>,
    f: F,
    by: ByView,
    mnodes: Seq<Node<'t>>,
    bs: Seq<bool>,
) -> bool {
    let m = matched_candidates(n, by);
    &&& mnodes.len() == m.len()
    &&& bs.len() == m.len()
    &&& (forall|i: int|
        0 <= i < m.len() ==> (#[trigger] mnodes[i]).spec_nodes() == n.spec_nodes()
            && mnodes[i].spec_id() == m[i])
    &&& (forall|i: int| 0 <= i < m.len() ==> call_ensures(f, (&mnodes[i],), #[trigger] bs[i]))
}

/// What a query with a predicate returns, given the verdicts `bs`: the
/// candidates the predicate approved, minus — when the filter also asks for
/// label deduplication — the caption nodes of those approved.
pub open spec fn predicate_result_ids<'t>(n: Node<'t>, by: ByView, bs: Seq<bool>) -> Seq<u64> {
    let nodes = n.spec_nodes();
    let kept = mask_filter(matched_candidates(n, by), bs);
    if by.should_filter_labels() {
        remove_ids(kept, label_sources(nodes, kept))
    } else {
        kept
    }
}

impl<'t> Node<'t> {
    /// Queries with the filter's criteria and a user-supplied predicate
    /// combined: a candidate must satisfy every criterion of `by` and be
    /// approved by `f`; the label-deduplication pass then applies to the
    /// approved set, as with a stored predicate criterion.
    ///
    /// The predicate is an opaque function, so the contract quantifies over
    /// its verdicts: there is one verdict per retained candidate, each a
    /// possible result of `f` on that candidate's view, and the result is
    /// exactly the candidates approved by those verdicts (minus excluded
    /// caption nodes), in traversal order.
    pub fn query_all_with<F: Fn(&Node<'t>) -> bool>(&self, by: By, f: &F) -> (r: Vec<Node<'t>>)
        requires
            forall|n: Node<'t>| #[trigger] call_requires(*f, (&n,)),
        ensures
            exists|mnodes: Seq<Node<'t>>, bs: Seq<bool>|
                #[trigger] predicate_verdicts(*self, *f, by@, mnodes, bs) && {
                    let out = predicate_result_ids(*self, by@, bs);
                    &&& r@.len() == out.len()
                    &&& (forall|k: int|
                        0 <= k < r@.len() ==> (#[trigger] r@[k]).spec_nodes()
                            == self.spec_nodes() && r@[k].spec_id() == out[k])
                },
    {
        let nodes = self.snapshot_nodes();
        let root = self.id();
        let cands: Vec<u64> = if by.recursive {
            let children = child_ids(nodes, root);
            collect_preorder(nodes, &children, nodes.len())
        } else {
            child_ids(nodes, root)
        };
        let matched_ids = collect_matching(nodes, &by, &cands);
        let ghost m = matched_ids@;
        proof {
            assert(m == matched_candidates(*self, by@));
            lemma_matching_ids_matches(nodes@, by@, cands@);
        }
        let mut mnodes_vec: Vec<Node<'t>> = Vec::new();
        let n_matched = matched_ids.len();
        for j in 0..n_matched
            invariant
                n_matched == m.len(),
                matched_ids@ == m,
                nodes@ == self.spec_nodes(),
                forall|k: int| 0 <= k < m.len() ==> matches_at(nodes@, by@, #[trigger] m[k]),
                mnodes_vec@.len() == j,
                forall|k: int|
                    0 <= k < j ==> (#[trigger] mnodes_vec@[k]).spec_nodes() == nodes@
                        && mnodes_vec@[k].spec_id() == m[k],
        {
            let x = matched_ids[j];
            let node = match find_node_index(nodes, x) {
                Some(i) => Node::from_index(nodes, i, self.shared_queue()),
                None => vstd::pervasive::unreached(),
            };
            mnodes_vec.push(node);
        }
        let mut kept: Vec<Node<'t>> = Vec::new();
        let mut kept_ids: Vec<u64> = Vec::new();
        let ghost mut bs: Seq<bool> = Seq::empty();
        for j in 0..n_matched
            invariant
                n_matched == m.len(),
                nodes@ == self.spec_nodes(),
                mnodes_vec@.len() == m.len(),
                forall|k: int|
                    0 <= k < m.len() ==> (#[trigger] mnodes_vec@[k]).spec_nodes() == nodes@
                        && mnodes_vec@[k].spec_id() == m[k],
                forall|n: Node<'t>| #[trigger] call_requires(*f, (&n,)),
                bs.len() == j,
                forall|i: int|
                    0 <= i < j ==> call_ensures(*f, (&mnodes_vec@[i],), #[trigger] bs[i]),
                kept_ids@ == mask_filter(m.subrange(0, j as int), bs),
                kept@.len() == kept_ids@.len(),
                forall|k: int|
                    0 <= k < kept@.len() ==> (#[trigger] kept@[k]).spec_nodes() == nodes@
                        && kept@[k].spec_id() == kept_ids@[k],
        {
            let node = mnodes_vec[j];
            let b = f(&node);
            proof {
                lemma_mask_filter_snoc(m.subrange(0, j as int), bs, m[j as int], b);
                assert(m.subrange(0, j + 1) =~= m.subrange(0, j as int).push(m[j as int]));
                bs = bs.push(b);
            }
            if b {
                kept.push(node);
                kept_ids.push(node.id());
            }
            proof {
                assert(kept_ids@ =~= mask_filter(m.subrange(0, j + 1), bs));
            }
        }
        proof {
            assert(m.subrange(0, m.len() as int) =~= m);
            assert(predicate_verdicts(*self, *f, by@, mnodes_vec@, bs));
        }
        if by.should_filter_labels() {
            let sources = collect_label_sources(nodes, &kept_ids);
            let mut out: Vec<Node<'t>> = Vec::new();
            let n_kept = kept.len();
            for j in 0..n_kept
                invariant
                    n_kept == kept@.len(),
                    nodes@ == self.spec_nodes(),
                    kept@.len() == kept_ids@.len(),
                    forall|k: int|
                        0 <= k < kept@.len() ==> (#[trigger] kept@[k]).spec_nodes() == nodes@
                            && kept@[k].spec_id() == kept_ids@[k],
                    sources@ == label_sources(nodes@, kept_ids@),
                    out@.len() == remove_ids(kept_ids@.subrange(0, j as int), sources@).len(),
                    forall|k: int|
                        0 <= k < out@.len() ==> (#[trigger] out@[k]).spec_nodes() == nodes@
                            && out@[k].spec_id() == remove_ids(
                            kept_ids@.subrange(0, j as int),
                            sources@,
                        )[k],
            {
                let node = kept[j];
                let x = kept_ids[j];
                if !ids_contain(&sources, x) {
                    out.push(node);
                }
                proof {
                    let pre = kept_ids@.subrange(0, j as int);
                    assert(kept_ids@.subrange(0, j + 1) =~= pre + seq![x]);
                    lemma_remove_concat(pre, seq![x], sources@);
                    lemma_remove_single(x, sources@);
                }
            }
            proof {
                assert(kept_ids@.subrange(0, kept_ids@.len() as int) =~= kept_ids@);
                assert(predicate_result_ids(*self, by@, bs) == remove_ids(
                    kept_ids@,
                    label_sources(nodes@, kept_ids@),
                ));
            }
            out
        } else {
            proof {
                assert(predicate_result_ids(*self, by@, bs) == kept_ids@);
            }
            kept
        }
    }

    /// Queries every node of the subtree the user-supplied predicate
    /// approves, in depth-first pre-order: [`Node::query_all_with`] on the
    /// filter with no further criteria.
    pub fn query_all_by<F: Fn(&Node<'t>) -> bool>(&self, f: &F) -> (r: Vec<Node<'t>>)
        requires
            forall|n: Node<'t>| #[trigger] call_requires(*f, (&n,)),
        ensures
            exists|mnodes: Seq<Node<'t>>, bs: Seq<bool>|
                #[trigger] predicate_verdicts(*self, *f, predicate_filter(), mnodes, bs) && {
                    let out = predicate_result_ids(*self, predicate_filter(), bs);
                    &&& r@.len() == out.len()
                    &&& (forall|k: int|
                        0 <= k < r@.len() ==> (#[trigger] r@[k]).spec_nodes()
                            == self.spec_nodes() && r@[k].spec_id() == out[k])
                },
    {
        let marker = By { had_predicate: true, ..By::new() };
        proof {
            assert(marker@ == predicate_filter());
        }
        self.query_all_with(marker, f)
    }

    /// Like [`Node::query_all_by`], but `NotFound` when the predicate
    /// approves nothing; a successful result is never empty.
    pub fn get_all_by<F: Fn(&Node<'t>) -> bool>(&self, f: &F) -> (r: Result<Vec<Node<'t>>, Error>)
        requires
            forall|n: Node<'t>| #[trigger] call_requires(*f, (&n,)),
        ensures
            exists|mnodes: Seq<Node<'t>>, bs: Seq<bool>|
                #[trigger] predicate_verdicts(*self, *f, predicate_filter(), mnodes, bs) && {
                    let out = predicate_result_ids(*self, predicate_filter(), bs);
                    match r {
                        Ok(v) => out.len() > 0 && v@.len() == out.len() && (forall|k: int|
                            0 <= k < v@.len() ==> (#[trigger] v@[k]).spec_nodes()
                                == self.spec_nodes() && v@[k].spec_id() == out[k]),
                        Err(e) => out.len() == 0 && (e matches Error::NotFound { query, root }
                            && query@ == describe_by(predicate_filter()) && root@ == render_node(
                            self.spec_nodes(),
                            self.spec_id(),
                            self.spec_nodes().len(),
                        )),
                    }
                },
    {
        let results = self.query_all_by(f);
        proof {
            let (mnodes, bs) = choose|mnodes: Seq<Node<'t>>, bs: Seq<bool>|
                #[trigger] predicate_verdicts(*self, *f, predicate_filter(), mnodes, bs) && {
                    let out = predicate_result_ids(*self, predicate_filter(), bs);
                    &&& results@.len() == out.len()
                    &&& (forall|k: int|
                        0 <= k < results@.len() ==> (#[trigger] results@[k]).spec_nodes()
                            == self.spec_nodes() && results@[k].spec_id() == out[k])
                };
        }
        if results.len() == 0 {
            let marker = By { had_predicate: true, ..By::new() };
            Err(
                Error::NotFound {
                    query: marker.describe(),
                    root: crate::node::debug_fmt_node(self),
                },
            )
        } else {
            Ok(results)
        }
    }

    /// The single node the predicate approves: `None` when it approves
    /// nothing, `Ambiguous` when it approves two or more.
    pub fn query_by<F: Fn(&Node<'t>) -> bool>(&self, f: &F) -> (r: Result<
        Option<Node<'t>>,
        Error,
    >)
        requires
            forall|n: Node<'t>| #[trigger] call_requires(*f, (&n,)),
        ensures
            exists|mnodes: Seq<Node<'t>>, bs: Seq<bool>|
                #[trigger] predicate_verdicts(*self, *f, predicate_filter(), mnodes, bs) && {
                    let out = predicate_result_ids(*self, predicate_filter(), bs);
                    match r {
                        Ok(None) => out.len() == 0,
                        Ok(Some(n)) => out.len() == 1 && n.spec_nodes() == self.spec_nodes()
                            && n.spec_id() == out[0],
                        Err(e) => out.len() >= 2 && (e matches Error::Ambiguous {
                            query,
                            first,
                            second,
                        } && query@ == describe_by(predicate_filter()) && first@ == render_node(
                            self.spec_nodes(),
                            out[0],
                            self.spec_nodes().len(),
                        ) && second@ == render_node(
                            self.spec_nodes(),
                            out[1],
                            self.spec_nodes().len(),
                        )),
                    }
                },
    {
        let results = self.query_all_by(f);
        proof {
            let (mnodes, bs) = choose|mnodes: Seq<Node<'t>>, bs: Seq<bool>|
                #[trigger] predicate_verdicts(*self, *f, predicate_filter(), mnodes, bs) && {
                    let out = predicate_result_ids(*self, predicate_filter(), bs);
                    &&& results@.len() == out.len()
                    &&& (forall|k: int|
                        0 <= k < results@.len() ==> (#[trigger] results@[k]).spec_nodes()
                            == self.spec_nodes() && results@[k].spec_id() == out[k])
                };
        }
        if results.len() == 0 {
            Ok(None)
        } else if results.len() == 1 {
            Ok(Some(results[0]))
        } else {
            let marker = By { had_predicate: true, ..By::new() };
            let first = crate::node::debug_fmt_node(&results[0]);
            let second = crate::node::debug_fmt_node(&results[1]);
            Err(Error::Ambiguous { query: marker.describe(), first, second })
        }
    }

    /// The single node the predicate approves: `NotFound` when it approves
    /// nothing, `Ambiguous` when it approves two or more.
    pub fn get_by<F: Fn(&Node<'t>) -> bool>(&self, f: &F) -> (r: Result<Node<'t>, Error>)
        requires
            forall|n: Node<'t>| #[trigger] call_requires(*f, (&n,)),
        ensures
            exists|mnodes: Seq<Node<'t>>, bs: Seq<bool>|
                #[trigger] predicate_verdicts(*self, *f, predicate_filter(), mnodes, bs) && {
                    let out = predicate_result_ids(*self, predicate_filter(), bs);
                    match r {
                        Ok(n) => out.len() == 1 && n.spec_nodes() == self.spec_nodes()
                            && n.spec_id() == out[0],
                        Err(e) => match e {
                            Error::NotFound { query, root } => out.len() == 0 && query@
                                == describe_by(predicate_filter()) && root@ == render_node(
                                self.spec_nodes(),
                                self.spec_id(),
                                self.spec_nodes().len(),
                            ),
                            Error::Ambiguous { query, first, second } => out.len() >= 2 && query@
                                == describe_by(predicate_filter()) && first@ == render_node(
                                self.spec_nodes(),
                                out[0],
                                self.spec_nodes().len(),
                            ) && second@ == render_node(
                                self.spec_nodes(),
                                out[1],
                                self.spec_nodes().len(),
                            ),
                            _ => false,
                        },
                    }
                },
    {
        let results = self.query_all_by(f);
        proof {
            let (mnodes, bs) = choose|mnodes: Seq<Node<'t>>, bs: Seq<bool>|
                #[trigger] predicate_verdicts(*self, *f, predicate_filter(), mnodes, bs) && {
                    let out = predicate_result_ids(*self, predicate_filter(), bs);
                    &&& results@.len() == out.len()
                    &&& (forall|k: int|
                        0 <= k < results@.len() ==> (#[trigger] results@[k]).spec_nodes()
                            == self.spec_nodes() && results@[k].spec_id() == out[k])
                };
        }
        if results.len() == 0 {
            let marker = By { had_predicate: true, ..By::new() };
            Err(
                Error::NotFound {
                    query: marker.describe(),
                    root: crate::node::debug_fmt_node(self),
                },
            )
        } else if results.len() == 1 {
            Ok(results[0])
        } else {
            let marker = By { had_predicate: true, ..By::new() };
            let first = crate::node::debug_fmt_node(&results[0]);
            let second = crate::node::debug_fmt_node(&results[1]);
            Err(Error::Ambiguous { query: marker.describe(), first, second })
        }
    }
}


/// Queries are order-stable and idempotent: the result is a function of the
/// snapshot, the root and the filter alone, so two runs without a snapshot
/// change yield identical sequences, element for element.
pub proof fn lemma_query_all_stable(
    nodes: Seq<NodeData>,
    root: u64,
    by: ByView,
    r1: Seq<u64>,
    r2: Seq<u64>,
)
    requires
        r1 == query_all_ids(nodes, root, by),
        r2 == query_all_ids(nodes, root, by),
    ensures
        r1 == r2,
{
}

/// Two filters with the same matching criteria retain the same candidates:
/// `include_labels`, `had_predicate` and `recursive` play no part in
/// per-node matching.
pub proof fn lemma_matching_ids_criteria(
    nodes: Seq<NodeData>,
    by1: ByView,
    by2: ByView,
    ids: Seq<u64>,
)
    requires
        by1.label == by2.label,
        by1.label_contains == by2.label_contains,
        by1.role == by2.role,
        by1.value == by2.value,
    ensures
        matching_ids(nodes, by1, ids) == matching_ids(nodes, by2, ids),
    decreases ids.len(),
{
    if ids.len() > 0 {
        lemma_matching_ids_criteria(nodes, by1, by2, ids.drop_first());
        assert(matches_at(nodes, by1, ids[0]) == matches_at(nodes, by2, ids[0]));
    }
}

/// An id that a member of `ids` references as its labelling node is a label
/// source of `ids`.
pub proof fn lemma_label_sources_member(nodes: Seq<NodeData>, ids: Seq<u64>, a: u64, b: u64)
    requires
        ids.contains(a),
        labelled_by_of(nodes, a).contains(b),
    ensures
        label_sources(nodes, ids).contains(b),
    decreases ids.len(),
{
    if ids.len() > 0 {
        if ids[0] == a {
            let j = choose|j: int|
                0 <= j < labelled_by_of(nodes, a).len() && labelled_by_of(nodes, a)[j] == b;
            assert(label_sources(nodes, ids)[j] == b);
        } else {
            let j = choose|j: int| 0 <= j < ids.len() && ids[j] == a;
            assert(ids.drop_first()[j - 1] == a);
            lemma_label_sources_member(nodes, ids.drop_first(), a, b);
            let rest = label_sources(nodes, ids.drop_first());
            let k = choose|k: int| 0 <= k < rest.len() && rest[k] == b;
            assert(label_sources(nodes, ids)[labelled_by_of(nodes, ids[0]).len() + k] == b);
        }
    }
}

/// An id of the list that the exclusion set does not name survives the
/// exclusion pass.
pub proof fn lemma_remove_ids_keeps(ids: Seq<u64>, excl: Seq<u64>, x: u64)
    requires
        ids.contains(x),
        !excl.contains(x),
    ensures
        remove_ids(ids, excl).contains(x),
    decreases ids.len(),
{
    if ids.len() > 0 {
        if ids[0] == x {
            assert(remove_ids(ids, excl)[0] == x);
        } else {
            let j = choose|j: int| 0 <= j < ids.len() && ids[j] == x;
            assert(ids.drop_first()[j - 1] == x);
            lemma_remove_ids_keeps(ids.drop_first(), excl, x);
            let rest = remove_ids(ids.drop_first(), excl);
            let head = if excl.contains(ids[0]) {
                Seq::<u64>::empty()
            } else {
                seq![ids[0]]
            };
            let k = choose|k: int| 0 <= k < rest.len() && rest[k] == x;
            assert(remove_ids(ids, excl)[head.len() + k] == x);
        }
    }
}

/// An id the exclusion set names never survives the exclusion pass.
pub proof fn lemma_remove_ids_drops(ids: Seq<u64>, excl: Seq<u64>, x: u64)
    requires
        excl.contains(x),
    ensures
        !remove_ids(ids, excl).contains(x),
{
    lemma_remove_ids_sub(ids, excl);
    let r = remove_ids(ids, excl);
    assert forall|k: int| 0 <= k < r.len() implies r[k] != x by {
        assert(!excl.contains(r[k]));
    }
}

/// Label-exclusion: when a label criterion is set and label nodes are not
/// opted in, a matched node `a` that is captioned by matched node `b` (and
/// that captions no matched node itself) is returned while `b` is dropped;
/// opting label nodes in with `include_labels` returns both.
pub proof fn lemma_label_exclusion(nodes: Seq<NodeData>, root: u64, by: ByView, a: u64, b: u64)
    requires
        by.should_filter_labels(),
        ({
            let cands = if by.recursive {
                descendants_of(nodes, root, nodes.len())
            } else {
                children_of(nodes, root)
            };
            let m = matching_ids(nodes, by, cands);
            &&& m.contains(a)
            &&& m.contains(b)
            &&& labelled_by_of(nodes, a).contains(b)
            &&& !label_sources(nodes, m).contains(a)
        }),
    ensures
        query_all_ids(nodes, root, by).contains(a),
        !query_all_ids(nodes, root, by).contains(b),
        query_all_ids(nodes, root, ByView { include_labels: true, ..by }).contains(a),
        query_all_ids(nodes, root, ByView { include_labels: true, ..by }).contains(b),
{
    let cands = if by.recursive {
        descendants_of(nodes, root, nodes.len())
    } else {
        children_of(nodes, root)
    };
    let m = matching_ids(nodes, by, cands);
    let excl = label_sources(nodes, m);
    lemma_label_sources_member(nodes, m, a, b);
    lemma_remove_ids_keeps(m, excl, a);
    lemma_remove_ids_drops(m, excl, b);
    let by2 = ByView { include_labels: true, ..by };
    assert(!by2.should_filter_labels());
    lemma_matching_ids_criteria(nodes, by, by2, cands);
    assert(query_all_ids(nodes, root, by2) == m);
}


/// Everything the filter pass keeps was in the candidate list.
pub proof fn lemma_matching_ids_in_candidates(nodes: Seq<NodeData>, by: ByView, ids: Seq<u64>)
    ensures
        forall|k: int|
            0 <= k < matching_ids(nodes, by, ids).len() ==> ids.contains(
                #[trigger] matching_ids(nodes, by, ids)[k],
            ),
    decreases ids.len(),
{
    if ids.len() > 0 {
        lemma_matching_ids_in_candidates(nodes, by, ids.drop_first());
        let m = matching_ids(nodes, by, ids);
        let rest = matching_ids(nodes, by, ids.drop_first());
        let head = if matches_at(nodes, by, ids[0]) {
            seq![ids[0]]
        } else {
            Seq::<u64>::empty()
        };
        assert forall|k: int| 0 <= k < m.len() implies ids.contains(m[k]) by {
            if k < head.len() {
                assert(m[k] == ids[0]);
                assert(ids[0int] == ids[0]);
            } else {
                assert(m[k] == rest[k - head.len()]);
                let j = choose|j: int|
                    0 <= j < ids.drop_first().len() && ids.drop_first()[j] == rest[k
                        - head.len()];
                assert(ids[j + 1] == rest[k - head.len()]);
            }
        }
    }
}

/// A candidate that matches the filter is kept by the filter pass.
pub proof fn lemma_matching_ids_keeps(nodes: Seq<NodeData>, by: ByView, ids: Seq<u64>, x: u64)
    requires
        ids.contains(x),
        matches_at(nodes, by, x),
    ensures
        matching_ids(nodes, by, ids).contains(x),
    decreases ids.len(),
{
    if ids.len() > 0 {
        let head = if matches_at(nodes, by, ids[0]) {
            seq![ids[0]]
        } else {
            Seq::<u64>::empty()
        };
        if ids[0] == x {
            assert(matching_ids(nodes, by, ids)[0] == x);
        } else {
            let j = choose|j: int| 0 <= j < ids.len() && ids[j] == x;
            assert(ids.drop_first()[j - 1] == x);
            lemma_matching_ids_keeps(nodes, by, ids.drop_first(), x);
            let rest = matching_ids(nodes, by, ids.drop_first());
            let k = choose|k: int| 0 <= k < rest.len() && rest[k] == x;
            assert(matching_ids(nodes, by, ids)[head.len() + k] == x);
        }
    }
}

/// A non-recursive query reaches only the direct children of the root: an
/// id that is not one of them is never returned, wherever else it sits in
/// the tree.
pub proof fn lemma_non_recursive_scope(nodes: Seq<NodeData>, root: u64, by: ByView, x: u64)
    requires
        !by.recursive,
        !children_of(nodes, root).contains(x),
    ensures
        !query_all_ids(nodes, root, by).contains(x),
{
    let cands = children_of(nodes, root);
    let m = matching_ids(nodes, by, cands);
    lemma_matching_ids_in_candidates(nodes, by, cands);
    assert forall|k: int| 0 <= k < m.len() implies m[k] != x by {
        assert(cands.contains(m[k]));
    }
    if by.should_filter_labels() {
        let excl = label_sources(nodes, m);
        lemma_remove_ids_sub(m, excl);
        let r = remove_ids(m, excl);
        assert forall|k: int| 0 <= k < r.len() implies r[k] != x by {
            assert(m.contains(r[k]));
            let j = choose|j: int| 0 <= j < m.len() && m[j] == r[k];
        }
    }
}

/// A recursive query reaches the whole subtree: a descendant of the root
/// that matches the filter is returned (here for queries without the
/// label-deduplication pass, which can additionally drop caption nodes).
pub proof fn lemma_recursive_finds(nodes: Seq<NodeData>, root: u64, by: ByView, x: u64)
    requires
        by.recursive,
        !by.should_filter_labels(),
        descendants_of(nodes, root, nodes.len()).contains(x),
        matches_at(nodes, by, x),
    ensures
        query_all_ids(nodes, root, by).contains(x),
{
    let cands = descendants_of(nodes, root, nodes.len());
    lemma_matching_ids_keeps(nodes, by, cands, x);
}

/// Every id the pre-order traversal lists is either one of the starting
/// ids or is listed as a child by some node of the snapshot.
proof fn lemma_preorder_members(nodes: Seq<NodeData>, ids: Seq<u64>, fuel: nat)
    ensures
        forall|t: int|
            0 <= t < preorder_from(nodes, ids, fuel).len() ==> ids.contains(
                #[trigger] preorder_from(nodes, ids, fuel)[t],
            ) || is_child_in(nodes, preorder_from(nodes, ids, fuel)[t]),
    decreases fuel, ids.len(),
{
    if ids.len() > 0 {
        let p = preorder_from(nodes, ids, fuel);
        let sub = if fuel > 0 {
            preorder_from(nodes, children_of(nodes, ids[0]), (fuel - 1) as nat)
        } else {
            Seq::<u64>::empty()
        };
        let rest = preorder_from(nodes, ids.drop_first(), fuel);
        if fuel > 0 {
            lemma_preorder_members(nodes, children_of(nodes, ids[0]), (fuel - 1) as nat);
        }
        lemma_preorder_members(nodes, ids.drop_first(), fuel);
        lemma_find_node(nodes, ids[0]);
        assert forall|t: int| 0 <= t < p.len() implies ids.contains(p[t]) || is_child_in(
            nodes,
            p[t],
        ) by {
            if t == 0 {
                assert(p[0] == ids[0] && ids[0int] == ids[0]);
            } else if t < 1 + sub.len() {
                let u = t - 1;
                assert(p[t] == sub[u]);
                if children_of(nodes, ids[0]).contains(sub[u]) {
                    let i = find_node(nodes, ids[0])->0;
                    let k = choose|k: int|
                        0 <= k < children_of(nodes, ids[0]).len() && children_of(nodes, ids[0])[k]
                            == sub[u];
                    assert(nodes[i].children@[k] == sub[u]);
                }
            } else {
                let u = t - 1 - sub.len();
                assert(p[t] == rest[u]);
                if ids.drop_first().contains(rest[u]) {
                    let j = choose|j: int|
                        0 <= j < ids.drop_first().len() && ids.drop_first()[j] == rest[u];
                    assert(ids[j + 1] == rest[u]);
                }
            }
        }
    }
}

/// In a well-formed snapshot the root is nobody's child, so no query ever
/// returns it: the traversal lists only children (or, non-recursively, the
/// root's own children), and both later passes only drop ids.
pub proof fn lemma_root_not_returned(nodes: Seq<NodeData>, root: u64, by: ByView)
    requires
        crate::node::well_formed(nodes, root),
    ensures
        !query_all_ids(nodes, root, by).contains(root),
{
    let cands = if by.recursive {
        descendants_of(nodes, root, nodes.len())
    } else {
        children_of(nodes, root)
    };
    lemma_find_node(nodes, root);
    assert forall|t: int| 0 <= t < cands.len() implies cands[t] != root by {
        if by.recursive {
            lemma_preorder_members(nodes, children_of(nodes, root), nodes.len());
            if children_of(nodes, root).contains(cands[t]) {
                let i = find_node(nodes, root)->0;
                let k = choose|k: int|
                    0 <= k < children_of(nodes, root).len() && children_of(nodes, root)[k]
                        == cands[t];
                assert(nodes[i].children@[k] == cands[t]);
            }
        } else {
            let i = find_node(nodes, root)->0;
            assert(nodes[i].children@[t] == cands[t]);
        }
    }
    let m = matching_ids(nodes, by, cands);
    lemma_matching_ids_in_candidates(nodes, by, cands);
    assert forall|t: int| 0 <= t < m.len() implies m[t] != root by {
        assert(cands.contains(m[t]));
        let j = choose|j: int| 0 <= j < cands.len() && cands[j] == m[t];
    }
    if by.should_filter_labels() {
        let excl = label_sources(nodes, m);
        lemma_remove_ids_sub(m, excl);
        let r = remove_ids(m, excl);
        assert forall|t: int| 0 <= t < r.len() implies r[t] != root by {
            assert(m.contains(r[t]));
            let j = choose|j: int| 0 <= j < m.len() && m[j] == r[t];
        }
    }
}

/// `a` occurs inside `b` in order: `a` can be had from `b` by deleting
/// elements, keeping the rest in place.
pub open spec fn is_subsequence<A>(a: Seq<A>, b: Seq<A>) -> bool
    decreases a.len(), b.len(),
{
    if a.len() == 0 {
        true
    } else if b.len() == 0 {
        false
    } else {
        (a[0] == b[0] && is_subsequence(a.drop_first(), b.drop_first())) || is_subsequence(
            a,
            b.drop_first(),
        )
    }
}

/// The filter pass keeps a subsequence of the candidate order.
pub proof fn lemma_matching_subsequence(nodes: Seq<NodeData>, by: ByView, ids: Seq<u64>)
    ensures
        is_subsequence(matching_ids(nodes, by, ids), ids),
    decreases ids.len(),
{
    if ids.len() > 0 {
        lemma_matching_subsequence(nodes, by, ids.drop_first());
        let m = matching_ids(nodes, by, ids);
        if matches_at(nodes, by, ids[0]) {
            assert(m[0] == ids[0]);
            assert(m.drop_first() =~= matching_ids(nodes, by, ids.drop_first()));
        } else {
            assert(m =~= matching_ids(nodes, by, ids.drop_first()));
        }
    }
}

/// The exclusion pass keeps a subsequence of its input order.
pub proof fn lemma_remove_subsequence(ids: Seq<u64>, excl: Seq<u64>)
    ensures
        is_subsequence(remove_ids(ids, excl), ids),
    decreases ids.len(),
{
    if ids.len() > 0 {
        lemma_remove_subsequence(ids.drop_first(), excl);
        let r = remove_ids(ids, excl);
        if !excl.contains(ids[0]) {
            assert(r[0] == ids[0]);
            assert(r.drop_first() =~= remove_ids(ids.drop_first(), excl));
        } else {
            assert(r =~= remove_ids(ids.drop_first(), excl));
        }
    }
}

/// Being a subsequence is transitive.
pub proof fn lemma_subsequence_trans<A>(a: Seq<A>, b: Seq<A>, c: Seq<A>)
    requires
        is_subsequence(a, b),
        is_subsequence(b, c),
    ensures
        is_subsequence(a, c),
    decreases b.len() + c.len(),
{
    if a.len() == 0 {
    } else if b.len() == 0 {
        assert(false);
    } else if c.len() == 0 {
        assert(false);
    } else {
        if b[0] == c[0] && is_subsequence(b.drop_first(), c.drop_first()) {
            if a[0] == b[0] && is_subsequence(a.drop_first(), b.drop_first()) {
                lemma_subsequence_trans(a.drop_first(), b.drop_first(), c.drop_first());
            } else {
                assert(is_subsequence(a, b.drop_first()));
                lemma_subsequence_trans(a, b.drop_first(), c.drop_first());
            }
        } else {
            assert(is_subsequence(b, c.drop_first()));
            lemma_subsequence_trans(a, b, c.drop_first());
        }
    }
}

/// Order stability: what a query returns is a subsequence of the traversal
/// order — depth-first pre-order of the descendants when recursive, the
/// direct-child order otherwise — so iterating it forwards or backwards
/// iterates that same order.
pub proof fn lemma_query_all_subsequence(nodes: Seq<NodeData>, root: u64, by: ByView)
    ensures
        is_subsequence(
            query_all_ids(nodes, root, by),
            if by.recursive {
                descendants_of(nodes, root, nodes.len())
            } else {
                children_of(nodes, root)
            },
        ),
{
    let cands = if by.recursive {
        descendants_of(nodes, root, nodes.len())
    } else {
        children_of(nodes, root)
    };
    let m = matching_ids(nodes, by, cands);
    lemma_matching_subsequence(nodes, by, cands);
    if by.should_filter_labels() {
        lemma_remove_subsequence(m, label_sources(nodes, m));
        lemma_subsequence_trans(remove_ids(m, label_sources(nodes, m)), m, cands);
    }
}

/// No id occurs twice.
pub open spec fn no_dup(s: Seq<u64>) -> bool {
    forall|i: int, j: int| 0 <= i < j < s.len() ==> s[i] != s[j]
}

/// The id `k` parent-steps above `x`, when every step exists.
pub open spec fn ancestor(nodes: Seq<NodeData>, x: u64, k: nat) -> Option<u64>
    decreases k,
{
    if k == 0 {
        Some(x)
    } else {
        match find_node(nodes, x) {
            Some(i) => match nodes[i].parent {
                Some(p) => ancestor(nodes, p, (k - 1) as nat),
                None => None,
            },
            None => None,
        }
    }
}

/// Whether the parent walk from `x` reaches the root.
pub open spec fn root_connected(nodes: Seq<NodeData>, root: u64, x: u64) -> bool {
    exists|d: nat| #[trigger] ancestor(nodes, x, d) == Some(root)
}

/// Whether the parent walk from `x` reaches one of `ids`.
pub open spec fn rooted_in(nodes: Seq<NodeData>, ids: Seq<u64>, x: u64) -> bool {
    exists|i: int, k: nat|
        #![trigger ancestor(nodes, x, k), ids[i]]
        0 <= i < ids.len() && ancestor(nodes, x, k) == Some(ids[i])
}

/// Walking `m + n` steps is walking `m`, then `n`.
proof fn lemma_ancestor_compose(nodes: Seq<NodeData>, x: u64, m: nat, n: nat)
    ensures
        ancestor(nodes, x, m + n) == (match ancestor(nodes, x, m) {
            Some(y) => ancestor(nodes, y, n),
            None => None,
        }),
    decreases m,
{
    if m == 0 {
    } else {
        match find_node(nodes, x) {
            Some(i) => {
                match nodes[i].parent {
                    Some(p) => {
                        lemma_ancestor_compose(nodes, p, (m - 1) as nat, n);
                        assert(m + n > 0);
                        assert(ancestor(nodes, x, m + n) == ancestor(
                            nodes,
                            p,
                            (m + n - 1) as nat,
                        ));
                        assert((m - 1) as nat + n == (m + n - 1) as nat);
                    },
                    None => {
                        assert(ancestor(nodes, x, m) is None);
                        assert(ancestor(nodes, x, m + n) is None);
                    },
                }
            },
            None => {
                assert(ancestor(nodes, x, m) is None);
                assert(ancestor(nodes, x, m + n) is None);
            },
        }
    }
}

/// The root's parent walk ends at once: it carries no parent link.
proof fn lemma_root_walk_ends(nodes: Seq<NodeData>, root: u64, j: nat)
    requires
        crate::node::well_formed(nodes, root),
        j >= 1,
    ensures
        ancestor(nodes, root, j) is None,
{
    lemma_find_node(nodes, root);
    let i = find_node(nodes, root)->0;
    assert(nodes[i].parent is None);
}

/// In a well-formed snapshot a root-connected id is never its own proper
/// ancestor: the parent walk cannot cycle.
proof fn lemma_no_parent_cycle(nodes: Seq<NodeData>, root: u64, x: u64, k: nat)
    requires
        crate::node::well_formed(nodes, root),
        root_connected(nodes, root, x),
        k >= 1,
    ensures
        ancestor(nodes, x, k) != Some(x),
{
    if ancestor(nodes, x, k) == Some(x) {
        let d = choose|d: nat| #[trigger] ancestor(nodes, x, d) == Some(root);
        lemma_ancestor_compose(nodes, x, k, d);
        assert(ancestor(nodes, x, k + d) == Some(root));
        lemma_ancestor_compose(nodes, x, d, k);
        lemma_root_walk_ends(nodes, root, k);
        assert(ancestor(nodes, x, d + k) is None);
        assert(k + d == d + k);
        assert(false);
    }
}

/// In a well-formed snapshot a child's one parent-step lands on the very
/// node that lists it: the parent links mirror the children lists.
proof fn lemma_link_parent(nodes: Seq<NodeData>, root: u64, p: u64, c: u64)
    requires
        crate::node::well_formed(nodes, root),
        children_of(nodes, p).contains(c),
    ensures
        ancestor(nodes, c, 1) == Some(p),
{
    lemma_find_node(nodes, p);
    let pi = find_node(nodes, p)->0;
    assert(children_of(nodes, p) == nodes[pi].children@);
    let kp = choose|kp: int|
        0 <= kp < nodes[pi].children@.len() && nodes[pi].children@[kp] == c;
    assert(nodes[pi].children@[kp] == c);
    assert(find_node(nodes, c) is Some);
    lemma_find_node(nodes, c);
    let ci = find_node(nodes, c)->0;
    assert(nodes[ci].id == c && c != root);
    assert(nodes[ci].parent is Some);
    let q = nodes[ci].parent->0;
    let (j, kq): (int, int) = choose|j: int, kq: int|
        0 <= j < nodes.len() && nodes[j].id == q && 0 <= kq < nodes[j].children@.len()
            && nodes[j].children@[kq] == nodes[ci].id;
    assert(nodes[j].children@[kq] == nodes[pi].children@[kp]);
    assert(j == pi && kq == kp);
    assert(q == nodes[pi].id);
    assert(nodes[pi].id == p);
    assert(ancestor(nodes, c, 1) == ancestor(nodes, q, 0));
}

/// In a well-formed snapshot, the children of one root-connected node are
/// pairwise distinct, root-connected, and none sits in another's subtree.
proof fn lemma_children_independent(nodes: Seq<NodeData>, root: u64, a: u64)
    requires
        crate::node::well_formed(nodes, root),
        root_connected(nodes, root, a),
    ensures
        no_dup(children_of(nodes, a)),
        forall|i: int|
            0 <= i < children_of(nodes, a).len() ==> root_connected(
                nodes,
                root,
                #[trigger] children_of(nodes, a)[i],
            ),
        forall|i: int, j: int, k: nat|
            0 <= i < children_of(nodes, a).len() && 0 <= j < children_of(nodes, a).len() && i != j
                && k >= 1 ==> ancestor(nodes, children_of(nodes, a)[i], k) != Some(
                children_of(nodes, a)[j],
            ),
{
    let cs = children_of(nodes, a);
    if cs.len() > 0 {
        lemma_find_node(nodes, a);
        let ai = find_node(nodes, a)->0;
        assert(cs == nodes[ai].children@);
        assert forall|i: int, j: int| 0 <= i < j < cs.len() implies cs[i] != cs[j] by {
            assert(nodes[ai].children@[i] == cs[i] && nodes[ai].children@[j] == cs[j]);
        }
        assert forall|i: int| 0 <= i < cs.len() implies root_connected(
            nodes,
            root,
            cs[i],
        ) by {
            lemma_link_parent(nodes, root, a, cs[i]);
            let d = choose|d: nat| #[trigger] ancestor(nodes, a, d) == Some(root);
            lemma_ancestor_compose(nodes, cs[i], 1, d);
            assert(ancestor(nodes, cs[i], 1 + d) == Some(root));
        }
        assert forall|i: int, j: int, k: nat|
            0 <= i < cs.len() && 0 <= j < cs.len() && i != j && k >= 1 implies ancestor(
            nodes,
            cs[i],
            k,
        ) != Some(cs[j]) by {
            if ancestor(nodes, cs[i], k) == Some(cs[j]) {
                lemma_link_parent(nodes, root, a, cs[i]);
                lemma_link_parent(nodes, root, a, cs[j]);
                // one step up from cs[i] is a, so k - 1 more reach cs[j]
                lemma_ancestor_compose(nodes, cs[i], 1, (k - 1) as nat);
                assert(ancestor(nodes, a, (k - 1) as nat) == Some(cs[j]));
                // and one more step from cs[j] returns to a: a cycle
                lemma_ancestor_compose(nodes, a, (k - 1) as nat, 1);
                assert(ancestor(nodes, a, (k - 1) as nat + 1) == Some(a));
                lemma_no_parent_cycle(nodes, root, a, (k - 1) as nat + 1);
            }
        }
    }
}

/// In a well-formed snapshot the pre-order traversal of independent,
/// root-connected starting ids lists no id twice, and every listed id's
/// parent walk leads back to one of the starting ids.
proof fn lemma_preorder_no_dup(nodes: Seq<NodeData>, root: u64, ids: Seq<u64>, fuel: nat)
    requires
        crate::node::well_formed(nodes, root),
        no_dup(ids),
        forall|i: int| 0 <= i < ids.len() ==> root_connected(nodes, root, #[trigger] ids[i]),
        forall|i: int, j: int, k: nat|
            0 <= i < ids.len() && 0 <= j < ids.len() && i != j && k >= 1 ==> ancestor(
                nodes,
                ids[i],
                k,
            ) != Some(ids[j]),
    ensures
        no_dup(preorder_from(nodes, ids, fuel)),
        forall|t: int|
            0 <= t < preorder_from(nodes, ids, fuel).len() ==> rooted_in(
                nodes,
                ids,
                #[trigger] preorder_from(nodes, ids, fuel)[t],
            ),
    decreases fuel, ids.len(),
{
    if ids.len() == 0 {
        assert(preorder_from(nodes, ids, fuel) =~= Seq::<u64>::empty());
    } else {
        let a = ids[0];
        let p = preorder_from(nodes, ids, fuel);
        let cs = children_of(nodes, a);
        let sub = if fuel > 0 {
            preorder_from(nodes, cs, (fuel - 1) as nat)
        } else {
            Seq::<u64>::empty()
        };
        let rest = preorder_from(nodes, ids.drop_first(), fuel);
        assert(p == seq![a] + sub + rest);
        lemma_children_independent(nodes, root, a);
        if fuel > 0 {
            lemma_preorder_no_dup(nodes, root, cs, (fuel - 1) as nat);
        }
        assert forall|i: int|
            0 <= i < ids.drop_first().len() implies root_connected(
            nodes,
            root,
            #[trigger] ids.drop_first()[i],
        ) by {
            assert(ids.drop_first()[i] == ids[i + 1]);
        }
        assert forall|i: int, j: int, k: nat|
            0 <= i < ids.drop_first().len() && 0 <= j < ids.drop_first().len() && i != j && k
            >= 1 implies ancestor(nodes, ids.drop_first()[i], k) != Some(
            ids.drop_first()[j],
        ) by {
            assert(ids.drop_first()[i] == ids[i + 1] && ids.drop_first()[j] == ids[j + 1]);
        }
        lemma_preorder_no_dup(nodes, root, ids.drop_first(), fuel);
        // every member of `sub` walks up to `a` in at least one step
        assert forall|t: int| 0 <= t < sub.len() implies exists|k: nat|
            k >= 1 && #[trigger] ancestor(nodes, #[trigger] sub[t], k) == Some(a) by {
            assert(rooted_in(nodes, cs, sub[t]));
            let (ci, k0): (int, nat) = choose|ci: int, k0: nat|
                #![trigger ancestor(nodes, sub[t], k0), cs[ci]]
                0 <= ci < cs.len() && ancestor(nodes, sub[t], k0) == Some(cs[ci]);
            lemma_link_parent(nodes, root, a, cs[ci]);
            lemma_ancestor_compose(nodes, sub[t], k0, 1);
            assert(ancestor(nodes, sub[t], k0 + 1) == Some(a));
            assert(k0 + 1 >= 1);
        }
        // every member of `rest` walks up to a later starting id
        assert forall|t: int|
            #![trigger rest[t]]
            0 <= t < rest.len() implies exists|i: int, k: nat|
            #![trigger ancestor(nodes, rest[t], k), ids[i]]
            1 <= i < ids.len() && ancestor(nodes, rest[t], k) == Some(ids[i]) by {
            assert(rooted_in(nodes, ids.drop_first(), rest[t]));
            let (i0, k0): (int, nat) = choose|i0: int, k0: nat|
                #![trigger ancestor(nodes, rest[t], k0), ids.drop_first()[i0]]
                0 <= i0 < ids.drop_first().len() && ancestor(nodes, rest[t], k0) == Some(
                    ids.drop_first()[i0],
                );
            assert(ids.drop_first()[i0] == ids[i0 + 1]);
            assert(ancestor(nodes, rest[t], k0) == Some(ids[i0 + 1]));
        }
        // `a` is in neither part
        assert forall|t: int| 0 <= t < sub.len() implies sub[t] != a by {
            if sub[t] == a {
                let k = choose|k: nat| k >= 1 && #[trigger] ancestor(nodes, a, k) == Some(a);
                lemma_no_parent_cycle(nodes, root, a, k);
            }
        }
        assert forall|t: int| 0 <= t < rest.len() implies rest[t] != a by {
            if rest[t] == a {
                let (i, k): (int, nat) = choose|i: int, k: nat|
                    #![trigger ancestor(nodes, a, k), ids[i]]
                    1 <= i < ids.len() && ancestor(nodes, a, k) == Some(ids[i]);
                if k == 0 {
                    assert(ids[0] == ids[i]);
                } else {
                    assert(ancestor(nodes, ids[0], k) == Some(ids[i]));
                }
            }
        }
        // the two parts share nothing
        assert forall|t1: int, t2: int|
            0 <= t1 < sub.len() && 0 <= t2 < rest.len() implies sub[t1] != rest[t2] by {
            if sub[t1] == rest[t2] {
                let x = sub[t1];
                let k1 = choose|k1: nat| k1 >= 1 && #[trigger] ancestor(nodes, x, k1) == Some(a);
                let (i2, k2): (int, nat) = choose|i2: int, k2: nat|
                    #![trigger ancestor(nodes, x, k2), ids[i2]]
                    1 <= i2 < ids.len() && ancestor(nodes, x, k2) == Some(ids[i2]);
                let b = ids[i2];
                if k1 <= k2 {
                    lemma_ancestor_compose(nodes, x, k1, (k2 - k1) as nat);
                    assert(ancestor(nodes, a, (k2 - k1) as nat) == Some(b));
                    if k2 == k1 {
                        assert(a == b && ids[0] == ids[i2]);
                    } else {
                        assert(ancestor(nodes, ids[0], (k2 - k1) as nat) == Some(ids[i2]));
                    }
                } else {
                    lemma_ancestor_compose(nodes, x, k2, (k1 - k2) as nat);
                    assert(ancestor(nodes, b, (k1 - k2) as nat) == Some(a));
                    assert(ancestor(nodes, ids[i2], (k1 - k2) as nat) == Some(ids[0]));
                }
            }
        }
        // assemble: indices of p fall into the three parts
        assert forall|t1: int, t2: int| 0 <= t1 < t2 < p.len() implies p[t1] != p[t2] by {
            if t1 == 0 {
                assert(p[0] == a);
                if t2 < 1 + sub.len() {
                    assert(p[t2] == sub[t2 - 1]);
                } else {
                    assert(p[t2] == rest[t2 - 1 - sub.len()]);
                }
            } else if t1 < 1 + sub.len() {
                assert(p[t1] == sub[t1 - 1]);
                if t2 < 1 + sub.len() {
                    assert(p[t2] == sub[t2 - 1]);
                } else {
                    assert(p[t2] == rest[t2 - 1 - sub.len()]);
                }
            } else {
                assert(p[t1] == rest[t1 - 1 - sub.len()]);
                assert(p[t2] == rest[t2 - 1 - sub.len()]);
            }
        }
        // membership characterization of the whole listing
        assert forall|t: int|
            0 <= t < preorder_from(nodes, ids, fuel).len() implies rooted_in(
            nodes,
            ids,
            #[trigger] preorder_from(nodes, ids, fuel)[t],
        ) by {
            let x = preorder_from(nodes, ids, fuel)[t];
            if t == 0 {
                assert(x == a);
                assert(ancestor(nodes, x, 0) == Some(ids[0]));
            } else if t < 1 + sub.len() {
                assert(x == sub[t - 1]);
                let k = choose|k: nat|
                    k >= 1 && #[trigger] ancestor(nodes, sub[t - 1], k) == Some(a);
                assert(ancestor(nodes, x, k) == Some(ids[0]));
            } else {
                assert(x == rest[t - 1 - sub.len()]);
                let (i, k): (int, nat) = choose|i: int, k: nat|
                    #![trigger ancestor(nodes, rest[t - 1 - sub.len()], k), ids[i]]
                    1 <= i < ids.len() && ancestor(nodes, rest[t - 1 - sub.len()], k) == Some(
                        ids[i],
                    );
                assert(ancestor(nodes, x, k) == Some(ids[i]));
            }
            assert(rooted_in(nodes, ids, x));
        }
    }
}

/// The filter pass lists no id twice when its input lists none twice.
proof fn lemma_matching_no_dup(nodes: Seq<NodeData>, by: ByView, ids: Seq<u64>)
    requires
        no_dup(ids),
    ensures
        no_dup(matching_ids(nodes, by, ids)),
    decreases ids.len(),
{
    if ids.len() > 0 {
        assert forall|i: int, j: int|
            0 <= i < j < ids.drop_first().len() implies ids.drop_first()[i]
            != ids.drop_first()[j] by {
            assert(ids.drop_first()[i] == ids[i + 1] && ids.drop_first()[j] == ids[j + 1]);
        }
        lemma_matching_no_dup(nodes, by, ids.drop_first());
        lemma_matching_ids_in_candidates(nodes, by, ids.drop_first());
        let m = matching_ids(nodes, by, ids);
        let rest = matching_ids(nodes, by, ids.drop_first());
        let head = if matches_at(nodes, by, ids[0]) {
            seq![ids[0]]
        } else {
            Seq::<u64>::empty()
        };
        assert forall|t1: int, t2: int| 0 <= t1 < t2 < m.len() implies m[t1] != m[t2] by {
            if t1 < head.len() {
                assert(m[t1] == ids[0]);
                assert(m[t2] == rest[t2 - head.len()]);
                assert(ids.drop_first().contains(rest[t2 - head.len()]));
                let j = choose|j: int|
                    0 <= j < ids.drop_first().len() && ids.drop_first()[j] == rest[t2
                        - head.len()];
                assert(ids[j + 1] == rest[t2 - head.len()]);
            } else {
                assert(m[t1] == rest[t1 - head.len()] && m[t2] == rest[t2 - head.len()]);
            }
        }
    }
}

/// The exclusion pass lists no id twice when its input lists none twice.
proof fn lemma_remove_no_dup(ids: Seq<u64>, excl: Seq<u64>)
    requires
        no_dup(ids),
    ensures
        no_dup(remove_ids(ids, excl)),
    decreases ids.len(),
{
    if ids.len() > 0 {
        assert forall|i: int, j: int|
            0 <= i < j < ids.drop_first().len() implies ids.drop_first()[i]
            != ids.drop_first()[j] by {
            assert(ids.drop_first()[i] == ids[i + 1] && ids.drop_first()[j] == ids[j + 1]);
        }
        lemma_remove_no_dup(ids.drop_first(), excl);
        lemma_remove_ids_sub(ids.drop_first(), excl);
        let r = remove_ids(ids, excl);
        let rest = remove_ids(ids.drop_first(), excl);
        let head = if excl.contains(ids[0]) {
            Seq::<u64>::empty()
        } else {
            seq![ids[0]]
        };
        assert forall|t1: int, t2: int| 0 <= t1 < t2 < r.len() implies r[t1] != r[t2] by {
            if t1 < head.len() {
                assert(r[t1] == ids[0]);
                assert(r[t2] == rest[t2 - head.len()]);
                assert(ids.drop_first().contains(rest[t2 - head.len()]));
                let j = choose|j: int|
                    0 <= j < ids.drop_first().len() && ids.drop_first()[j] == rest[t2
                        - head.len()];
                assert(ids[j + 1] == rest[t2 - head.len()]);
            } else {
                assert(r[t1] == rest[t1 - head.len()] && r[t2] == rest[t2 - head.len()]);
            }
        }
    }
}

/// In a well-formed snapshot a query lists no node twice: the traversal
/// visits each descendant once, and the filter and exclusion passes only
/// drop entries.
pub proof fn lemma_query_all_no_dup(nodes: Seq<NodeData>, root: u64, by: ByView)
    requires
        crate::node::well_formed(nodes, root),
    ensures
        no_dup(query_all_ids(nodes, root, by)),
{
    let cands = if by.recursive {
        descendants_of(nodes, root, nodes.len())
    } else {
        children_of(nodes, root)
    };
    assert(ancestor(nodes, root, 0) == Some(root));
    assert(root_connected(nodes, root, root));
    lemma_children_independent(nodes, root, root);
    if by.recursive {
        lemma_preorder_no_dup(nodes, root, children_of(nodes, root), nodes.len());
    }
    assert(no_dup(cands));
    lemma_matching_no_dup(nodes, by, cands);
    if by.should_filter_labels() {
        lemma_remove_no_dup(
            matching_ids(nodes, by, cands),
            label_sources(nodes, matching_ids(nodes, by, cands)),
        );
    }
}

} // verus!
