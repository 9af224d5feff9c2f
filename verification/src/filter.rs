//! The filter predicate: a composable, declarative set of matching criteria,
//! combined by logical AND.

use vstd::prelude::*;
use crate::node::{NodeData, Role, role_name, role_name_str};
use crate::strings::{contains_sub, str_contains};

verus! {

/// Creates an empty filter; shorthand for [`By::new`].
pub fn by() -> (r: By)
    ensures
        r@ == ByView::empty(),
{
    By::new()
}

/// A filter for nodes.  All present criteria must hold for a node to match.
///
/// A user-supplied predicate cannot be stored as a criterion here (an opaque
/// function value has no place in a verified data type); predicate matching
/// is offered by the dedicated query functions instead, and `had_predicate`
/// records, for diagnostics, that a predicate took part in the query.
pub struct By {
    pub label: Option<String>,
    pub label_contains: bool,
    pub include_labels: bool,
    pub had_predicate: bool,
    pub role: Option<Role>,
    pub value: Option<String>,
    pub recursive: bool,
}

/// The mathematical view of a filter: each criterion as a plain value.
pub ghost struct ByView {
    pub label: Option<Seq<char>>,
    pub label_contains: bool,
    pub include_labels: bool,
    pub had_predicate: bool,
    pub role: Option<Role>,
    pub value: Option<Seq<char>>,
    pub recursive: bool,
}

impl View for By {
    type V = ByView;

    open spec fn view(&self) -> ByView {
        ByView {
            label: match self.label {
                Some(l) => Some(l@),
                None => None,
            },
            label_contains: self.label_contains,
            include_labels: self.include_labels,
            had_predicate: self.had_predicate,
            role: self.role,
            value: match self.value {
                Some(v) => Some(v@),
                None => None,
            },
            recursive: self.recursive,
        }
    }
}

impl ByView {
    /// The view of the empty filter: no criteria, recursive search.
    pub open spec fn empty() -> ByView {
        ByView {
            label: None,
            label_contains: false,
            include_labels: false,
            had_predicate: false,
            role: None,
            value: None,
            recursive: true,
        }
    }

    /// Whether the label-deduplication pass applies: a label criterion was
    /// supplied and label nodes were not opted in.
    pub open spec fn should_filter_labels(self) -> bool {
        !self.include_labels && self.label is Some
    }
}

/// The text a label criterion is matched against: a caption node (role
/// `Label`) stores its text in `value`, every other node in `label`.
pub open spec fn label_text(n: NodeData) -> Option<Seq<char>> {
    if n.role == Role::Label {
        match n.value {
            Some(v) => Some(v@),
            None => None,
        }
    } else {
        match n.label {
            Some(l) => Some(l@),
            None => None,
        }
    }
}

/// Whether the node data `n` satisfies every criterion of `by`.
pub open spec fn matches_data(by: ByView, n: NodeData) -> bool {
    &&& match by.label {
        Some(l) => match label_text(n) {
            Some(t) => if by.label_contains {
                contains_sub(t, l)
            } else {
                t == l
            },
            None => false,
        },
        None => true,
    }
    &&& match by.role {
        Some(ro) => n.role == ro,
        None => true,
    }
    &&& match by.value {
        Some(v) => match n.value {
            Some(nv) => nv@ == v,
            None => false,
        },
        None => true,
    }
}

/// The diagnostic rendering of a filter: each present criterion named, a
/// predicate marked by presence only.
pub open spec fn describe_by(by: ByView) -> Seq<char> {
    "By {"@ + (match by.label {
        Some(l) => (if by.label_contains {
            " label_contains: \""@
        } else {
            " label: \""@
        }) + l + "\""@,
        None => Seq::<char>::empty(),
    }) + (if by.include_labels {
        " include_labels"@
    } else {
        Seq::<char>::empty()
    }) + (if by.had_predicate {
        " predicate"@
    } else {
        Seq::<char>::empty()
    }) + (match by.role {
        Some(ro) => " role: "@ + role_name(ro),
        None => Seq::<char>::empty(),
    }) + (match by.value {
        Some(v) => " value: \""@ + v + "\""@,
        None => Seq::<char>::empty(),
    }) + (if !by.recursive {
        " recursive: false"@
    } else {
        Seq::<char>::empty()
    }) + " }"@
}

impl By {
    /// Creates an empty filter.
    pub fn new() -> (r: By)
        ensures
            r@ == ByView::empty(),
    {
        By {
            label: None,
            label_contains: false,
            include_labels: false,
            had_predicate: false,
            role: None,
            value: None,
            recursive: true,
        }
    }

    /// Filter by the label of the node, with an exact match.
    ///
    /// A node with role `Label` stores its caption in `value`; the criterion
    /// is matched against that text for such nodes.
    pub fn label(self, label: &str) -> (r: By)
        ensures
            r@ == (ByView { label: Some(label@), ..self@ }),
    {
        By { label: Some(label.to_owned()), ..self }
    }

    /// Filter by the label of the node, with a substring match.
    pub fn label_contains(self, label: &str) -> (r: By)
        ensures
            r@ == (ByView { label: Some(label@), label_contains: true, ..self@ }),
    {
        By { label: Some(label.to_owned()), label_contains: true, ..self }
    }

    /// Include label nodes that caption another matched node in the results.
    /// Default is to exclude them.
    pub fn include_labels(self) -> (r: By)
        ensures
            r@ == (ByView { include_labels: true, ..self@ }),
    {
        By { include_labels: true, ..self }
    }

    /// Filter by the role of the node.
    pub fn role(self, role: Role) -> (r: By)
        ensures
            r@ == (ByView { role: Some(role), ..self@ }),
    {
        By { role: Some(role), ..self }
    }

    /// Filter by the value of the node, with an exact match.
    pub fn value(self, value: &str) -> (r: By)
        ensures
            r@ == (ByView { value: Some(value@), ..self@ }),
    {
        By { value: Some(value.to_owned()), ..self }
    }

    /// Should the whole subtree be searched, rather than only the direct
    /// children?  Default is true.
    pub fn recursive(self, recursive: bool) -> (r: By)
        ensures
            r@ == (ByView { recursive, ..self@ }),
    {
        By { recursive, ..self }
    }

    /// Whether the label nodes captioning a matched node are to be dropped
    /// from the results.
    pub fn should_filter_labels(&self) -> (r: bool)
        ensures
            r == self@.should_filter_labels(),
    {
        !self.include_labels && self.label.is_some()
    }

    /// An equal copy of the filter, for diagnostic output.  (With a stored
    /// predicate criterion this could not be a full clone; here it is, and
    /// `had_predicate` still travels along.)
    pub fn debug_clone_without_predicate(&self) -> (r: By)
        ensures
            r@ == self@,
    {
        By {
            label: match &self.label {
                Some(l) => Some(l.clone()),
                None => None,
            },
            label_contains: self.label_contains,
            include_labels: self.include_labels,
            had_predicate: self.had_predicate,
            role: self.role,
            value: match &self.value {
                Some(v) => Some(v.clone()),
                None => None,
            },
            recursive: self.recursive,
        }
    }

    /// Renders the filter's present criteria for diagnostics.  A predicate
    /// criterion is marked by name only: its body cannot be rendered.
    #[verifier::rlimit(60)]
    pub fn describe(&self) -> (r: String)
        ensures
            r@ == describe_by(self@),
    {
        let mut r = String::new();
        r.append("By {");
        let ghost g1 = "By {"@ + (match self@.label {
            Some(l) => (if self.label_contains {
                " label_contains: \""@
            } else {
                " label: \""@
            }) + l + "\""@,
            None => Seq::<char>::empty(),
        });
        match &self.label {
            Some(l) => {
                if self.label_contains {
                    r.append(" label_contains: \"");
                } else {
                    r.append(" label: \"");
                }
                r.append(l.as_str());
                r.append("\"");
            },
            None => {
            },
        }
        proof {
            assert(r@ =~= g1);
        }
        let ghost g2 = g1 + (if self.include_labels {
            " include_labels"@
        } else {
            Seq::<char>::empty()
        });
        if self.include_labels {
            r.append(" include_labels");
        }
        proof {
            assert(r@ =~= g2);
        }
        let ghost g3 = g2 + (if self.had_predicate {
            " predicate"@
        } else {
            Seq::<char>::empty()
        });
        if self.had_predicate {
            r.append(" predicate");
        }
        proof {
            assert(r@ =~= g3);
        }
        let ghost g4 = g3 + (match self.role {
            Some(ro) => " role: "@ + role_name(ro),
            None => Seq::<char>::empty(),
        });
        match &self.role {
            Some(ro) => {
                r.append(" role: ");
                r.append(role_name_str(*ro));
            },
            None => {
            },
        }
        proof {
            assert(r@ =~= g4);
        }
        let ghost g5 = g4 + (match self@.value {
            Some(v) => " value: \""@ + v + "\""@,
            None => Seq::<char>::empty(),
        });
        match &self.value {
            Some(v) => {
                r.append(" value: \"");
                r.append(v.as_str());
                r.append("\"");
            },
            None => {
            },
        }
        proof {
            assert(r@ =~= g5);
        }
        let ghost g6 = g5 + (if !self.recursive {
            " recursive: false"@
        } else {
            Seq::<char>::empty()
        });
        if !self.recursive {
            r.append(" recursive: false");
        }
        proof {
            assert(r@ =~= g6);
        }
        r.append(" }");
        proof {
            assert(r@ =~= g6 + " }"@);
        }
        r
    }

    /// Whether the given node data matches this filter.
    pub fn matches(&self, node: &NodeData) -> (r: bool)
        ensures
            r == matches_data(self@, *node),
    {
        if let Some(l) = &self.label {
            let node_label: &Option<String> = if node.role == Role::Label {
                &node.value
            } else {
                &node.label
            };
            match node_label {
                Some(t) => {
                    if self.label_contains {
                        if !str_contains(t.as_str(), l.as_str()) {
                            return false;
                        }
                    } else {
                        if !(*t == *l) {
                            return false;
                        }
                    }
                },
                None => {
                    return false;
                },
            }
        }
        if let Some(ro) = &self.role {
            if node.role != *ro {
                return false;
            }
        }
        if let Some(v) = &self.value {
            match &node.value {
                Some(nv) => {
                    if !(*nv == *v) {
                        return false;
                    }
                },
                None => {
                    return false;
                },
            }
        }
        true
    }
}

impl core::default::Default for By {
    /// The empty filter, as [`By::new`] creates it.
    fn default() -> (r: By)
        ensures
            r@ == ByView::empty(),
    {
        By::new()
    }
}


/// The view of the filter `by().label(label)`.
pub open spec fn label_filter(label: Seq<char>) -> ByView {
    ByView { label: Some(label), ..ByView::empty() }
}

/// The view of the filter `by().label_contains(label)`.
pub open spec fn label_contains_filter(label: Seq<char>) -> ByView {
    ByView { label: Some(label), label_contains: true, ..ByView::empty() }
}

/// The view of the filter `by().role(role)`.
pub open spec fn role_filter(role: Role) -> ByView {
    ByView { role: Some(role), ..ByView::empty() }
}

/// The view of the filter `by().role(role).label(label)`.
pub open spec fn role_label_filter(role: Role, label: Seq<char>) -> ByView {
    ByView { role: Some(role), label: Some(label), ..ByView::empty() }
}

/// The view of the filter `by().value(value)`.
pub open spec fn value_filter(value: Seq<char>) -> ByView {
    ByView { value: Some(value), ..ByView::empty() }
}


/// An exact label match is also a substring match: every node the filter
/// `by().label(l)` matches, the filter `by().label_contains(l)` matches
/// too (the converse does not hold: a longer label can contain `l`).
pub proof fn lemma_exact_implies_contains(n: NodeData, l: Seq<char>)
    requires
        matches_data(label_filter(l), n),
    ensures
        matches_data(label_contains_filter(l), n),
{
    match label_text(n) {
        Some(t) => {
            assert(t == l);
            assert(t.subrange(0, 0 + l.len() as int) =~= l);
            assert(contains_sub(t, l));
        },
        None => {
            assert(false);
        },
    }
}

} // verus!
