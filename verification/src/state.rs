//! The state holder: owns the current tree snapshot and the shared event
//! queue, and hands out node views.

use vstd::prelude::*;
use crate::event::{Event, SharedEventQueue, new_shared_queue, shared_queue_drain};
use crate::node::{NodeData, Node, find_node, find_node_index, render_node};
use crate::filter::{By, describe_by};
use crate::query::{Error, query_all_ids};

verus! {

/// One complete tree snapshot as the external tree source supplies it:
/// every node's attributes, and the id of the root.
pub struct TreeUpdate {
    pub nodes: Vec<NodeData>,
    pub root: Option<u64>,
}

/// Owns the current snapshot and the event queue for its lifetime; both are
/// replaced or kept wholesale, never partially mutated under a handle.
/// Node views borrow the state, so no view survives an update.
pub struct State {
    nodes: Vec<NodeData>,
    root_index: usize,
    queued_events: SharedEventQueue,
}

impl State {
    #[verifier::type_invariant]
    spec fn type_inv(self) -> bool {
        self.root_index < self.nodes@.len()
    }

    /// The nodes of the current snapshot.
    pub closed spec fn spec_nodes(self) -> Seq<NodeData> {
        self.nodes@
    }

    /// The position of the root node in the snapshot's node list.
    pub closed spec fn spec_root_index(self) -> int {
        self.root_index as int
    }

    /// The id of the root node.
    pub open spec fn spec_root_id(self) -> u64 {
        self.spec_nodes()[self.spec_root_index()].id
    }

    /// Builds the state from an initial full snapshot.  Fails with
    /// `MissingCapability` exactly when the update names no root or its
    /// root id is not among its nodes.
    pub fn new(update: TreeUpdate) -> (r: Result<State, Error>)
        ensures
            match r {
                Ok(s) => update.root matches Some(rid) && s.spec_nodes() == update.nodes@
                    && find_node(update.nodes@, rid) == Some(s.spec_root_index()),
                Err(e) => e is MissingCapability && (match update.root {
                    Some(rid) => find_node(update.nodes@, rid) is None,
                    None => true,
                }),
            },
    {
        match update.root {
            Some(rid) => match find_node_index(&update.nodes, rid) {
                Some(i) => Ok(
                    State { nodes: update.nodes, root_index: i, queued_events: new_shared_queue() },
                ),
                None => Err(Error::MissingCapability),
            },
            None => Err(Error::MissingCapability),
        }
    }

    /// Replaces the snapshot wholesale with a fresh one; the event queue
    /// and whatever it holds are kept.  Fails with `MissingCapability`
    /// exactly when the update names no root or its root id is not among
    /// its nodes; the old snapshot then stays in place.
    pub fn update(&mut self, update: TreeUpdate) -> (r: Result<(), Error>)
        ensures
            match r {
                Ok(()) => update.root matches Some(rid) && final(self).spec_nodes()
                    == update.nodes@ && find_node(update.nodes@, rid) == Some(
                    final(self).spec_root_index(),
                ),
                Err(e) => e is MissingCapability && final(self).spec_nodes() == old(
                    self,
                ).spec_nodes() && final(self).spec_root_index() == old(self).spec_root_index() && (
                match update.root {
                    Some(rid) => find_node(update.nodes@, rid) is None,
                    None => true,
                }),
            },
    {
        proof {
            use_type_invariant(&*self);
        }
        match update.root {
            Some(rid) => match find_node_index(&update.nodes, rid) {
                Some(i) => {
                    self.root_index = 0;
                    self.nodes = update.nodes;
                    self.root_index = i;
                    Ok(())
                },
                None => Err(Error::MissingCapability),
            },
            None => Err(Error::MissingCapability),
        }
    }

    /// A view on the root node.
    pub fn root(&self) -> (n: Node<'_>)
        ensures
            n.spec_nodes() == self.spec_nodes(),
            n.spec_index() == self.spec_root_index(),
    {
        proof {
            use_type_invariant(self);
        }
        Node::from_index(&self.nodes, self.root_index, &self.queued_events)
    }

    /// The node queries start from: the root view.
    pub fn node(&self) -> (n: Node<'_>)
        ensures
            n.spec_nodes() == self.spec_nodes(),
            n.spec_index() == self.spec_root_index(),
    {
        self.root()
    }

    /// Removes and returns every queued event in FIFO order, leaving the
    /// queue empty; called by the adapter once per simulated frame.  What
    /// draining does to given queue contents is stated on
    /// [`crate::event::EventQueue::drain`]; the shared buffer itself is
    /// behind the lock.
    pub fn take_events(&self) -> Vec<Event> {
        shared_queue_drain(&self.queued_events)
    }
}

impl State {
    /// Queries the whole tree: every node matching the filter, in
    /// depth-first pre-order; shorthand for querying on [`State::root`].
    pub fn query_all(&self, by: &By) -> (r: Vec<Node<'_>>)
        ensures
            r@.len() == query_all_ids(self.spec_nodes(), self.spec_root_id(), by@).len(),
            forall|k: int|
                0 <= k < r@.len() ==> (#[trigger] r@[k]).spec_nodes() == self.spec_nodes()
                    && r@[k].spec_id() == query_all_ids(
                    self.spec_nodes(),
                    self.spec_root_id(),
                    by@,
                )[k],
    {
        let root = self.root();
        root.query_all(by)
    }

    /// Queries the whole tree, `NotFound` when nothing matches; shorthand
    /// for [`Node::get_all`] on the root.
    pub fn get_all(&self, by: By) -> (r: Result<Vec<Node<'_>>, Error>)
        ensures
            ({
                let ids = query_all_ids(self.spec_nodes(), self.spec_root_id(), by@);
                match r {
                    Ok(v) => ids.len() > 0 && v@.len() == ids.len() && (forall|k: int|
                        0 <= k < v@.len() ==> (#[trigger] v@[k]).spec_nodes()
                            == self.spec_nodes() && v@[k].spec_id() == ids[k]),
                    Err(e) => ids.len() == 0 && (e matches Error::NotFound { query, root }
                        && query@ == describe_by(by@) && root@ == render_node(
                        self.spec_nodes(),
                        self.spec_root_id(),
                        self.spec_nodes().len(),
                    )),
                }
            }),
    {
        let root = self.root();
        root.get_all(by)
    }

    /// The single node of the tree matching the filter: `None` when nothing
    /// matches, `Ambiguous` when two or more nodes match.
    pub fn query(&self, by: By) -> (r: Result<Option<Node<'_>>, Error>)
        ensures
            ({
                let ids = query_all_ids(self.spec_nodes(), self.spec_root_id(), by@);
                match r {
                    Ok(None) => ids.len() == 0,
                    Ok(Some(n)) => ids.len() == 1 && n.spec_nodes() == self.spec_nodes()
                        && n.spec_id() == ids[0],
                    Err(e) => ids.len() >= 2 && (e matches Error::Ambiguous {
                        query,
                        first,
                        second,
                    } && query@ == describe_by(by@) && first@ == render_node(
                        self.spec_nodes(),
                        ids[0],
                        self.spec_nodes().len(),
                    ) && second@ == render_node(
                        self.spec_nodes(),
                        ids[1],
                        self.spec_nodes().len(),
                    )),
                }
            }),
    {
        let root = self.root();
        root.query(by)
    }

    /// The single node of the tree matching the filter: `NotFound` when
    /// nothing matches, `Ambiguous` when two or more nodes match.
    pub fn get(&self, by: By) -> (r: Result<Node<'_>, Error>)
        ensures
            ({
                let ids = query_all_ids(self.spec_nodes(), self.spec_root_id(), by@);
                match r {
                    Ok(n) => ids.len() == 1 && n.spec_nodes() == self.spec_nodes()
                        && n.spec_id() == ids[0],
                    Err(e) => match e {
                        Error::NotFound { query, root } => ids.len() == 0 && query@
                            == describe_by(by@) && root@ == render_node(
                            self.spec_nodes(),
                            self.spec_root_id(),
                            self.spec_nodes().len(),
                        ),
                        Error::Ambiguous { query, first, second } => ids.len() >= 2 && query@
                            == describe_by(by@) && first@ == render_node(
                            self.spec_nodes(),
                            ids[0],
                            self.spec_nodes().len(),
                        ) && second@ == render_node(
                            self.spec_nodes(),
                            ids[1],
                            self.spec_nodes().len(),
                        ),
                        _ => false,
                    },
                }
            }),
    {
        let root = self.root();
        root.get(by)
    }
}

} // verus!
