//! The handlers of incoming calls, by object path.
use vstd::prelude::*;

use super::queue;
use super::queue::MsgQueue;
use super::replies;
use crate::rustbus_core::message_builder::MarshalledMessage;
use crate::rustbus_core::path;
use crate::rustbus_core::path::ObjectPath;
use crate::text;

verus! {

/// What is done with the calls for an object path and for the paths below it.
#[derive(Clone, Copy, Debug, PartialEq, Eq, Structural)]
pub enum CallAction {
    /// Calls for the path, and for paths below it that have no action of their own, are queued.
    Queue,
    /// Calls for the path itself are queued.
    Exact,
    /// Calls are answered with a list of the paths directly below.
    Intro,
    /// The path has no action of its own.
    Nothing,
    /// Calls are answered with an error.
    Drop,
}

/// An action, with the queue that it needs.
#[derive(Debug)]
pub enum CallHandler {
    Queue(MsgQueue),
    Exact(MsgQueue),
    Intro,
    Nothing,
    Drop,
}

impl CallHandler {
    /// The action of the handler.
    pub open spec fn spec_action(self) -> CallAction {
        match self {
            CallHandler::Queue(_) => CallAction::Queue,
            CallHandler::Exact(_) => CallAction::Exact,
            CallHandler::Intro => CallAction::Intro,
            CallHandler::Nothing => CallAction::Nothing,
            CallHandler::Drop => CallAction::Drop,
        }
    }

    /// The queue of the handler, if it has one.
    pub open spec fn spec_queue(self) -> Option<MsgQueue> {
        match self {
            CallHandler::Queue(q) => Some(q),
            CallHandler::Exact(q) => Some(q),
            _ => None,
        }
    }

    fn is_nothing(&self) -> (nothing: bool)
        ensures
            nothing == (self is Nothing),
    {
        matches!(self, CallHandler::Nothing)
    }

    /// The queue of the handler, if it has one.
    pub fn get_queue(&self) -> (queue: Option<&MsgQueue>)
        ensures
            match queue {
                Some(queue) => self.spec_queue() == Some(*queue),
                None => self.spec_queue() is None,
            },
    {
        match self {
            CallHandler::Queue(q) => Some(q),
            CallHandler::Exact(q) => Some(q),
            _ => None,
        }
    }

    /// A handler for the action, with a new queue where it needs one.
    pub fn from_action(action: CallAction) -> (handler: CallHandler)
        ensures
            handler.spec_action() == action,
            handler.spec_queue() matches Some(q) ==> queue::limit(q.channel()) is None,
            action is Queue ==> handler is Queue,
            action is Exact ==> handler is Exact,
            action is Intro ==> handler is Intro,
            action is Nothing ==> handler is Nothing,
            action is Drop ==> handler is Drop,
    {
        match action {
            CallAction::Queue => CallHandler::Queue(MsgQueue::new()),
            CallAction::Exact => CallHandler::Exact(MsgQueue::new()),
            CallAction::Drop => CallHandler::Drop,
            CallAction::Nothing => CallHandler::Nothing,
            CallAction::Intro => CallHandler::Intro,
        }
    }

    /// The action of the handler.
    pub fn action(&self) -> (action: CallAction)
        ensures
            action == self.spec_action(),
    {
        match self {
            CallHandler::Exact(_) => CallAction::Exact,
            CallHandler::Queue(_) => CallAction::Queue,
            CallHandler::Drop => CallAction::Drop,
            CallHandler::Nothing => CallAction::Nothing,
            CallHandler::Intro => CallAction::Intro,
        }
    }
}

// ---------------------------------------------------------------------------
// The model: the handlers that were set, by the elements of their paths
// ---------------------------------------------------------------------------

/// The root, a path with a handler, or a path above one.
pub open spec fn is_known(table: Map<Seq<Seq<char>>, CallHandler>, p: Seq<Seq<char>>) -> bool {
    p.len() == 0 || exists|q: Seq<Seq<char>>| #[trigger]
        table.contains_key(q) && p.is_prefix_of(q)
}

/// How many elements the longest path with a handler has that `p` starts with.
pub open spec fn nearest(table: Map<Seq<Seq<char>>, CallHandler>, p: Seq<Seq<char>>) -> Option<int>
    decreases p.len(),
{
    if table.contains_key(p) {
        Some(p.len() as int)
    } else if p.len() == 0 {
        None
    } else {
        nearest(table, p.drop_last())
    }
}

/// The handlers after `h` was set for `p`. Setting `Nothing` takes the handler of the path away.
pub open spec fn inserted(
    table: Map<Seq<Seq<char>>, CallHandler>,
    p: Seq<Seq<char>>,
    h: CallHandler,
) -> Map<Seq<Seq<char>>, CallHandler> {
    if h is Nothing {
        table.remove(p)
    } else {
        table.insert(p, h)
    }
}

/// What happens to a call.
pub enum RouteView {
    Queue(MsgQueue),
    Intro,
    Dropped,
    Unhandled,
}

/// What happens to a call for `p`: the handler of the nearest path decides. A handler for
/// introspection does so only where the path below it on the way to `p` is known.
pub open spec fn routed(table: Map<Seq<Seq<char>>, CallHandler>, p: Seq<Seq<char>>) -> RouteView {
    match nearest(table, p) {
        None => RouteView::Unhandled,
        Some(k) => match table[p.take(k)] {
            CallHandler::Queue(q) => RouteView::Queue(q),
            CallHandler::Exact(q) => if k == p.len() {
                RouteView::Queue(q)
            } else {
                RouteView::Dropped
            },
            CallHandler::Intro => if k < p.len() && !is_known(table, p.take(k + 1)) {
                RouteView::Dropped
            } else {
                RouteView::Intro
            },
            CallHandler::Drop => RouteView::Dropped,
            CallHandler::Nothing => RouteView::Unhandled,
        },
    }
}

/// Whether a call for `msg` belongs to the queue of `org`. Of a handler for one path, that is
/// also the case for paths below it that lead to other handlers.
pub open spec fn matched(
    table: Map<Seq<Seq<char>>, CallHandler>,
    org: Seq<Seq<char>>,
    msg: Seq<Seq<char>>,
) -> bool {
    &&& org.is_prefix_of(msg)
    &&& nearest(table, msg) == Some(org.len() as int)
    &&& match table[org] {
        CallHandler::Queue(_) => true,
        CallHandler::Exact(_) => msg.len() == org.len() || is_known(
            table,
            msg.take(org.len() as int + 1),
        ),
        _ => false,
    }
}

/// The action of a path, if it is known.
pub open spec fn action_at(table: Map<Seq<Seq<char>>, CallHandler>, p: Seq<Seq<char>>) -> Option<
    CallAction,
> {
    if table.contains_key(p) {
        Some(table[p].spec_action())
    } else if is_known(table, p) {
        Some(CallAction::Nothing)
    } else {
        None
    }
}

/// `names` are those of the known paths directly below `p`, but for those whose calls are
/// dropped.
pub open spec fn listed(
    table: Map<Seq<Seq<char>>, CallHandler>,
    p: Seq<Seq<char>>,
    names: Seq<Seq<char>>,
) -> bool {
    &&& names.no_duplicates()
    &&& forall|n: Seq<char>| #[trigger]
        names.contains(n) <==> is_known(table, p.push(n)) && !(table.contains_key(p.push(n))
            && table[p.push(n)] is Drop)
}

// ---------------------------------------------------------------------------
// The tree
// ---------------------------------------------------------------------------

/// A path in the hierarchy: its handler and the paths directly below it.
#[derive(Debug)]
struct Node {
    children: Vec<(String, Node)>,
    handler: CallHandler,
}

spec fn is_entry(children: Seq<(String, Node)>, i: int, name: Seq<char>) -> bool {
    0 <= i < children.len() && children[i].0@ == name
}

spec fn find_child(children: Seq<(String, Node)>, name: Seq<char>) -> Option<Node> {
    if exists|i: int| is_entry(children, i, name) {
        Some(children[choose|i: int| is_entry(children, i, name)].1)
    } else {
        None
    }
}

impl Node {
    /// The node below this one with the given name.
    spec fn child(self, name: Seq<char>) -> Option<Node> {
        find_child(self.children@, name)
    }

    /// The node that `p` leads to.
    spec fn node_at(self, p: Seq<Seq<char>>) -> Option<Node>
        decreases p.len(),
    {
        if p.len() == 0 {
            Some(self)
        } else {
            match self.child(p[0]) {
                Some(child) => child.node_at(p.skip(1)),
                None => None,
            }
        }
    }

    /// There is a handler here or something below.
    spec fn live(self) -> bool {
        self.handler !is Nothing || self.children@.len() > 0
    }

    /// Names are not repeated, and everything below leads to a handler.
    spec fn wf(self) -> bool
        decreases self,
    {
        &&& forall|i: int, j: int|
            0 <= i < j < self.children@.len() ==> #[trigger] self.children@[i].0@
                != #[trigger] self.children@[j].0@
        &&& forall|i: int|
            0 <= i < self.children@.len() ==> (#[trigger] self.children@[i]).1.wf()
                && self.children@[i].1.live()
    }

    /// Whether a handler was set for `p`.
    spec fn has(self, p: Seq<Seq<char>>) -> bool {
        self.node_at(p) matches Some(node) && node.handler !is Nothing
    }

    /// The handlers at and below this node.
    spec fn table(self) -> Map<Seq<Seq<char>>, CallHandler> {
        Map::new(|p: Seq<Seq<char>>| self.has(p), |p: Seq<Seq<char>>| self.node_at(p)->Some_0.handler)
    }

    proof fn lemma_child(self, i: int)
        requires
            self.wf(),
            0 <= i < self.children@.len(),
        ensures
            self.child(self.children@[i].0@) == Some(self.children@[i].1),
    {
        let name = self.children@[i].0@;
        assert(is_entry(self.children@, i, name));
        let j = choose|j: int| is_entry(self.children@, j, name);
        if j != i {
            assert(self.children@[j].0@ != self.children@[i].0@);
        }
    }

    /// A child is well formed, and leads to a handler.
    proof fn lemma_child_wf(self, name: Seq<char>)
        requires
            self.wf(),
            self.child(name) is Some,
        ensures
            self.child(name)->Some_0.wf(),
            self.child(name)->Some_0.live(),
            decreases_to!(self => self.child(name)->Some_0),
    {
        let i = choose|i: int| is_entry(self.children@, i, name);
        assert(is_entry(self.children@, i, name));
        self.lemma_child(i);
        assert(self.children@[i].1.wf());
        assert(decreases_to!(self => self.children@[i].1));
    }

    /// The handlers below a child are those of the paths that start with its name.
    proof fn lemma_table_child(self, name: Seq<char>, q: Seq<Seq<char>>)
        ensures
            match self.child(name) {
                Some(child) => {
                    &&& self.node_at(seq![name] + q) == child.node_at(q)
                    &&& self.table().contains_key(seq![name] + q) == child.table().contains_key(q)
                    &&& child.table().contains_key(q) ==> self.table()[seq![name] + q]
                        == child.table()[q]
                },
                None => {
                    &&& self.node_at(seq![name] + q) is None
                    &&& !self.table().contains_key(seq![name] + q)
                },
            },
    {
        let p = seq![name] + q;
        assert(p[0] == name);
        assert(p.skip(1) =~= q);
    }

    /// A live node leads to a handler.
    proof fn lemma_live(self) -> (q: Seq<Seq<char>>)
        requires
            self.wf(),
            self.live(),
        ensures
            self.table().contains_key(q),
        decreases self,
    {
        if self.handler !is Nothing {
            seq![]
        } else {
            let name = self.children@[0].0@;
            self.lemma_child(0);
            self.lemma_child_wf(name);
            let q = self.child(name)->Some_0.lemma_live();
            self.lemma_table_child(name, q);
            seq![name] + q
        }
    }

    /// A node that does not lead to a handler has no table.
    proof fn lemma_not_live(self)
        requires
            !self.live(),
        ensures
            self.table() =~= Map::<Seq<Seq<char>>, CallHandler>::empty(),
    {
        assert forall|p: Seq<Seq<char>>| !self.table().contains_key(p) by {
            if p.len() > 0 {
                assert(self.child(p[0]) is None);
            }
        }
    }

    /// The known paths are those that lead to a node.
    proof fn lemma_known(self, p: Seq<Seq<char>>)
        requires
            self.wf(),
        ensures
            is_known(self.table(), p) == (self.node_at(p) is Some),
        decreases p.len(),
    {
        if p.len() > 0 {
            let name = p[0];
            let rest = p.skip(1);
            assert(p =~= seq![name] + rest);
            self.lemma_table_child(name, rest);
            match self.child(name) {
                Some(child) => {
                    self.lemma_child_wf(name);
                    child.lemma_known(rest);
                    if is_known(child.table(), rest) {
                        let q = if rest.len() == 0 {
                            child.lemma_live()
                        } else {
                            choose|q: Seq<Seq<char>>| #[trigger]
                                child.table().contains_key(q) && rest.is_prefix_of(q)
                        };
                        self.lemma_table_child(name, q);
                        assert(p =~= (seq![name] + q).subrange(0, p.len() as int));
                        assert(self.table().contains_key(seq![name] + q));
                    }
                    if is_known(self.table(), p) {
                        let q = choose|q: Seq<Seq<char>>| #[trigger]
                            self.table().contains_key(q) && p.is_prefix_of(q);
                        assert(q[0] == q.subrange(0, p.len() as int)[0]);
                        assert(q =~= seq![name] + q.skip(1));
                        self.lemma_table_child(name, q.skip(1));
                        assert(rest =~= q.skip(1).subrange(0, rest.len() as int));
                    }
                },
                None => {
                    if is_known(self.table(), p) {
                        let q = choose|q: Seq<Seq<char>>| #[trigger]
                            self.table().contains_key(q) && p.is_prefix_of(q);
                        assert(q[0] == q.subrange(0, p.len() as int)[0]);
                        assert(q =~= seq![name] + q.skip(1));
                        self.lemma_table_child(name, q.skip(1));
                    }
                },
            }
        }
    }

    /// The handler of this node, as the nearest one.
    spec fn here(self) -> Option<int> {
        if self.handler is Nothing {
            None
        } else {
            Some(0)
        }
    }

    /// The nearest handler is below the child, or it is that of this node.
    proof fn lemma_nearest_child(self, name: Seq<char>, q: Seq<Seq<char>>)
        requires
            self.wf(),
        ensures
            nearest(self.table(), seq![name] + q) == match self.child(name) {
                Some(child) => match nearest(child.table(), q) {
                    Some(k) => Some(k + 1),
                    None => self.here(),
                },
                None => self.here(),
            },
        decreases q.len(),
    {
        let p = seq![name] + q;
        self.lemma_table_child(name, q);
        if q.len() == 0 {
            assert(p.drop_last() =~= seq![]);
            assert(nearest(self.table(), seq![]) == self.here());
        } else {
            assert(p.drop_last() =~= seq![name] + q.drop_last());
            self.lemma_nearest_child(name, q.drop_last());
        }
    }

    /// What the handler of this node does with a call that nothing below it handles.
    spec fn routed_above(self) -> RouteView {
        match self.handler {
            CallHandler::Nothing => RouteView::Unhandled,
            CallHandler::Queue(q) => RouteView::Queue(q),
            CallHandler::Intro => RouteView::Intro,
            CallHandler::Exact(_) => RouteView::Dropped,
            CallHandler::Drop => RouteView::Dropped,
        }
    }

    /// A call is routed below the child, or by the handler of this node.
    proof fn lemma_routed_child(self, name: Seq<char>, q: Seq<Seq<char>>)
        requires
            self.wf(),
        ensures
            match self.child(name) {
                Some(child) => routed(self.table(), seq![name] + q) == if routed(
                    child.table(),
                    q,
                ) is Unhandled {
                    self.routed_above()
                } else {
                    routed(child.table(), q)
                },
                None => routed(self.table(), seq![name] + q) == if self.handler is Intro {
                    RouteView::Dropped
                } else {
                    self.routed_above()
                },
            },
    {
        let p = seq![name] + q;
        self.lemma_nearest_child(name, q);
        assert(p.take(0) =~= seq![]);
        assert(p.take(1) =~= seq![name] + Seq::<Seq<char>>::empty());
        self.lemma_known(p.take(1));
        self.lemma_table_child(name, seq![]);
        if let Some(child) = self.child(name) {
            self.lemma_child_wf(name);
            if let Some(k) = nearest(child.table(), q) {
                lemma_nearest_in(child.table(), q);
                assert(p.take(k + 1) =~= seq![name] + q.take(k));
                self.lemma_table_child(name, q.take(k));
                if k < q.len() {
                    assert(p.take(k + 2) =~= seq![name] + q.take(k + 1));
                    self.lemma_table_child(name, q.take(k + 1));
                    self.lemma_known(p.take(k + 2));
                    child.lemma_known(q.take(k + 1));
                }
            }
        }
    }

    /// The route of the path that ends at this node.
    proof fn lemma_routed_here(self)
        ensures
            routed(self.table(), seq![]) == match self.handler {
                CallHandler::Exact(q) => RouteView::Queue(q),
                _ => self.routed_above(),
            },
    {
        let p: Seq<Seq<char>> = seq![];
        assert(nearest(self.table(), p) == self.here());
        assert(p.take(0) =~= p);
    }
}

/// The nearest handler is one.
proof fn lemma_nearest_in(table: Map<Seq<Seq<char>>, CallHandler>, p: Seq<Seq<char>>)
    ensures
        nearest(table, p) matches Some(k) ==> 0 <= k <= p.len() && table.contains_key(p.take(k)),
    decreases p.len(),
{
    if table.contains_key(p) {
        assert(p.take(p.len() as int) =~= p);
    } else if p.len() > 0 {
        lemma_nearest_in(table, p.drop_last());
        if let Some(k) = nearest(table, p.drop_last()) {
            assert(p.take(k) =~= p.drop_last().take(k));
        }
    }
}

/// The elements from `from` on.
spec fn rest<'a>(names: Seq<&'a str>, from: int) -> Seq<Seq<char>> {
    text::texts(names).skip(from)
}

proof fn lemma_rest<'a>(names: Seq<&'a str>, from: int)
    requires
        0 <= from <= names.len(),
    ensures
        rest(names, from).len() == names.len() - from,
        from == names.len() ==> rest(names, from) == Seq::<Seq<char>>::empty(),
        from < names.len() ==> rest(names, from) == seq![names[from]@] + rest(names, from + 1),
        from < names.len() ==> rest(names, from)[0] == names[from]@,
        from < names.len() ==> rest(names, from).skip(1) == rest(names, from + 1),
{
    if from < names.len() {
        assert(rest(names, from) =~= seq![names[from]@] + rest(names, from + 1));
        assert(rest(names, from).skip(1) =~= rest(names, from + 1));
    } else {
        assert(rest(names, from) =~= Seq::<Seq<char>>::empty());
    }
}

/// What happens to a call, and the node that its path leads to.
enum Status<'a> {
    Queue(&'a MsgQueue),
    Intro(Option<&'a Node>),
    Dropped,
    Unhandled(Option<&'a Node>),
}

impl<'a> Status<'a> {
    spec fn is_route(self, route: RouteView, node: Option<Node>) -> bool {
        match self {
            Status::Queue(q) => route == RouteView::Queue(*q),
            Status::Intro(at) => route is Intro && same_node(at, node),
            Status::Dropped => route is Dropped,
            Status::Unhandled(at) => route is Unhandled && same_node(at, node),
        }
    }
}

spec fn same_node<'a>(at: Option<&'a Node>, node: Option<Node>) -> bool {
    match at {
        Some(at) => node == Some(*at),
        None => node is None,
    }
}

impl Node {
    /// The position of the child with the given name.
    fn child_index(&self, name: &str) -> (index: Option<usize>)
        requires
            self.wf(),
        ensures
            match index {
                Some(i) => is_entry(self.children@, i as int, name@) && self.child(name@) == Some(
                    self.children@[i as int].1,
                ),
                None => self.child(name@) is None,
            },
    {
        let mut i: usize = 0;
        while i < self.children.len()
            invariant
                self.wf(),
                forall|j: int| 0 <= j < i ==> !is_entry(self.children@, j, name@),
                i <= self.children@.len(),
            decreases self.children@.len() - i,
        {
            if text::str_eq(self.children[i].0.as_str(), name) {
                proof {
                    self.lemma_child(i as int);
                }
                return Some(i);
            }
            i += 1;
        }
        None
    }

    fn send_inner(&self, names: &Vec<&str>, from: usize) -> (status: Status<'_>)
        requires
            self.wf(),
            from <= names@.len(),
        ensures
            status.is_route(
                routed(self.table(), rest(names@, from as int)),
                self.node_at(rest(names@, from as int)),
            ),
        decreases names@.len() - from,
    {
        proof {
            lemma_rest(names@, from as int);
        }
        if from < names.len() {
            let name = names[from];
            proof {
                self.lemma_routed_child(name@, rest(names@, from + 1));
                self.lemma_table_child(name@, rest(names@, from + 1));
            }
            match self.child_index(name) {
                Some(i) => {
                    proof {
                        self.lemma_child_wf(name@);
                    }
                    match self.children[i].1.send_inner(names, from + 1) {
                        Status::Unhandled(node) => match &self.handler {
                            CallHandler::Nothing => Status::Unhandled(node),
                            CallHandler::Queue(q) => Status::Queue(q),
                            CallHandler::Intro => Status::Intro(node),
                            CallHandler::Exact(_) | CallHandler::Drop => Status::Dropped,
                        },
                        handled => handled,
                    }
                },
                None => match &self.handler {
                    CallHandler::Queue(q) => Status::Queue(q),
                    CallHandler::Nothing => Status::Unhandled(None),
                    CallHandler::Intro | CallHandler::Exact(_) | CallHandler::Drop => {
                        Status::Dropped
                    },
                },
            }
        } else {
            proof {
                self.lemma_routed_here();
            }
            match &self.handler {
                CallHandler::Queue(q) | CallHandler::Exact(q) => Status::Queue(q),
                CallHandler::Nothing => Status::Unhandled(Some(self)),
                CallHandler::Drop => Status::Dropped,
                CallHandler::Intro => Status::Intro(Some(self)),
            }
        }
    }

    fn find_inner(&self, names: &Vec<&str>, from: usize) -> (handler: Option<&CallHandler>)
        requires
            self.wf(),
            from <= names@.len(),
        ensures
            match (handler, self.node_at(rest(names@, from as int))) {
                (Some(handler), Some(node)) => *handler == node.handler,
                (None, None) => true,
                _ => false,
            },
        decreases names@.len() - from,
    {
        proof {
            lemma_rest(names@, from as int);
        }
        if from < names.len() {
            match self.child_index(names[from]) {
                Some(i) => {
                    proof {
                        self.lemma_child_wf(names@[from as int]@);
                    }
                    self.children[i].1.find_inner(names, from + 1)
                },
                None => None,
            }
        } else {
            Some(&self.handler)
        }
    }

    /// The table with `child` in the place of the child `name`, or without it.
    spec fn with_child(self, name: Seq<char>, child: Option<Node>) -> Map<
        Seq<Seq<char>>,
        CallHandler,
    > {
        Map::new(
            |p: Seq<Seq<char>>|
                if p.len() > 0 && p[0] == name {
                    child matches Some(child) && child.table().contains_key(p.skip(1))
                } else {
                    self.table().contains_key(p)
                },
            |p: Seq<Seq<char>>|
                if p.len() > 0 && p[0] == name {
                    child->Some_0.table()[p.skip(1)]
                } else {
                    self.table()[p]
                },
        )
    }

    /// Two nodes that differ in one child.
    proof fn lemma_with_child(self, other: Node, name: Seq<char>)
        requires
            other.handler == self.handler,
            forall|n: Seq<char>| n != name ==> #[trigger] other.child(n) == self.child(n),
        ensures
            other.table() == self.with_child(name, other.child(name)),
    {
        let table = self.with_child(name, other.child(name));
        assert forall|p: Seq<Seq<char>>| #[trigger]
            other.table().contains_key(p) == table.contains_key(p) && (other.table().contains_key(
                p,
            ) ==> other.table()[p] == table[p]) by {
            if p.len() > 0 {
                assert(p =~= seq![p[0]] + p.skip(1));
                other.lemma_table_child(p[0], p.skip(1));
                self.lemma_table_child(p[0], p.skip(1));
            }
        }
        assert(other.table() =~= table);
    }

    /// What setting a handler below a child does to the table.
    proof fn lemma_inserted_child(self, name: Seq<char>, q: Seq<Seq<char>>, h: CallHandler, after: Option<Node>)
        requires
            self.wf(),
            self.child(name) is Some,
            after matches Some(after) ==> after.table() == inserted(
                self.child(name)->Some_0.table(),
                q,
                h,
            ),
            after is None ==> inserted(self.child(name)->Some_0.table(), q, h) == Map::<
                Seq<Seq<char>>,
                CallHandler,
            >::empty(),
        ensures
            self.with_child(name, after) == inserted(self.table(), seq![name] + q, h),
    {
        let child = self.child(name)->Some_0;
        let p = seq![name] + q;
        let below = inserted(child.table(), q, h);
        let table = inserted(self.table(), p, h);
        let result = self.with_child(name, after);
        assert(p.skip(1) =~= q);
        assert forall|x: Seq<Seq<char>>| #[trigger]
            result.contains_key(x) == table.contains_key(x) && (table.contains_key(x) ==> result[x]
                == table[x]) by {
            if x.len() > 0 && x[0] == name {
                let y = x.skip(1);
                assert(x =~= seq![name] + y);
                self.lemma_table_child(name, y);
                assert((x == p) == (y == q));
                assert(table.contains_key(x) == below.contains_key(y));
            } else {
                assert(p[0] == name);
                assert(x != p);
            }
        }
        assert(result =~= table);
    }
}

proof fn lemma_prefix_cons(name: Seq<char>, a: Seq<Seq<char>>, b: Seq<Seq<char>>)
    ensures
        (seq![name] + a).is_prefix_of(seq![name] + b) == a.is_prefix_of(b),
{
    let x = seq![name] + a;
    let y = seq![name] + b;
    if a.is_prefix_of(b) {
        assert(x =~= y.subrange(0, x.len() as int));
    }
    if x.is_prefix_of(y) {
        assert forall|i: int| 0 <= i < a.len() implies a[i] == b.subrange(0, a.len() as int)[i] by {
            assert(x[i + 1] == y.subrange(0, x.len() as int)[i + 1]);
        }
        assert(a =~= b.subrange(0, a.len() as int));
    }
}

impl Node {
    /// Children that are the same, but for the one with the given name.
    proof fn lemma_same_children(self, other: Node, name: Seq<char>, there: spec_fn(int) -> int, back: spec_fn(int) -> int)
        requires
            self.wf(),
            other.wf(),
            forall|j: int|
                0 <= j < self.children@.len() && (#[trigger] self.children@[j]).0@ != name ==> 0
                    <= there(j) < other.children@.len() && other.children@[there(j)]
                    == self.children@[j],
            forall|j: int|
                0 <= j < other.children@.len() && (#[trigger] other.children@[j]).0@ != name ==> 0
                    <= back(j) < self.children@.len() && self.children@[back(j)]
                    == other.children@[j],
        ensures
            forall|n: Seq<char>| n != name ==> #[trigger] other.child(n) == self.child(n),
    {
        assert forall|n: Seq<char>| n != name implies #[trigger] other.child(n) == self.child(n) by {
            if self.child(n) is Some {
                let j = choose|j: int| is_entry(self.children@, j, n);
                assert(is_entry(self.children@, j, n));
                self.lemma_child(j);
                other.lemma_child(there(j));
            } else if other.child(n) is Some {
                let j = choose|j: int| is_entry(other.children@, j, n);
                assert(is_entry(other.children@, j, n));
                assert(is_entry(self.children@, back(j), n));
            }
        }
    }

    proof fn lemma_child_updated(self, other: Node, i: int)
        requires
            self.wf(),
            0 <= i < self.children@.len(),
            other.handler == self.handler,
            other.children@.len() == self.children@.len(),
            forall|j: int|
                0 <= j < self.children@.len() && j != i ==> #[trigger] other.children@[j]
                    == self.children@[j],
            other.children@[i].0 == self.children@[i].0,
            other.children@[i].1.wf(),
            other.children@[i].1.live(),
        ensures
            other.wf(),
            other.table() == self.with_child(
                self.children@[i].0@,
                Some(other.children@[i].1),
            ),
    {
        let name = self.children@[i].0@;
        assert forall|j: int| 0 <= j < other.children@.len() implies (
        #[trigger] other.children@[j]).1.wf() && other.children@[j].1.live() by {
            if j != i {
                assert(self.children@[j].1.wf());
            }
        }
        assert forall|a: int, b: int| 0 <= a < b < other.children@.len() implies #[trigger] other.children@[a].0@
            != #[trigger] other.children@[b].0@ by {
            assert(self.children@[a].0@ != self.children@[b].0@);
        }
        self.lemma_same_children(other, name, |j: int| j, |j: int| j);
        other.lemma_child(i);
        self.lemma_with_child(other, name);
    }

    proof fn lemma_child_removed(self, other: Node, i: int)
        requires
            self.wf(),
            0 <= i < self.children@.len(),
            other.handler == self.handler,
            other.children@ == self.children@.remove(i),
        ensures
            other.wf(),
            other.table() == self.with_child(self.children@[i].0@, None),
    {
        let name = self.children@[i].0@;
        let there = |j: int| if j < i { j } else { j - 1 };
        let back = |j: int| if j < i { j } else { j + 1 };
        assert forall|j: int| 0 <= j < other.children@.len() implies (
        #[trigger] other.children@[j]).1.wf() && other.children@[j].1.live() by {
            assert(other.children@[j] == self.children@[back(j)]);
        }
        assert forall|a: int, b: int| 0 <= a < b < other.children@.len() implies #[trigger] other.children@[a].0@
            != #[trigger] other.children@[b].0@ by {
            assert(self.children@[back(a)].0@ != self.children@[back(b)].0@);
        }
        self.lemma_same_children(other, name, there, back);
        if other.child(name) is Some {
            let j = choose|j: int| is_entry(other.children@, j, name);
            assert(is_entry(other.children@, j, name));
            assert(self.children@[back(j)].0@ == self.children@[i].0@);
        }
        self.lemma_with_child(other, name);
    }

    proof fn lemma_child_pushed(self, other: Node, entry: (String, Node))
        requires
            self.wf(),
            self.child(entry.0@) is None,
            other.handler == self.handler,
            other.children@ == self.children@.push(entry),
            entry.1.wf(),
            entry.1.live(),
        ensures
            other.wf(),
            other.table() == self.with_child(entry.0@, Some(entry.1)),
    {
        let name = entry.0@;
        let last = self.children@.len() as int;
        assert forall|j: int| 0 <= j < self.children@.len() implies (
        #[trigger] self.children@[j]).0@ != name by {
            if self.children@[j].0@ == name {
                assert(is_entry(self.children@, j, name));
            }
        }
        assert forall|j: int| 0 <= j < other.children@.len() implies (
        #[trigger] other.children@[j]).1.wf() && other.children@[j].1.live() by {
            if j < last {
                assert(self.children@[j].1.wf());
            }
        }
        assert forall|a: int, b: int| 0 <= a < b < other.children@.len() implies #[trigger] other.children@[a].0@
            != #[trigger] other.children@[b].0@ by {
            assert(other.children@[a] == self.children@[a]);
            if b < last {
                assert(self.children@[a].0@ != self.children@[b].0@);
            }
        }
        self.lemma_same_children(other, name, |j: int| j, |j: int| j);
        other.lemma_child(last);
        self.lemma_with_child(other, name);
    }

    /// What setting a handler below a child that is not there does to the table.
    proof fn lemma_inserted_new(self, name: Seq<char>, q: Seq<Seq<char>>, h: CallHandler, after: Node)
        requires
            self.wf(),
            self.child(name) is None,
            h !is Nothing,
            after.table() == Map::<Seq<Seq<char>>, CallHandler>::empty().insert(q, h),
        ensures
            self.with_child(name, Some(after)) == inserted(self.table(), seq![name] + q, h),
    {
        let p = seq![name] + q;
        let table = inserted(self.table(), p, h);
        let result = self.with_child(name, Some(after));
        assert(p.skip(1) =~= q);
        assert forall|x: Seq<Seq<char>>| #[trigger]
            result.contains_key(x) == table.contains_key(x) && (table.contains_key(x) ==> result[x]
                == table[x]) by {
            if x.len() > 0 && x[0] == name {
                assert(x =~= seq![name] + x.skip(1));
                self.lemma_table_child(name, x.skip(1));
            }
        }
        assert(result =~= table);
    }

    fn insert_inner(&mut self, names: &Vec<&str>, from: usize, handler: CallHandler) -> (kept: bool)
        requires
            old(self).wf(),
            from <= names@.len(),
        ensures
            final(self).wf(),
            final(self).table() == inserted(
                old(self).table(),
                rest(names@, from as int),
                handler,
            ),
            kept == final(self).live(),
        decreases names@.len() - from,
    {
        let ghost p = rest(names@, from as int);
        proof {
            lemma_rest(names@, from as int);
        }
        if from < names.len() {
            let name = names[from];
            let ghost q = rest(names@, from + 1);
            match self.child_index(name) {
                Some(i) => {
                    let ghost before = *self;
                    proof {
                        self.lemma_child_wf(name@);
                    }
                    let kept = self.children[i].1.insert_inner(names, from + 1, handler);
                    proof {
                        let after = self.children@[i as int].1;
                        if !kept {
                            after.lemma_not_live();
                        }
                        before.lemma_inserted_child(
                            name@,
                            q,
                            handler,
                            if kept {
                                Some(after)
                            } else {
                                None
                            },
                        );
                        if kept {
                            before.lemma_child_updated(*self, i as int);
                        }
                    }
                    if kept {
                        true
                    } else {
                        self.children.remove(i);
                        proof {
                            assert(self.children@ =~= before.children@.remove(i as int));
                            before.lemma_child_removed(*self, i as int);
                        }
                        !(self.children.len() == 0 && self.handler.is_nothing())
                    }
                },
                None => {
                    let mut node = Node { children: Vec::new(), handler: CallHandler::Nothing };
                    let ghost fresh = node;
                    proof {
                        fresh.lemma_not_live();
                    }
                    let kept = node.insert_inner(names, from + 1, handler);
                    proof {
                        if handler is Nothing {
                            if node.live() {
                                let x = node.lemma_live();
                                assert(fresh.table().contains_key(x));
                            }
                        } else if !node.live() {
                            node.lemma_not_live();
                            assert(node.table().contains_key(q));
                        }
                    }
                    if kept {
                        let ghost before = *self;
                        let ghost after = node;
                        self.children.push((name.to_owned(), node));
                        proof {
                            before.lemma_child_pushed(*self, self.children@.last());
                            before.lemma_inserted_new(name@, q, handler, after);
                        }
                        true
                    } else {
                        proof {
                            self.lemma_table_child(name@, q);
                            assert(self.table().remove(p) =~= self.table());
                        }
                        !(self.children.len() == 0 && self.handler.is_nothing())
                    }
                },
            }
        } else {
            let ghost before = *self;
            self.handler = handler;
            proof {
                assert forall|x: Seq<Seq<char>>| #[trigger]
                    self.table().contains_key(x) == inserted(before.table(), p, handler).contains_key(
                        x,
                    ) && (self.table().contains_key(x) ==> self.table()[x] == inserted(
                    before.table(),
                    p,
                    handler,
                )[x]) by {
                    if x.len() > 0 {
                        assert(self.child(x[0]) == before.child(x[0]));
                    } else {
                        assert(x =~= p);
                    }
                }
                assert(self.table() =~= inserted(before.table(), p, handler));
            }
            if self.handler.is_nothing() {
                self.children.len() != 0
            } else {
                true
            }
        }
    }
}

impl Node {
    /// A call below a child belongs to the queues below the child.
    proof fn lemma_matched_child(self, name: Seq<char>, o: Seq<Seq<char>>, m: Seq<Seq<char>>)
        requires
            self.wf(),
        ensures
            matched(self.table(), seq![name] + o, seq![name] + m) == match self.child(name) {
                Some(child) => matched(child.table(), o, m),
                None => false,
            },
    {
        let org = seq![name] + o;
        let msg = seq![name] + m;
        lemma_prefix_cons(name, o, m);
        self.lemma_nearest_child(name, m);
        lemma_nearest_in(self.table(), msg);
        if let Some(child) = self.child(name) {
            self.lemma_child_wf(name);
            lemma_nearest_in(child.table(), m);
            self.lemma_table_child(name, o);
            if o.is_prefix_of(m) {
                assert(m.take(o.len() as int) =~= o);
                if o.len() < m.len() {
                    let x = m.take(o.len() as int + 1);
                    assert(msg.take(org.len() as int + 1) =~= seq![name] + x);
                    self.lemma_table_child(name, x);
                    self.lemma_known(seq![name] + x);
                    child.lemma_known(x);
                }
            }
        }
    }

    /// Whether a call from further below belongs to the queue of this node.
    proof fn lemma_matched_below(self, name: Seq<char>, m: Seq<Seq<char>>)
        requires
            self.wf(),
        ensures
            matched(self.table(), seq![], seq![name] + m) == match self.child(name) {
                Some(child) => routed(child.table(), m) is Unhandled
                    && self.handler.spec_queue() is Some,
                None => self.handler is Queue,
            },
    {
        let org: Seq<Seq<char>> = seq![];
        let msg = seq![name] + m;
        assert(org =~= msg.subrange(0, 0));
        self.lemma_nearest_child(name, m);
        assert(msg.take(1) =~= seq![name] + Seq::<Seq<char>>::empty());
        self.lemma_table_child(name, seq![]);
        self.lemma_known(msg.take(1));
        if let Some(child) = self.child(name) {
            lemma_nearest_in(child.table(), m);
        }
    }

    fn is_match_inner(&self, org: &Vec<&str>, msg: &Vec<&str>, from: usize) -> (matches: bool)
        requires
            self.wf(),
            from <= org@.len(),
            from <= msg@.len(),
        ensures
            matches == matched(
                self.table(),
                rest(org@, from as int),
                rest(msg@, from as int),
            ),
        decreases org@.len() - from,
    {
        proof {
            lemma_rest(org@, from as int);
            lemma_rest(msg@, from as int);
        }
        if from < msg.len() {
            if from < org.len() {
                let ghost o = rest(org@, from as int);
                let ghost m = rest(msg@, from as int);
                if text::str_eq(org[from], msg[from]) {
                    proof {
                        self.lemma_matched_child(
                            org@[from as int]@,
                            rest(org@, from + 1),
                            rest(msg@, from + 1),
                        );
                    }
                    match self.child_index(org[from]) {
                        Some(i) => {
                            proof {
                                self.lemma_child_wf(org@[from as int]@);
                            }
                            self.children[i].1.is_match_inner(org, msg, from + 1)
                        },
                        None => false,
                    }
                } else {
                    proof {
                        if o.is_prefix_of(m) {
                            assert(o[0] == m.subrange(0, o.len() as int)[0]);
                        }
                    }
                    false
                }
            } else {
                proof {
                    self.lemma_matched_below(msg@[from as int]@, rest(msg@, from + 1));
                }
                match self.child_index(msg[from]) {
                    Some(i) => {
                        proof {
                            self.lemma_child_wf(msg@[from as int]@);
                        }
                        match self.children[i].1.send_inner(msg, from + 1) {
                            Status::Unhandled(_) => self.handler.get_queue().is_some(),
                            _ => false,
                        }
                    },
                    None => matches!(self.handler, CallHandler::Queue(_)),
                }
            }
        } else if from < org.len() {
            false
        } else {
            proof {
                let p: Seq<Seq<char>> = seq![];
                assert(p =~= p.subrange(0, 0));
                assert(nearest(self.table(), p) == self.here());
            }
            self.handler.get_queue().is_some()
        }
    }

    /// A child of a node is what the longer path leads to.
    proof fn lemma_node_below(self, p: Seq<Seq<char>>, name: Seq<char>)
        ensures
            self.node_at(p.push(name)) == match self.node_at(p) {
                Some(node) => node.child(name),
                None => None,
            },
        decreases p.len(),
    {
        let q = p.push(name);
        if p.len() == 0 {
            assert(q =~= seq![name] + Seq::<Seq<char>>::empty());
            self.lemma_table_child(name, seq![]);
        } else {
            assert(q.skip(1) =~= p.skip(1).push(name));
            if let Some(child) = self.child(p[0]) {
                child.lemma_node_below(p.skip(1), name);
            }
        }
    }

    /// What a path leads to is well formed.
    proof fn lemma_node_wf(self, p: Seq<Seq<char>>)
        requires
            self.wf(),
        ensures
            self.node_at(p) matches Some(node) ==> node.wf(),
        decreases p.len(),
    {
        if p.len() > 0 {
            if let Some(child) = self.child(p[0]) {
                self.lemma_child_wf(p[0]);
                child.lemma_node_wf(p.skip(1));
            }
        }
    }

    /// The names of the children whose calls are not dropped.
    fn offered(&self) -> (names: Vec<&str>)
        requires
            self.wf(),
        ensures
            text::texts(names@).no_duplicates(),
            forall|n: Seq<char>| #[trigger]
                text::texts(names@).contains(n) <==> (self.child(n) matches Some(child)
                    && child.handler !is Drop),
    {
        let mut names: Vec<&str> = Vec::new();
        let mut i: usize = 0;
        proof {
            assert(self.children@.take(0) =~= seq![]);
            assert(offered_names(seq![]) =~= text::texts(names@));
        }
        while i < self.children.len()
            invariant
                i <= self.children@.len(),
                text::texts(names@) == offered_names(self.children@.take(i as int)),
            decreases self.children@.len() - i,
        {
            let ghost before = names@;
            proof {
                let next = self.children@.take(i + 1);
                assert(next.drop_last() =~= self.children@.take(i as int));
                assert(next.last() == self.children@[i as int]);
            }
            if !matches!(self.children[i].1.handler, CallHandler::Drop) {
                names.push(self.children[i].0.as_str());
                assert(text::texts(names@) =~= text::texts(before).push(
                    self.children@[i as int].0@,
                ));
            }
            i += 1;
        }
        proof {
            assert(self.children@.take(i as int) =~= self.children@);
            lemma_offered(self.children@);
            assert forall|n: Seq<char>| #[trigger]
                text::texts(names@).contains(n) <==> (self.child(n) matches Some(child)
                    && child.handler !is Drop) by {
                if text::texts(names@).contains(n) {
                    let j = choose|j: int|
                        #[trigger] is_entry(self.children@, j, n)
                            && self.children@[j].1.handler !is Drop;
                    self.lemma_child(j);
                }
                if self.child(n) is Some {
                    let j = choose|j: int| is_entry(self.children@, j, n);
                    assert(is_entry(self.children@, j, n));
                    self.lemma_child(j);
                }
            }
        }
        names
    }
}

/// The names of the children whose calls are not dropped.
spec fn offered_names(children: Seq<(String, Node)>) -> Seq<Seq<char>>
    decreases children.len(),
{
    if children.len() == 0 {
        seq![]
    } else if children.last().1.handler is Drop {
        offered_names(children.drop_last())
    } else {
        offered_names(children.drop_last()).push(children.last().0@)
    }
}

proof fn lemma_offered(children: Seq<(String, Node)>)
    requires
        forall|i: int, j: int|
            0 <= i < j < children.len() ==> #[trigger] children[i].0@ != #[trigger] children[j].0@,
    ensures
        offered_names(children).no_duplicates(),
        forall|n: Seq<char>| #[trigger]
            offered_names(children).contains(n) <==> exists|j: int| #[trigger]
                is_entry(children, j, n) && children[j].1.handler !is Drop,
    decreases children.len(),
{
    if children.len() > 0 {
        let front = children.drop_last();
        let last = children.last();
        let names = offered_names(children);
        lemma_offered(front);
        assert forall|i: int| 0 <= i < front.len() implies (#[trigger] front[i]).0@
            != last.0@ by {
            assert(children[i].0@ != children[children.len() - 1].0@);
        }
        assert(!offered_names(front).contains(last.0@));
        assert forall|n: Seq<char>| #[trigger] names.contains(n) <==> exists|j: int| #[trigger]
            is_entry(children, j, n) && children[j].1.handler !is Drop by {
            if offered_names(front).contains(n) {
                let j = choose|j: int| #[trigger]
                    is_entry(front, j, n) && front[j].1.handler !is Drop;
                assert(is_entry(children, j, n));
                let k = choose|k: int|
                    0 <= k < offered_names(front).len() && offered_names(front)[k] == n;
                assert(names[k] == n);
            }
            if n == last.0@ && last.1.handler !is Drop {
                assert(is_entry(children, children.len() - 1, n));
                assert(names[names.len() - 1] == n);
            }
            if exists|j: int| #[trigger]
                is_entry(children, j, n) && children[j].1.handler !is Drop {
                let j = choose|j: int| #[trigger]
                    is_entry(children, j, n) && children[j].1.handler !is Drop;
                if j < front.len() {
                    assert(is_entry(front, j, n));
                }
            }
            if names.contains(n) && n != last.0@ {
                let k = choose|k: int| 0 <= k < names.len() && names[k] == n;
                assert(offered_names(front)[k] == n);
            }
        }
    }
}

/// What happens to a call.
pub enum Route<'a> {
    /// It is queued.
    Queue(&'a MsgQueue),
    /// It is answered with the names of the paths directly below.
    Intro(Vec<&'a str>),
    /// It is answered with an error.
    Dropped,
    /// No handler was set.
    Unhandled,
}

/// The handlers of incoming calls.
#[derive(Debug)]
pub struct CallHierarchy {
    root: Node,
}

impl View for CallHierarchy {
    type V = Map<Seq<Seq<char>>, CallHandler>;

    closed spec fn view(&self) -> Map<Seq<Seq<char>>, CallHandler> {
        self.root.table()
    }
}

impl CallHierarchy {
    #[verifier::type_invariant]
    spec fn inv(self) -> bool {
        self.root.wf()
    }

    /// A hierarchy that drops all calls.
    pub fn new() -> (hierarchy: Self)
        ensures
            hierarchy@ == map![Seq::<Seq<char>>::empty() => CallHandler::Drop],
    {
        let root = Node { children: Vec::new(), handler: CallHandler::Drop };
        proof {
            let table = map![Seq::<Seq<char>>::empty() => CallHandler::Drop];
            assert forall|p: Seq<Seq<char>>| #[trigger]
                root.table().contains_key(p) == table.contains_key(p) by {
                if p.len() > 0 {
                    assert(root.child(p[0]) is None);
                } else {
                    assert(p =~= seq![]);
                }
            }
            assert(root.table() =~= table);
        }
        CallHierarchy { root }
    }

    /// What happens to a call for `path`.
    pub fn route(&self, path: ObjectPath<'_>) -> (route: Route<'_>)
        ensures
            match route {
                Route::Queue(q) => routed(self@, path.elements()) == RouteView::Queue(*q),
                Route::Intro(names) => {
                    &&& routed(self@, path.elements()) is Intro
                    &&& listed(self@, path.elements(), text::texts(names@))
                },
                Route::Dropped => routed(self@, path.elements()) is Dropped,
                Route::Unhandled => routed(self@, path.elements()) is Unhandled,
            },
    {
        let names = path.components();
        let ghost p = path.elements();
        proof {
            use_type_invariant(self);
            assert(rest(names@, 0) =~= p);
        }
        match self.root.send_inner(&names, 0) {
            Status::Queue(q) => Route::Queue(q),
            Status::Intro(node) => {
                proof {
                    assert forall|n: Seq<char>| #[trigger]
                        is_known(self@, p.push(n)) == (self.root.node_at(p) matches Some(node)
                            && node.child(n) is Some) && (self@.contains_key(p.push(n))
                            && self@[p.push(n)] is Drop) == (self.root.node_at(p) matches Some(node)
                            && node.child(n) matches Some(child) && child.handler is Drop) by {
                        self.root.lemma_known(p.push(n));
                        self.root.lemma_node_below(p, n);
                    }
                    self.root.lemma_node_wf(p);
                }
                match node {
                    Some(node) => Route::Intro(node.offered()),
                    None => {
                        let none: Vec<&str> = Vec::new();
                        assert(text::texts(none@) =~= seq![]);
                        Route::Intro(none)
                    },
                }
            },
            Status::Dropped => Route::Dropped,
            Status::Unhandled(_) => Route::Unhandled,
        }
    }

    /// Queues a call, or makes the answer to it. A call for a queue that was closed is answered
    /// like one for an object that is not there.
    pub fn send(&self, msg: MarshalledMessage) -> (result: Result<(), MarshalledMessage>)
        requires
            msg.dynheader@.object matches Some(object) && path::valid_path(object),
        ensures
            match routed(self@, path::elements(msg.dynheader@.object->Some_0)) {
                RouteView::Queue(q) => {
                    &&& queue::offered(q.channel(), msg@, result is Ok)
                    &&& result matches Err(reply) ==> reply@ == replies::error_reply(
                        msg.dynheader@,
                        replies::UNKNOWN_OBJECT@,
                    )
                },
                RouteView::Intro => result matches Err(reply) && exists|names: Seq<Seq<char>>|
                    {
                        &&& #[trigger] listed(
                            self@,
                            path::elements(msg.dynheader@.object->Some_0),
                            names,
                        )
                        &&& reply@ == replies::intro_reply(msg.dynheader@, names)
                    },
                _ => result matches Err(reply) && reply@ == replies::error_reply(
                    msg.dynheader@,
                    replies::UNKNOWN_OBJECT@,
                ),
            },
    {
        let route = match &msg.dynheader.object {
            Some(object) => match ObjectPath::new(object.as_str()) {
                Ok(path) => self.route(path),
                Err(_) => Route::Dropped,
            },
            None => Route::Dropped,
        };
        match route {
            Route::Queue(queue) => match queue.send(msg) {
                Ok(()) => Ok(()),
                Err(back) => Err(replies::make_object_not_found(&back)),
            },
            Route::Intro(names) => Err(replies::make_intro_msg(&msg, &names)),
            Route::Unhandled | Route::Dropped => Err(replies::make_object_not_found(&msg)),
        }
    }

    /// Sets what is done with the calls for a path.
    pub fn insert_path(&mut self, path: ObjectPath<'_>, action: CallAction)
        ensures
            exists|handler: CallHandler| #[trigger]
                handler.spec_action() == action && final(self)@ == inserted(
                    old(self)@,
                    path.elements(),
                    handler,
                ) && (handler.spec_queue() matches Some(q) ==> queue::limit(q.channel()) is None),
            final(self)@.remove(path.elements()) == old(self)@.remove(path.elements()),
            final(self)@.contains_key(path.elements()) <==> action !is Nothing,
            action is Queue ==> final(self)@[path.elements()] is Queue,
            action is Exact ==> final(self)@[path.elements()] is Exact,
            action is Intro ==> final(self)@[path.elements()] is Intro,
            action is Drop ==> final(self)@[path.elements()] is Drop,
    {
        let names = path.components();
        proof {
            use_type_invariant(&*self);
            assert(rest(names@, 0) =~= path.elements());
        }
        let handler = CallHandler::from_action(action);
        let ghost h = handler;
        let mut root = Node { children: Vec::new(), handler: CallHandler::Drop };
        std::mem::swap(&mut root, &mut self.root);
        root.insert_inner(&names, 0, handler);
        self.root = root;
        assert(h.spec_action() == action);
        assert(self@.remove(path.elements()) =~= old(self)@.remove(path.elements()));
    }

    fn find_handler(&self, path: ObjectPath<'_>) -> (handler: Option<&CallHandler>)
        ensures
            match handler {
                Some(handler) => {
                    &&& is_known(self@, path.elements())
                    &&& self@.contains_key(path.elements()) == (handler !is Nothing)
                    &&& handler !is Nothing ==> self@[path.elements()] == *handler
                },
                None => !is_known(self@, path.elements()) && !self@.contains_key(path.elements()),
            },
    {
        let names = path.components();
        proof {
            use_type_invariant(self);
            assert(rest(names@, 0) =~= path.elements());
            self.root.lemma_known(path.elements());
        }
        self.root.find_inner(&names, 0)
    }

    /// The queue of the path, if it has one.
    pub fn get_queue(&self, path: ObjectPath<'_>) -> (queue: Option<&MsgQueue>)
        ensures
            match queue {
                Some(queue) => self@.contains_key(path.elements())
                    && self@[path.elements()].spec_queue() == Some(*queue),
                None => self@.contains_key(path.elements()) ==> self@[path.elements()].spec_queue()
                    is None,
            },
    {
        match self.find_handler(path) {
            Some(handler) => handler.get_queue(),
            None => None,
        }
    }

    /// The action of the path, if it is known.
    pub fn get_action(&self, path: ObjectPath<'_>) -> (action: Option<CallAction>)
        ensures
            action == action_at(self@, path.elements()),
    {
        match self.find_handler(path) {
            Some(handler) => Some(handler.action()),
            None => None,
        }
    }

    /// Whether a call for `msg_path` belongs to the queue of `org_path`.
    pub fn is_match(&self, org_path: ObjectPath<'_>, msg_path: ObjectPath<'_>) -> (matches: bool)
        ensures
            matches == matched(self@, org_path.elements(), msg_path.elements()),
    {
        let org = org_path.components();
        let msg = msg_path.components();
        proof {
            use_type_invariant(self);
            assert(rest(org@, 0) =~= org_path.elements());
            assert(rest(msg@, 0) =~= msg_path.elements());
        }
        self.root.is_match_inner(&org, &msg, 0)
    }

    /// Whether no path but the root is known.
    pub fn is_trimmed(&self) -> (trimmed: bool)
        ensures
            trimmed == (forall|p: Seq<Seq<char>>| #[trigger] is_known(self@, p) ==> p.len() == 0),
    {
        proof {
            use_type_invariant(self);
            if self.root.children@.len() > 0 {
                let name = self.root.children@[0].0@;
                self.root.lemma_child(0);
                let p = seq![name] + Seq::<Seq<char>>::empty();
                self.root.lemma_table_child(name, seq![]);
                self.root.lemma_known(p);
                assert(is_known(self@, p));
            } else {
                assert forall|p: Seq<Seq<char>>| #[trigger] is_known(self@, p) implies p.len()
                    == 0 by {
                    self.root.lemma_known(p);
                    if p.len() > 0 {
                        assert(self.root.child(p[0]) is None);
                    }
                }
            }
        }
        self.root.children.len() == 0
    }
}

// ---------------------------------------------------------------------------
// Laws
// ---------------------------------------------------------------------------

/// Before any handler was set, every call is dropped.
pub proof fn law_default_drops(p: Seq<Seq<char>>)
    ensures
        routed(map![Seq::<Seq<char>>::empty() => CallHandler::Drop], p) is Dropped,
{
    let table = map![Seq::<Seq<char>>::empty() => CallHandler::Drop];
    lemma_nearest_root(table, p);
    assert(p.take(0) =~= seq![]);
}

proof fn lemma_nearest_root(table: Map<Seq<Seq<char>>, CallHandler>, p: Seq<Seq<char>>)
    requires
        table == map![Seq::<Seq<char>>::empty() => CallHandler::Drop],
    ensures
        nearest(table, p) == Some(0int),
    decreases p.len(),
{
    if p.len() == 0 {
        assert(p =~= seq![]);
    } else {
        lemma_nearest_root(table, p.drop_last());
    }
}

/// An action that was set is the one that is found. Where it was taken away, none is.
pub proof fn law_insert_sets(
    table: Map<Seq<Seq<char>>, CallHandler>,
    p: Seq<Seq<char>>,
    h: CallHandler,
)
    ensures
        h !is Nothing ==> action_at(inserted(table, p, h), p) == Some(h.spec_action()),
        h is Nothing ==> (action_at(inserted(table, p, h), p) matches Some(action) ==> action
            is Nothing),
{
}

/// Setting an action for one path leaves the handlers of the other paths as they are.
pub proof fn law_insert_keeps_others(
    table: Map<Seq<Seq<char>>, CallHandler>,
    p: Seq<Seq<char>>,
    h: CallHandler,
    q: Seq<Seq<char>>,
)
    requires
        q != p,
    ensures
        inserted(table, p, h).contains_key(q) == table.contains_key(q),
        table.contains_key(q) ==> inserted(table, p, h)[q] == table[q],
{
}

/// Setting an action and taking it away again leaves the handlers of all other paths, and none
/// for the path.
pub proof fn law_insert_undone(
    table: Map<Seq<Seq<char>>, CallHandler>,
    p: Seq<Seq<char>>,
    h: CallHandler,
)
    requires
        h !is Nothing,
    ensures
        inserted(inserted(table, p, h), p, CallHandler::Nothing) == table.remove(p),
{
    assert(inserted(inserted(table, p, h), p, CallHandler::Nothing) =~= table.remove(p));
}

/// A call that belongs to the queue of a path is put into that queue. The exception is a
/// handler for one path and a call from below it.
pub proof fn law_matched_is_queued(
    table: Map<Seq<Seq<char>>, CallHandler>,
    org: Seq<Seq<char>>,
    msg: Seq<Seq<char>>,
)
    requires
        matched(table, org, msg),
        !(table[org] is Exact && org.len() < msg.len()),
    ensures
        table[org].spec_queue() matches Some(queue) && routed(table, msg) == RouteView::Queue(
            queue,
        ),
{
    assert(msg.take(org.len() as int) =~= org);
}

/// A call that is put into a queue belongs to the queue of a path that it starts with.
pub proof fn law_queued_is_matched(
    table: Map<Seq<Seq<char>>, CallHandler>,
    msg: Seq<Seq<char>>,
    queue: MsgQueue,
)
    requires
        routed(table, msg) == RouteView::Queue(queue),
    ensures
        exists|k: int|
            0 <= k <= msg.len() && #[trigger] matched(table, msg.take(k), msg)
                && table[msg.take(k)].spec_queue() == Some(queue),
{
    lemma_nearest_in(table, msg);
    let k = nearest(table, msg)->Some_0;
    assert(msg.take(k) =~= msg.subrange(0, k));
    assert(msg.take(k).is_prefix_of(msg));
    assert(matched(table, msg.take(k), msg));
}

/// A handler that is set for a path changes nothing for the calls of paths that do not lie at
/// or below it. The exception are calls that a handler for introspection answers, which depend
/// on the paths that are known.
pub proof fn law_insert_routes_below(
    table: Map<Seq<Seq<char>>, CallHandler>,
    p: Seq<Seq<char>>,
    h: CallHandler,
    msg: Seq<Seq<char>>,
)
    requires
        !p.is_prefix_of(msg),
        nearest(table, msg) matches Some(k) ==> table[msg.take(k)] !is Intro,
    ensures
        routed(inserted(table, p, h), msg) == routed(table, msg),
{
    lemma_nearest_kept(table, p, h, msg);
    lemma_nearest_in(table, msg);
    if let Some(k) = nearest(table, msg) {
        if msg.take(k) == p {
            assert(p =~= msg.subrange(0, k));
        }
    }
}

proof fn lemma_nearest_kept(
    table: Map<Seq<Seq<char>>, CallHandler>,
    p: Seq<Seq<char>>,
    h: CallHandler,
    msg: Seq<Seq<char>>,
)
    requires
        !p.is_prefix_of(msg),
    ensures
        nearest(inserted(table, p, h), msg) == nearest(table, msg),
    decreases msg.len(),
{
    if msg == p {
        assert(p =~= msg.subrange(0, p.len() as int));
    }
    if msg.len() > 0 {
        let front = msg.drop_last();
        if p.is_prefix_of(front) {
            assert(p =~= msg.subrange(0, p.len() as int));
        }
        lemma_nearest_kept(table, p, h, front);
    }
}

/// Of the paths with a handler that `p` starts with, the longest one has `k` elements.
pub open spec fn decided_at(
    table: Map<Seq<Seq<char>>, CallHandler>,
    p: Seq<Seq<char>>,
    k: int,
) -> bool {
    &&& 0 <= k <= p.len()
    &&& table.contains_key(p.take(k))
    &&& forall|j: int| k < j <= p.len() ==> !table.contains_key(#[trigger] p.take(j))
}

/// A handler was set for a path that starts with the first `k` elements of `p`.
pub open spec fn leads_on(
    table: Map<Seq<Seq<char>>, CallHandler>,
    p: Seq<Seq<char>>,
    k: int,
) -> bool {
    exists|q: Seq<Seq<char>>| #[trigger]
        table.contains_key(q) && k <= q.len() && q.take(k) == p.take(k)
}

proof fn lemma_leads_on(table: Map<Seq<Seq<char>>, CallHandler>, p: Seq<Seq<char>>, k: int)
    requires
        0 < k <= p.len(),
    ensures
        is_known(table, p.take(k)) <==> leads_on(table, p, k),
{
    let start = p.take(k);
    if is_known(table, start) {
        let q = choose|q: Seq<Seq<char>>| #[trigger]
            table.contains_key(q) && start.is_prefix_of(q);
        assert(q.take(k) =~= start);
    }
    if leads_on(table, p, k) {
        let q = choose|q: Seq<Seq<char>>| #[trigger]
            table.contains_key(q) && k <= q.len() && q.take(k) == p.take(k);
        assert(start =~= q.subrange(0, start.len() as int));
    }
}

proof fn lemma_decided(table: Map<Seq<Seq<char>>, CallHandler>, p: Seq<Seq<char>>)
    ensures
        match nearest(table, p) {
            Some(k) => decided_at(table, p, k),
            None => forall|j: int| 0 <= j <= p.len() ==> !table.contains_key(#[trigger] p.take(j)),
        },
    decreases p.len(),
{
    assert(p.take(p.len() as int) =~= p);
    if !table.contains_key(p) && p.len() > 0 {
        let front = p.drop_last();
        lemma_decided(table, front);
        assert forall|j: int| 0 <= j < p.len() implies #[trigger] p.take(j) == front.take(j) by {
            assert(p.take(j) =~= front.take(j));
        }
    } else if p.len() == 0 {
        assert forall|j: int| 0 <= j <= p.len() implies #[trigger] p.take(j) == p by {
            assert(p.take(j) =~= p);
        }
    }
}

/// The handler of the longest path that a call's path starts with decides what happens to the
/// call: a queue takes it; a queue for one path takes it only for that path itself; a handler
/// for introspection answers it for its own path and on the way to other handlers; and anything
/// else drops it. A call is left unhandled only where no such path has a handler.
pub proof fn law_longest_path_decides(
    table: Map<Seq<Seq<char>>, CallHandler>,
    p: Seq<Seq<char>>,
    k: int,
)
    requires
        decided_at(table, p, k),
    ensures
        match table[p.take(k)] {
            CallHandler::Queue(q) => routed(table, p) == RouteView::Queue(q),
            CallHandler::Exact(q) => {
                &&& k == p.len() ==> routed(table, p) == RouteView::Queue(q)
                &&& k < p.len() ==> routed(table, p) is Dropped
            },
            CallHandler::Intro => {
                &&& k == p.len() ==> routed(table, p) is Intro
                &&& k < p.len() && leads_on(table, p, k + 1) ==> routed(table, p) is Intro
                &&& k < p.len() && !leads_on(table, p, k + 1) ==> routed(table, p) is Dropped
            },
            CallHandler::Drop => routed(table, p) is Dropped,
            CallHandler::Nothing => routed(table, p) is Unhandled,
        },
{
    lemma_decided(table, p);
    if k < p.len() {
        lemma_leads_on(table, p, k + 1);
    }
    match nearest(table, p) {
        Some(n) => {
            if n < k {
                assert(!table.contains_key(p.take(k)));
            } else if n > k {
                assert(!table.contains_key(p.take(n)));
            }
        },
        None => {
            assert(!table.contains_key(p.take(k)));
        },
    }
}

/// A call for a path that starts with no path that has a handler is unhandled.
pub proof fn law_unhandled_without_handler(
    table: Map<Seq<Seq<char>>, CallHandler>,
    p: Seq<Seq<char>>,
)
    requires
        forall|j: int| 0 <= j <= p.len() ==> !table.contains_key(#[trigger] p.take(j)),
    ensures
        routed(table, p) is Unhandled,
{
    lemma_decided(table, p);
    if let Some(k) = nearest(table, p) {
        assert(!table.contains_key(p.take(k)));
    }
}

/// A call belongs to the queue of a path if that path has a queue, is the longest one with a
/// handler that the call's path starts with, and either takes what lies below it too or is the
/// call's path itself or lies on the way from it to another handler.
pub proof fn law_belongs_to_longest_path(
    table: Map<Seq<Seq<char>>, CallHandler>,
    org: Seq<Seq<char>>,
    msg: Seq<Seq<char>>,
)
    ensures
        matched(table, org, msg) <==> {
            &&& org.len() <= msg.len()
            &&& msg.take(org.len() as int) == org
            &&& decided_at(table, msg, org.len() as int)
            &&& table[org] is Queue || table[org] is Exact
            &&& table[org] is Exact ==> org == msg || leads_on(table, msg, org.len() as int + 1)
        },
{
    lemma_decided(table, msg);
    let k = org.len() as int;
    if org.is_prefix_of(msg) {
        assert(msg.take(k) =~= org);
    }
    if k <= msg.len() && msg.take(k) == org {
        assert(org =~= msg.subrange(0, k));
        if k == msg.len() {
            assert(org =~= msg);
        } else {
            lemma_leads_on(table, msg, k + 1);
        }
        if decided_at(table, msg, k) {
            match nearest(table, msg) {
                Some(n) => {
                    if n < k {
                        assert(!table.contains_key(msg.take(k)));
                    } else if n > k {
                        assert(!table.contains_key(msg.take(n)));
                    }
                },
                None => {
                    assert(!table.contains_key(msg.take(k)));
                },
            }
        }
    }
}

/// The action of a path is that of its handler. A path without one has an action, which is to do
/// nothing, if it is the root or a path with a handler lies below it.
pub proof fn law_action_is_that_of_handler(
    table: Map<Seq<Seq<char>>, CallHandler>,
    p: Seq<Seq<char>>,
)
    ensures
        table.contains_key(p) ==> (action_at(table, p) matches Some(action) && {
            &&& action is Queue <==> table[p] is Queue
            &&& action is Exact <==> table[p] is Exact
            &&& action is Intro <==> table[p] is Intro
            &&& action is Nothing <==> table[p] is Nothing
            &&& action is Drop <==> table[p] is Drop
        }),
        !table.contains_key(p) ==> {
            &&& p.len() == 0 || leads_on(table, p, p.len() as int) ==> action_at(table, p) == Some(
                CallAction::Nothing,
            )
            &&& !(p.len() == 0 || leads_on(table, p, p.len() as int)) ==> action_at(table, p)
                is None
        },
{
    assert(p.take(p.len() as int) =~= p);
    if p.len() > 0 {
        lemma_leads_on(table, p, p.len() as int);
    }
}

/// The children that introspection lists are the names that come next in the paths with
/// handlers below, each once, but for those whose own handler drops calls.
pub proof fn law_listed_children(
    table: Map<Seq<Seq<char>>, CallHandler>,
    p: Seq<Seq<char>>,
    names: Seq<Seq<char>>,
    name: Seq<char>,
)
    requires
        listed(table, p, names),
    ensures
        names.no_duplicates(),
        names.contains(name) <==> {
            &&& leads_on(table, p.push(name), p.len() as int + 1)
            &&& !(table.contains_key(p.push(name)) && table[p.push(name)] is Drop)
        },
{
    let below = p.push(name);
    assert(below.take(below.len() as int) =~= below);
    lemma_leads_on(table, below, below.len() as int);
}

/// A handler that was set for a path is the one that decides about calls for it.
pub proof fn law_set_handler_decides(
    table: Map<Seq<Seq<char>>, CallHandler>,
    p: Seq<Seq<char>>,
    h: CallHandler,
)
    ensures
        inserted(table, p, h).remove(p) == table.remove(p),
        inserted(table, p, h).contains_key(p) <==> h !is Nothing,
        h !is Nothing ==> inserted(table, p, h)[p] == h && decided_at(
            inserted(table, p, h),
            p,
            p.len() as int,
        ),
        h matches CallHandler::Queue(q) ==> routed(inserted(table, p, h), p) == RouteView::Queue(q),
        h matches CallHandler::Exact(q) ==> routed(inserted(table, p, h), p) == RouteView::Queue(q),
        h is Intro ==> routed(inserted(table, p, h), p) is Intro,
        h is Drop ==> routed(inserted(table, p, h), p) is Dropped,
{
    assert(inserted(table, p, h).remove(p) =~= table.remove(p));
    assert(p.take(p.len() as int) =~= p);
}

/// A path is known if it is the root or the start of a path with a handler.
pub proof fn law_known_paths_lead_to_handlers(
    table: Map<Seq<Seq<char>>, CallHandler>,
    p: Seq<Seq<char>>,
)
    ensures
        is_known(table, p) <==> p.len() == 0 || leads_on(table, p, p.len() as int),
{
    assert(p.take(p.len() as int) =~= p);
    if p.len() > 0 {
        lemma_leads_on(table, p, p.len() as int);
    }
}

/// A handler has a queue if calls are put into one, whether for one path or for those below it
/// too.
pub proof fn law_queues_of_handlers(h: CallHandler)
    ensures
        h matches CallHandler::Queue(q) ==> h.spec_queue() == Some(q),
        h matches CallHandler::Exact(q) ==> h.spec_queue() == Some(q),
        h is Intro || h is Nothing || h is Drop ==> h.spec_queue() is None,
{
}

} // verus!
