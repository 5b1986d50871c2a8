//! The device: an arena of nodes under one root, the protocols that expose it, and the
//! subscribers to changes of its tree.
//!
//! Nodes live in slots that are never reused. A handle is the index of a slot; a node that
//! was removed leaves its slot dead, so a handle never comes to name another node than the
//! one it was issued for. A node's parent has a smaller index than the node, and the children
//! of a node, in creation order, are the live slots that name it as parent, by rising index.

pub mod node;
pub mod parameter;
pub mod patterns;

use crate::domain::{Bounding, Domain, DomainModel};
use crate::float::{Double, Float};
use crate::protocol::{protocol_models, Protocol, ProtocolModel};
use crate::error::Error;
use crate::subscribers::{Subscribers, SubscribersModel};
use crate::text::{address_of, is_name, lemma_segments_of_joined, segments};
use crate::value::{Type, Value, ValueModel};
use vstd::prelude::*;

verus! {

/// Handle of a node of a device.
#[derive(Clone, Copy, Debug, PartialEq, Eq, Hash, Structural)]
pub struct Node {
    pub id: usize,
}

/// Handle of the parameter that a node carries.
#[derive(Clone, Copy, Debug, PartialEq, Eq, Hash, Structural)]
pub struct Parameter {
    pub node: Node,
}

/// Token of a subscriber to value changes of one parameter.
#[derive(Clone, Copy, Debug, PartialEq, Eq, Hash, Structural)]
pub struct ValueCallbackIdx {
    pub token: u64,
}

/// Token of a subscriber to changes of the tree, by the event it subscribed to.
#[derive(Clone, Copy, Debug, PartialEq, Eq, Hash, Structural)]
pub enum NodeCallbackId {
    NodeCreated(u64),
    NodeRemoving(u64),
    ParameterDeleting(u64),
}

/// One callback that is owed: the subscriber and the node the event is about. For
/// `ParameterDeleting` the subject is the parameter of that node.
#[derive(Clone, Copy, Debug, PartialEq, Eq, Hash, Structural)]
pub struct Notice {
    pub callback: NodeCallbackId,
    pub node: Node,
}

/// One value to send out: the address of its parameter, the value, and the attached
/// protocols to send it through, by position.
#[derive(Debug, PartialEq)]
pub struct Message {
    pub address: String,
    pub value: Value,
    pub protocols: Vec<usize>,
}

/// The positions below `n`, rising, `origin` left out.
pub open spec fn others_below(origin: Option<usize>, n: int) -> Seq<usize>
    decreases n,
{
    if n <= 0 {
        Seq::empty()
    } else if origin == Some((n - 1) as usize) {
        others_below(origin, n - 1)
    } else {
        others_below(origin, n - 1).push((n - 1) as usize)
    }
}

/// Which directions a parameter's value may travel in.
#[derive(Clone, Copy, Debug, PartialEq, Eq, Structural)]
pub enum Access {
    /// Readable and writable.
    Bi,
    /// Read only.
    Get,
    /// Write only.
    Put,
}

impl Access {
    /// The integer code of each mode.
    pub open spec fn code(self) -> int {
        match self {
            Access::Bi => 0,
            Access::Get => 1,
            Access::Put => 2,
        }
    }

    /// The integer code of this mode.
    pub fn repr(&self) -> (r: i32)
        ensures
            r == self.code(),
    {
        match self {
            Access::Bi => 0,
            Access::Get => 1,
            Access::Put => 2,
        }
    }

    /// The mode with the given code, if there is one.
    pub fn from_repr(x: i32) -> (r: Option<Access>)
        ensures
            match r {
                Some(m) => m.code() == x,
                None => forall|m: Access| m.code() != x,
            },
    {
        match x {
            0 => Some(Access::Bi),
            1 => Some(Access::Get),
            2 => Some(Access::Put),
            _ => None,
        }
    }
}

/// What a slot holds for the parameter of its node.
struct ParameterData {
    kind: Type,
    access: Access,
    bounding: Bounding,
    domain: Option<Domain>,
    unit: String,
    muted: bool,
    disabled: bool,
    critical: bool,
    repetition_filter: bool,
    value: Value,
    pushed: Value,
    listening: bool,
    subscribers: Subscribers,
}

/// What a parameter denotes.
pub struct ParameterModel {
    /// The type of the values it holds.
    pub kind: Type,
    pub access: Access,
    pub bounding: Bounding,
    pub domain: Option<DomainModel>,
    pub unit: Seq<char>,
    pub muted: bool,
    pub disabled: bool,
    pub critical: bool,
    pub repetition_filter: bool,
    /// The current value, whichever way it was written.
    pub value: ValueModel,
    /// The value that the last push delivered.
    pub pushed: ValueModel,
    /// Whether a push notifies the subscribers.
    pub listening: bool,
    pub subscribers: SubscribersModel,
}

impl ParameterModel {
    /// The values have the type of the parameter, the domain fits it, and the subscriber
    /// list is in order.
    pub open spec fn wf(self) -> bool {
        &&& self.value.kind() == self.kind
        &&& self.pushed.kind() == self.kind
        &&& self.domain matches Some(d) ==> d.fits(self.kind)
        &&& self.subscribers.wf()
    }

    /// A new parameter of type `t`: bidirectional, unbounded, listening, holding the initial
    /// value of its type.
    pub open spec fn fresh(t: Type) -> ParameterModel {
        ParameterModel {
            kind: t,
            access: Access::Bi,
            bounding: Bounding::Free,
            domain: None,
            unit: Seq::empty(),
            muted: false,
            disabled: false,
            critical: false,
            repetition_filter: false,
            value: t.initial(),
            pushed: t.initial(),
            listening: true,
            subscribers: SubscribersModel::empty(),
        }
    }
}

impl ParameterData {
    spec fn model(&self) -> ParameterModel {
        ParameterModel {
            kind: self.kind,
            access: self.access,
            bounding: self.bounding,
            domain: match self.domain {
                Some(d) => Some(d@),
                None => None,
            },
            unit: self.unit@,
            muted: self.muted,
            disabled: self.disabled,
            critical: self.critical,
            repetition_filter: self.repetition_filter,
            value: self.value@,
            pushed: self.pushed@,
            listening: self.listening,
            subscribers: self.subscribers@,
        }
    }
}

/// What an optional parameter record denotes.
spec fn opt_parameter(p: Option<ParameterData>) -> Option<ParameterModel> {
    match p {
        Some(x) => Some(x.model()),
        None => None,
    }
}

/// One slot of the arena.
struct NodeData {
    alive: bool,
    parent: usize,
    name: String,
    parameter: Option<ParameterData>,
    description: String,
    extended_type: String,
    tags: Vec<String>,
    hidden: bool,
    refresh_rate: Option<i32>,
    priority: Option<Float>,
    step_size: Option<Double>,
    instance_bounds: Option<(i32, i32)>,
    default_value: Option<Value>,
}

/// What a slot denotes.
pub struct NodeModel {
    /// False once the node was removed.
    pub alive: bool,
    /// The slot of the parent; the root names itself.
    pub parent: int,
    pub name: Seq<char>,
    pub parameter: Option<ParameterModel>,
    pub description: Seq<char>,
    pub extended_type: Seq<char>,
    pub tags: Seq<Seq<char>>,
    pub hidden: bool,
    pub refresh_rate: Option<i32>,
    pub priority: Option<Float>,
    pub step_size: Option<Double>,
    pub instance_bounds: Option<(i32, i32)>,
    pub default_value: Option<ValueModel>,
}

impl NodeModel {
    /// A new node without parameter and with every attribute unset.
    pub open spec fn fresh(parent: int, name: Seq<char>) -> NodeModel {
        NodeModel {
            alive: true,
            parent,
            name,
            parameter: None,
            description: Seq::empty(),
            extended_type: Seq::empty(),
            tags: Seq::empty(),
            hidden: false,
            refresh_rate: None,
            priority: None,
            step_size: None,
            instance_bounds: None,
            default_value: None,
        }
    }
}

impl NodeData {
    spec fn model(&self) -> NodeModel {
        NodeModel {
            alive: self.alive,
            parent: self.parent as int,
            name: self.name@,
            parameter: match self.parameter {
                Some(p) => Some(p.model()),
                None => None,
            },
            description: self.description@,
            extended_type: self.extended_type@,
            tags: crate::text::texts(self.tags@),
            hidden: self.hidden,
            refresh_rate: self.refresh_rate,
            priority: self.priority,
            step_size: self.step_size,
            instance_bounds: self.instance_bounds,
            default_value: match self.default_value {
                Some(v) => Some(v@),
                None => None,
            },
        }
    }

    fn fresh(parent: usize, name: String) -> (r: NodeData)
        ensures
            r.model() == NodeModel::fresh(parent as int, name@),
    {
        let r = NodeData {
            alive: true,
            parent,
            name,
            parameter: None,
            description: String::new(),
            extended_type: String::new(),
            tags: Vec::new(),
            hidden: false,
            refresh_rate: None,
            priority: None,
            step_size: None,
            instance_bounds: None,
            default_value: None,
        };
        assert(r.model().tags =~= Seq::empty());
        r
    }
}

/// The tree is in order: the root is alive; a live node other than the root has a live
/// parent at a smaller index and a proper name; no two live children of one node share a
/// name; every parameter is well formed.
#[verifier::opaque]
pub open spec fn tree_ok(nodes: Seq<NodeModel>) -> bool {
    &&& nodes.len() >= 1
    &&& nodes[0].alive
    &&& nodes[0].parent == 0
    &&& forall|i: int|
        1 <= i < nodes.len() && (#[trigger] nodes[i]).alive ==> 0 <= nodes[i].parent < i
            && nodes[nodes[i].parent].alive && is_name(nodes[i].name)
    &&& forall|i: int, j: int|
        1 <= i < j < nodes.len() && (#[trigger] nodes[i]).alive && (#[trigger] nodes[j]).alive
            && nodes[i].parent == nodes[j].parent ==> nodes[i].name != nodes[j].name
    &&& forall|i: int|
        0 <= i < nodes.len() && (#[trigger] nodes[i]).parameter is Some
            ==> nodes[i].parameter->Some_0.wf()
}

/// A device: its name, the slots of its nodes, its protocols, and the subscribers to the
/// three changes of its tree.
pub struct Device {
    name: String,
    nodes: Vec<NodeData>,
    protocols: Vec<Protocol>,
    created: Subscribers,
    removing: Subscribers,
    deleting: Subscribers,
}

/// What a [`Device`] denotes.
pub struct DeviceModel {
    pub name: Seq<char>,
    /// The slots, the root first.
    pub nodes: Seq<NodeModel>,
    /// The attached protocols, in the order they were attached.
    pub protocols: Seq<ProtocolModel>,
    /// Subscribers to the creation of a node.
    pub created: SubscribersModel,
    /// Subscribers to the removal of a node.
    pub removing: SubscribersModel,
    /// Subscribers to the deletion of a parameter.
    pub deleting: SubscribersModel,
}

impl View for Device {
    type V = DeviceModel;

    closed spec fn view(&self) -> DeviceModel {
        DeviceModel {
            name: self.name@,
            nodes: Seq::new(self.nodes@.len(), |i: int| self.nodes@[i].model()),
            protocols: protocol_models(self.protocols@),
            created: self.created@,
            removing: self.removing@,
            deleting: self.deleting@,
        }
    }
}

impl DeviceModel {
    /// The tree and the three subscriber lists are in order.
    pub open spec fn wf(self) -> bool {
        &&& tree_ok(self.nodes)
        &&& self.created.wf()
        &&& self.removing.wf()
        &&& self.deleting.wf()
    }

    /// Whether `n` is the slot of a node that is there.
    pub open spec fn live(self, n: int) -> bool {
        0 <= n < self.nodes.len() && self.nodes[n].alive
    }

    /// Whether `c` is a child of `p`.
    pub open spec fn is_child(self, c: int, p: int) -> bool {
        1 <= c < self.nodes.len() && self.nodes[c].alive && self.nodes[c].parent == p
    }

    /// The children of `p` among the slots below `n`, in creation order.
    pub open spec fn children_below(self, p: int, n: int) -> Seq<int>
        decreases n,
    {
        if n <= 1 {
            Seq::empty()
        } else if self.is_child(n - 1, p) {
            self.children_below(p, n - 1).push(n - 1)
        } else {
            self.children_below(p, n - 1)
        }
    }

    /// The children of `p`, in creation order.
    pub open spec fn children(self, p: int) -> Seq<int> {
        self.children_below(p, self.nodes.len() as int)
    }

    /// The first child of `p` at or after slot `i` that bears `name`.
    pub open spec fn child_named_from(self, p: int, name: Seq<char>, i: int) -> Option<int>
        decreases self.nodes.len() - i,
    {
        if i < 1 || i >= self.nodes.len() {
            None
        } else if self.is_child(i, p) && self.nodes[i].name == name {
            Some(i)
        } else {
            self.child_named_from(p, name, i + 1)
        }
    }

    /// The child of `p` that bears `name`.
    pub open spec fn child_named(self, p: int, name: Seq<char>) -> Option<int> {
        self.child_named_from(p, name, 1)
    }

    /// The node reached from `start` by following the names in order.
    pub open spec fn walk(self, start: int, names: Seq<Seq<char>>) -> Option<int>
        decreases names.len(),
    {
        if names.len() == 0 {
            Some(start)
        } else {
            match self.child_named(start, names[0]) {
                Some(c) => self.walk(c, names.drop_first()),
                None => None,
            }
        }
    }

    /// The names on the way from the root down to `n`.
    pub open spec fn names_to(self, n: int) -> Seq<Seq<char>>
        decreases n,
    {
        if n <= 0 || n >= self.nodes.len() || !(0 <= self.nodes[n].parent < n) {
            Seq::empty()
        } else {
            self.names_to(self.nodes[n].parent).push(self.nodes[n].name)
        }
    }

    /// The device with slot `n` replaced.
    pub open spec fn with_node(self, n: int, node: NodeModel) -> DeviceModel {
        DeviceModel { nodes: self.nodes.update(n, node), ..self }
    }

    /// The device with one more slot: a new child of `p` that bears `name`.
    pub open spec fn with_child(self, p: int, name: Seq<char>) -> DeviceModel {
        DeviceModel { nodes: self.nodes.push(NodeModel::fresh(p, name)), ..self }
    }
}

/// The three changes of the tree that can be subscribed to.
#[derive(Clone, Copy, Debug, PartialEq, Eq, Hash, Structural)]
pub enum TreeEvent {
    NodeCreated,
    NodeRemoving,
    ParameterDeleting,
}

impl TreeEvent {
    /// The callback id of the subscriber `token` to this event.
    pub open spec fn id(self, token: u64) -> NodeCallbackId {
        match self {
            TreeEvent::NodeCreated => NodeCallbackId::NodeCreated(token),
            TreeEvent::NodeRemoving => NodeCallbackId::NodeRemoving(token),
            TreeEvent::ParameterDeleting => NodeCallbackId::ParameterDeleting(token),
        }
    }

    /// The callback id of the subscriber `token` to this event.
    pub fn callback(&self, token: u64) -> (r: NodeCallbackId)
        ensures
            r == self.id(token),
    {
        match self {
            TreeEvent::NodeCreated => NodeCallbackId::NodeCreated(token),
            TreeEvent::NodeRemoving => NodeCallbackId::NodeRemoving(token),
            TreeEvent::ParameterDeleting => NodeCallbackId::ParameterDeleting(token),
        }
    }
}

/// One notice about `node` for each subscriber, in registration order.
pub open spec fn notices_about(event: TreeEvent, tokens: Seq<u64>, node: int) -> Seq<Notice> {
    Seq::new(tokens.len(), |i: int| Notice { callback: event.id(tokens[i]), node: Node { id: node as usize } })
}

/// The notices about the slots `from..to`, slot by slot, each to every subscriber in
/// registration order.
pub open spec fn notices_of_range(event: TreeEvent, tokens: Seq<u64>, from: int, to: int) -> Seq<Notice>
    decreases to - from,
{
    if to <= from {
        Seq::empty()
    } else {
        notices_of_range(event, tokens, from, to - 1) + notices_about(event, tokens, to - 1)
    }
}

impl DeviceModel {
    /// The device after the names were followed from `start`, a child being created
    /// wherever one was missing, and the node that the last name led to.
    pub open spec fn made(self, start: int, names: Seq<Seq<char>>) -> (DeviceModel, int)
        decreases names.len(),
    {
        if names.len() == 0 {
            (self, start)
        } else {
            match self.child_named(start, names[0]) {
                Some(c) => self.made(c, names.drop_first()),
                None => self.with_child(start, names[0]).made(self.nodes.len() as int, names.drop_first()),
            }
        }
    }

    /// The address of node `n`.
    pub open spec fn address(self, n: int) -> Seq<char> {
        address_of(self.names_to(n))
    }
}

/// A tree in order has a live root, and every parameter in it is well formed.
pub proof fn lemma_tree_basics(d: DeviceModel)
    requires
        tree_ok(d.nodes),
    ensures
        d.nodes.len() >= 1,
        d.live(0),
        forall|i: int|
            0 <= i < d.nodes.len() && (#[trigger] d.nodes[i]).parameter is Some
                ==> d.nodes[i].parameter->Some_0.wf(),
        forall|i: int|
            1 <= i < d.nodes.len() && (#[trigger] d.nodes[i]).alive ==> 0 <= d.nodes[i].parent < i && d.live(
                d.nodes[i].parent,
            ) && is_name(d.nodes[i].name),
{
    reveal(tree_ok);
}

/// Replacing a slot by one with the same place in the tree, and a well-formed parameter if
/// it has one, keeps the tree in order.
pub proof fn lemma_with_node_ok(d: DeviceModel, n: int, node: NodeModel)
    requires
        tree_ok(d.nodes),
        0 <= n < d.nodes.len(),
        node.alive == d.nodes[n].alive,
        node.parent == d.nodes[n].parent,
        node.name == d.nodes[n].name,
        node.parameter matches Some(p) ==> p.wf(),
    ensures
        tree_ok(d.with_node(n, node).nodes),
{
    reveal(tree_ok);
    let e = d.with_node(n, node);
    assert forall|i: int| 1 <= i < e.nodes.len() && (#[trigger] e.nodes[i]).alive implies 0
        <= e.nodes[i].parent < i && e.nodes[e.nodes[i].parent].alive && is_name(e.nodes[i].name) by {
        assert(d.nodes[i].alive);
        assert(d.nodes[d.nodes[i].parent].alive);
    }
    assert forall|i: int, j: int|
        1 <= i < j < e.nodes.len() && (#[trigger] e.nodes[i]).alive && (#[trigger] e.nodes[j]).alive
            && e.nodes[i].parent == e.nodes[j].parent implies e.nodes[i].name != e.nodes[j].name by {
        assert(d.nodes[i].alive && d.nodes[j].alive);
    }
    assert forall|i: int| 0 <= i < e.nodes.len() && (#[trigger] e.nodes[i]).parameter is Some implies e.nodes[i].parameter->Some_0.wf() by {
        if i != n {
            assert(d.nodes[i].parameter is Some);
        }
    }
}

/// What [`DeviceModel::child_named_from`] finds is a child of that name, the first from
/// the start; where it finds nothing, no child from the start on bears the name.
pub proof fn lemma_child_named_from(d: DeviceModel, p: int, name: Seq<char>, i: int)
    requires
        1 <= i,
    ensures
        match d.child_named_from(p, name, i) {
            Some(c) => i <= c < d.nodes.len() && d.is_child(c, p) && d.nodes[c].name == name && forall|
                k: int,
            | i <= k < c ==> !(d.is_child(k, p) && (#[trigger] d.nodes[k]).name == name),
            None => forall|k: int|
                i <= k < d.nodes.len() ==> !(d.is_child(k, p) && (#[trigger] d.nodes[k]).name == name),
        },
    decreases d.nodes.len() - i,
{
    if i < d.nodes.len() && !(d.is_child(i, p) && d.nodes[i].name == name) {
        lemma_child_named_from(d, p, name, i + 1);
    }
}

/// In a well-formed tree, the child of `p` that bears the name of `c` is `c`.
pub proof fn lemma_child_named_is_unique(d: DeviceModel, p: int, c: int)
    requires
        tree_ok(d.nodes),
        d.is_child(c, p),
    ensures
        d.child_named(p, d.nodes[c].name) == Some(c),
{
    reveal(tree_ok);
    let name = d.nodes[c].name;
    lemma_child_named_from(d, p, name, 1);
    match d.child_named_from(p, name, 1) {
        Some(f) => {
            if f != c {
                assert(d.nodes[f].alive && d.nodes[c].alive);
                if f < c {
                    assert(d.nodes[f].name != d.nodes[c].name);
                } else {
                    assert(d.nodes[c].name != d.nodes[f].name);
                }
            }
        },
        None => {
            assert(d.is_child(c, p) && d.nodes[c].name == name);
        },
    }
}

/// A new child under a live parent, with a proper name that no child of the parent bears,
/// keeps the tree in order.
pub proof fn lemma_with_child_ok(d: DeviceModel, p: int, name: Seq<char>)
    requires
        d.wf(),
        d.live(p),
        is_name(name),
        d.child_named(p, name) is None,
    ensures
        d.with_child(p, name).wf(),
{
    reveal(tree_ok);
    let e = d.with_child(p, name);
    let n = d.nodes.len() as int;
    lemma_child_named_from(d, p, name, 1);
    assert forall|i: int| 1 <= i < e.nodes.len() && (#[trigger] e.nodes[i]).alive implies 0
        <= e.nodes[i].parent < i && e.nodes[e.nodes[i].parent].alive && is_name(e.nodes[i].name) by {
        if i < n {
            assert(e.nodes[i] == d.nodes[i]);
            assert(e.nodes[d.nodes[i].parent] == d.nodes[d.nodes[i].parent]);
        }
    }
    assert forall|i: int, j: int|
        1 <= i < j < e.nodes.len() && (#[trigger] e.nodes[i]).alive && (#[trigger] e.nodes[j]).alive
            && e.nodes[i].parent == e.nodes[j].parent implies e.nodes[i].name != e.nodes[j].name by {
        assert(e.nodes[i] == d.nodes[i]);
        if j < n {
            assert(e.nodes[j] == d.nodes[j]);
        } else {
            assert(d.is_child(i, p));
        }
    }
    assert forall|i: int| 0 <= i < e.nodes.len() && (#[trigger] e.nodes[i]).parameter is Some implies e.nodes[i].parameter->Some_0.wf() by {
        if i < n {
            assert(e.nodes[i] == d.nodes[i]);
        }
    }
    assert(e.nodes[0] == d.nodes[0]);
}

/// Following one more name is following the names before it and then looking up the child.
pub proof fn lemma_walk_push(d: DeviceModel, start: int, names: Seq<Seq<char>>, last: Seq<char>)
    ensures
        d.walk(start, names.push(last)) == match d.walk(start, names) {
            Some(m) => d.child_named(m, last),
            None => None,
        },
    decreases names.len(),
{
    let all = names.push(last);
    if names.len() == 0 {
        assert(all.drop_first() =~= Seq::<Seq<char>>::empty());
        assert(all[0] == last);
        match d.child_named(start, last) {
            Some(c) => {
                assert(d.walk(c, all.drop_first()) == Some(c));
            },
            None => {},
        }
    } else {
        assert(all[0] == names[0]);
        assert(all.drop_first() =~= names.drop_first().push(last));
        match d.child_named(start, names[0]) {
            Some(c) => {
                lemma_walk_push(d, c, names.drop_first(), last);
            },
            None => {},
        }
    }
}

/// Every live node is reached from the root by the names that lead to it.
pub proof fn lemma_walk_reaches(d: DeviceModel, n: int)
    requires
        tree_ok(d.nodes),
        d.live(n),
    ensures
        d.walk(0, d.names_to(n)) == Some(n),
    decreases n,
{
    reveal(tree_ok);
    if n > 0 {
        assert(d.nodes[n].alive);
        let p = d.nodes[n].parent;
        lemma_walk_reaches(d, p);
        lemma_walk_push(d, 0, d.names_to(p), d.nodes[n].name);
        lemma_child_named_is_unique(d, p, n);
    }
}

/// The names that lead to a live node are proper names.
pub proof fn lemma_names_to_are_names(d: DeviceModel, n: int)
    requires
        tree_ok(d.nodes),
        d.live(n),
    ensures
        forall|k: int| 0 <= k < d.names_to(n).len() ==> is_name(#[trigger] d.names_to(n)[k]),
    decreases n,
{
    reveal(tree_ok);
    if n > 0 {
        assert(d.nodes[n].alive);
        let p = d.nodes[n].parent;
        lemma_names_to_are_names(d, p);
        assert forall|k: int| 0 <= k < d.names_to(n).len() implies is_name(#[trigger] d.names_to(n)[k]) by {
            if k < d.names_to(p).len() {
                assert(d.names_to(n)[k] == d.names_to(p)[k]);
            }
        }
    }
}

impl DeviceModel {
    /// Whether `n` is a live node at or below `root`.
    pub open spec fn in_subtree(self, n: int, root: int) -> bool
        decreases n,
    {
        if n < 0 || n >= self.nodes.len() || !self.nodes[n].alive {
            false
        } else if n == root {
            true
        } else if 0 <= self.nodes[n].parent < n {
            self.in_subtree(self.nodes[n].parent, root)
        } else {
            false
        }
    }

    /// The device without the node `root` and all that is below it: their slots are dead.
    pub open spec fn without_subtree(self, root: int) -> DeviceModel {
        DeviceModel {
            nodes: Seq::new(
                self.nodes.len(),
                |i: int|
                    if self.in_subtree(i, root) {
                        NodeModel { alive: false, ..self.nodes[i] }
                    } else {
                        self.nodes[i]
                    },
            ),
            ..self
        }
    }

    /// The notices owed before node `n` goes: if it carries a parameter, one to each
    /// subscriber of parameter deletion, and then one to each subscriber of node removal.
    pub open spec fn parting_notices(self, n: int) -> Seq<Notice> {
        (if self.parameter(n) is Some {
            notices_about(TreeEvent::ParameterDeleting, self.deleting.tokens, n)
        } else {
            Seq::empty()
        }) + notices_about(TreeEvent::NodeRemoving, self.removing.tokens, n)
    }

    /// The notices owed before the nodes at or below `root` among the slots below `hi` go:
    /// those of the latest slot first, so that a node is announced after all that is below
    /// it.
    pub open spec fn removal_notices(self, root: int, hi: int) -> Seq<Notice>
        decreases hi,
    {
        if hi <= 0 {
            Seq::empty()
        } else if self.in_subtree(hi - 1, root) {
            self.parting_notices(hi - 1) + self.removal_notices(root, hi - 1)
        } else {
            self.removal_notices(root, hi - 1)
        }
    }
}

/// Removing a node other than the root, with all that is below it, keeps the tree in order.
pub proof fn lemma_without_subtree_ok(d: DeviceModel, root: int)
    requires
        d.wf(),
        root != 0,
    ensures
        d.without_subtree(root).wf(),
{
    reveal(tree_ok);
    let e = d.without_subtree(root);
    assert(!d.in_subtree(0, root));
    assert forall|i: int| 1 <= i < e.nodes.len() && (#[trigger] e.nodes[i]).alive implies 0
        <= e.nodes[i].parent < i && e.nodes[e.nodes[i].parent].alive && is_name(e.nodes[i].name) by {
        assert(d.nodes[i].alive);
        let p = d.nodes[i].parent;
        assert(d.nodes[p].alive);
        assert(!d.in_subtree(i, root));
        assert(!d.in_subtree(p, root));
    }
    assert forall|i: int, j: int|
        1 <= i < j < e.nodes.len() && (#[trigger] e.nodes[i]).alive && (#[trigger] e.nodes[j]).alive
            && e.nodes[i].parent == e.nodes[j].parent implies e.nodes[i].name != e.nodes[j].name by {
        assert(d.nodes[i].alive && d.nodes[j].alive);
    }
    assert forall|i: int| 0 <= i < e.nodes.len() && (#[trigger] e.nodes[i]).parameter is Some implies e.nodes[i].parameter->Some_0.wf() by {
        assert(d.nodes[i].parameter is Some);
    }
}

/// The names that a walk from the root followed are the names that lead to where it ended.
pub proof fn lemma_walk_names(d: DeviceModel, names: Seq<Seq<char>>)
    requires
        tree_ok(d.nodes),
    ensures
        d.walk(0, names) matches Some(m) ==> d.live(m) && d.names_to(m) == names,
    decreases names.len(),
{
    lemma_tree_basics(d);
    if names.len() == 0 {
        assert(d.names_to(0) =~= names);
    } else {
        let pre = names.drop_last();
        let last = names.last();
        assert(pre.push(last) =~= names);
        lemma_walk_names(d, pre);
        lemma_walk_push(d, 0, pre, last);
        match d.walk(0, pre) {
            Some(q) => {
                lemma_child_named_from(d, q, last, 1);
                match d.child_named(q, last) {
                    Some(m) => {
                        assert(d.nodes[m].alive);
                        assert(d.names_to(m) == d.names_to(q).push(last));
                    },
                    None => {},
                }
            },
            None => {},
        }
    }
}

/// Once a node is removed, its address leads nowhere: no walk from the root under the
/// names that led to a removed node ends at a node.
pub proof fn lemma_removed_is_unreachable(d: DeviceModel, root: int, n: int)
    requires
        d.wf(),
        root != 0,
        d.in_subtree(n, root),
    ensures
        d.walk(0, segments(d.address(n))) == Some(n),
        d.without_subtree(root).walk(0, segments(d.address(n))) is None,
{
    let e = d.without_subtree(root);
    let names = d.names_to(n);
    lemma_address_resolves(d, n);
    lemma_names_to_are_names(d, n);
    lemma_segments_of_joined(names);
    lemma_without_subtree_ok(d, root);
    lemma_walk_names(e, names);
    match e.walk(0, names) {
        Some(m) => {
            assert(e.nodes[m].alive);
            assert(d.live(m));
            lemma_same_names(d, e, m);
            lemma_walk_reaches(d, m);
            assert(m == n);
            assert(false);
        },
        None => {},
    }
}

/// Where two devices agree on the parents and names of their slots, they agree on the
/// names that lead to a node.
pub proof fn lemma_same_names(d: DeviceModel, e: DeviceModel, n: int)
    requires
        d.nodes.len() == e.nodes.len(),
        forall|i: int|
            0 <= i < d.nodes.len() ==> (#[trigger] d.nodes[i]).parent == e.nodes[i].parent && d.nodes[i].name
                == e.nodes[i].name,
    ensures
        d.names_to(n) == e.names_to(n),
    decreases n,
{
    if 0 < n < d.nodes.len() {
        assert(d.nodes[n].parent == e.nodes[n].parent);
        if 0 <= d.nodes[n].parent < n {
            lemma_same_names(d, e, d.nodes[n].parent);
        }
    }
}

/// A walk from a live node ends at a live node.
pub proof fn lemma_walk_live(d: DeviceModel, start: int, names: Seq<Seq<char>>)
    requires
        d.live(start),
    ensures
        d.walk(start, names) matches Some(w) ==> d.live(w),
    decreases names.len(),
{
    if names.len() > 0 {
        lemma_child_named_from(d, start, names[0], 1);
        match d.child_named(start, names[0]) {
            Some(c) => {
                lemma_walk_live(d, c, names.drop_first());
            },
            None => {},
        }
    }
}

/// Every live node is found again from the root under its address.
pub proof fn lemma_address_resolves(d: DeviceModel, n: int)
    requires
        d.wf(),
        d.live(n),
    ensures
        d.walk(0, segments(d.address(n))) == Some(n),
{
    lemma_names_to_are_names(d, n);
    lemma_segments_of_joined(d.names_to(n));
    lemma_walk_reaches(d, n);
}

/// A device that only grew finds the children it found before.
pub proof fn lemma_child_named_survives(d: DeviceModel, e: DeviceModel, p: int, name: Seq<char>, i: int)
    requires
        1 <= i,
        d.nodes.len() <= e.nodes.len(),
        forall|k: int| 0 <= k < d.nodes.len() ==> #[trigger] e.nodes[k] == d.nodes[k],
        d.child_named_from(p, name, i) is Some,
    ensures
        e.child_named_from(p, name, i) == d.child_named_from(p, name, i),
    decreases d.nodes.len() - i,
{
    if i < d.nodes.len() {
        assert(e.nodes[i] == d.nodes[i]);
        if !(d.is_child(i, p) && d.nodes[i].name == name) {
            lemma_child_named_survives(d, e, p, name, i + 1);
        }
    }
}

/// Creating along a path only adds slots, and leaves the subscribers alone.
pub proof fn lemma_made_extends(d: DeviceModel, start: int, names: Seq<Seq<char>>)
    ensures
        d.nodes.len() <= d.made(start, names).0.nodes.len(),
        forall|k: int| 0 <= k < d.nodes.len() ==> #[trigger] d.made(start, names).0.nodes[k] == d.nodes[k],
        d.made(start, names).0.created == d.created,
        d.made(start, names).0.removing == d.removing,
        d.made(start, names).0.deleting == d.deleting,
    decreases names.len(),
{
    if names.len() > 0 {
        match d.child_named(start, names[0]) {
            Some(c) => {
                lemma_made_extends(d, c, names.drop_first());
            },
            None => {
                let d1 = d.with_child(start, names[0]);
                lemma_made_extends(d1, d.nodes.len() as int, names.drop_first());
                assert forall|k: int| 0 <= k < d.nodes.len() implies #[trigger] d.made(start, names).0.nodes[k]
                    == d.nodes[k] by {
                    assert(d1.nodes[k] == d.nodes[k]);
                }
            },
        }
    }
}

/// What was created along a path is there and is found along that path: the device stays
/// in order, the node returned is live, and following the names from the start leads to it.
pub proof fn lemma_made_is_found(d: DeviceModel, start: int, names: Seq<Seq<char>>)
    requires
        d.wf(),
        d.live(start),
        forall|k: int| 0 <= k < names.len() ==> is_name(#[trigger] names[k]),
    ensures
        d.made(start, names).0.wf(),
        d.made(start, names).0.live(d.made(start, names).1),
        d.made(start, names).0.walk(start, names) == Some(d.made(start, names).1),
    decreases names.len(),
{
    if names.len() > 0 {
        let rest = names.drop_first();
        assert forall|k: int| 0 <= k < rest.len() implies is_name(#[trigger] rest[k]) by {
            assert(rest[k] == names[k + 1]);
        }
        assert(is_name(names[0]));
        lemma_child_named_from(d, start, names[0], 1);
        match d.child_named(start, names[0]) {
            Some(c) => {
                lemma_made_is_found(d, c, rest);
                lemma_made_extends(d, c, rest);
                lemma_child_named_survives(d, d.made(c, rest).0, start, names[0], 1);
            },
            None => {
                let d1 = d.with_child(start, names[0]);
                let m = d.nodes.len() as int;
                lemma_with_child_ok(d, start, names[0]);
                assert(d1.nodes[m] == NodeModel::fresh(start, names[0]));
                assert(d1.is_child(m, start));
                lemma_made_is_found(d1, m, rest);
                lemma_made_extends(d1, m, rest);
                lemma_child_named_is_unique(d1, start, m);
                lemma_child_named_survives(d1, d1.made(m, rest).0, start, names[0], 1);
            },
        }
    }
}

/// What was created under a path is found again from the root under its address.
pub proof fn lemma_created_is_found_by_address(d: DeviceModel, start: int, path: Seq<char>)
    requires
        d.wf(),
        d.live(start),
    ensures
        ({
            let (e, n) = d.made(start, segments(path));
            e.wf() && e.live(n) && e.walk(0, segments(e.address(n))) == Some(n) && e.walk(start, segments(path))
                == Some(n)
        }),
{
    crate::text::lemma_segments_are_names(path, 0);
    lemma_made_is_found(d, start, segments(path));
    let (e, n) = d.made(start, segments(path));
    lemma_address_resolves(e, n);
}

/// What is at or below a node was created with it or after it.
pub proof fn lemma_subtree_is_above(d: DeviceModel, n: int, root: int)
    requires
        d.in_subtree(n, root),
    ensures
        root <= n < d.nodes.len(),
    decreases n,
{
    if n != root {
        lemma_subtree_is_above(d, d.nodes[n].parent, root);
    }
}

/// No notice is owed for slots below the node that goes.
pub proof fn lemma_nothing_below_is_announced(d: DeviceModel, root: int, hi: int)
    requires
        hi <= root,
    ensures
        d.removal_notices(root, hi) == Seq::<Notice>::empty(),
    decreases hi,
{
    if hi > 0 {
        if d.in_subtree(hi - 1, root) {
            lemma_subtree_is_above(d, hi - 1, root);
        }
        lemma_nothing_below_is_announced(d, root, hi - 1);
    }
}

/// The node that is removed is announced last, after all that is below it, and its own
/// notices come in order: the deletion of its parameter, if it carries one, to every
/// subscriber, and then the removal of the node to every subscriber.
pub proof fn lemma_removed_node_is_announced_last(d: DeviceModel, root: int, hi: int)
    requires
        d.live(root),
        root < hi,
    ensures
        exists|before: Seq<Notice>| #[trigger] (before + d.parting_notices(root)) == d.removal_notices(root, hi),
    decreases hi,
{
    if hi == root + 1 {
        lemma_nothing_below_is_announced(d, root, root);
        let before = Seq::<Notice>::empty();
        assert(before + d.parting_notices(root) =~= d.parting_notices(root) + Seq::<Notice>::empty());
        assert(d.removal_notices(root, hi) == before + d.parting_notices(root));
    } else {
        lemma_removed_node_is_announced_last(d, root, hi - 1);
        let rest = choose|before: Seq<Notice>| #[trigger] (before + d.parting_notices(root)) == d.removal_notices(root, hi - 1);
        if d.in_subtree(hi - 1, root) {
            let before = d.parting_notices(hi - 1) + rest;
            assert(before + d.parting_notices(root) =~= d.parting_notices(hi - 1) + (rest + d.parting_notices(
                root,
            )));
            assert(d.removal_notices(root, hi) == before + d.parting_notices(root));
        } else {
            assert(d.removal_notices(root, hi) == rest + d.parting_notices(root));
        }
    }
}

/// An address names one node: two live nodes with the same address are the same node.
pub proof fn lemma_address_is_unique(d: DeviceModel, m: int, n: int)
    requires
        d.wf(),
        d.live(m),
        d.live(n),
        d.address(m) == d.address(n),
    ensures
        m == n,
{
    lemma_address_resolves(d, m);
    lemma_address_resolves(d, n);
}

impl Device {
    /// The invariant of the device.
    pub open spec fn wf(&self) -> bool {
        self@.wf()
    }

    /// A device of the given name over one protocol, with a root and nothing below it.
    pub fn new(protocol: Protocol, name: &str) -> (r: Device)
        ensures
            r.wf(),
            r@.name == name@,
            r@.nodes == seq![NodeModel::fresh(0, name@)],
            r@.protocols == seq![protocol@],
            r@.created == SubscribersModel::empty(),
            r@.removing == SubscribersModel::empty(),
            r@.deleting == SubscribersModel::empty(),
    {
        let root = NodeData::fresh(0, name.to_owned());
        let r = Device {
            name: name.to_owned(),
            nodes: vec![root],
            protocols: vec![protocol],
            created: Subscribers::new(),
            removing: Subscribers::new(),
            deleting: Subscribers::new(),
        };
        assert(r@.nodes =~= seq![NodeModel::fresh(0, name@)]);
        proof {
            reveal(tree_ok);
        }
        assert(r@.protocols =~= seq![protocol@]);
        r
    }

    /// The root node.
    pub fn root(&self) -> (r: Node)
        ensures
            r.id == 0,
    {
        Node { id: 0 }
    }

    /// The name of the device.
    pub fn name(&self) -> (r: String)
        ensures
            r@ == self@.name,
    {
        self.name.clone()
    }

    /// Whether the handle names a node that is there.
    pub fn contains(&self, node: Node) -> (r: bool)
        ensures
            r == self@.live(node.id as int),
    {
        node.id < self.nodes.len() && self.nodes[node.id].alive
    }

    /// Registers a subscriber to `event` at the end of its list.
    fn subscribe(&mut self, event: TreeEvent) -> (r: Result<NodeCallbackId, Error>)
        requires
            old(self).wf(),
        ensures
            final(self).wf(),
            subscribed_as(old(self)@, final(self)@, event, r),
    {
        let issued = match event {
            TreeEvent::NodeCreated => self.created.add(),
            TreeEvent::NodeRemoving => self.removing.add(),
            TreeEvent::ParameterDeleting => self.deleting.add(),
        };
        match issued {
            Some(token) => Ok(event.callback(token)),
            None => Err(Error::Unsupported),
        }
    }

    /// Registers a subscriber to the creation of nodes and returns its id, which no earlier
    /// registration for this event had. `Unsupported`, and no change, once all tokens are
    /// spent.
    pub fn on_node_created(&mut self) -> (r: Result<NodeCallbackId, Error>)
        requires
            old(self).wf(),
        ensures
            final(self).wf(),
            subscribed_as(old(self)@, final(self)@, TreeEvent::NodeCreated, r),
    {
        self.subscribe(TreeEvent::NodeCreated)
    }

    /// Registers a subscriber to the removal of nodes and returns its id, which no earlier
    /// registration for this event had. `Unsupported`, and no change, once all tokens are
    /// spent.
    pub fn on_node_removing(&mut self) -> (r: Result<NodeCallbackId, Error>)
        requires
            old(self).wf(),
        ensures
            final(self).wf(),
            subscribed_as(old(self)@, final(self)@, TreeEvent::NodeRemoving, r),
    {
        self.subscribe(TreeEvent::NodeRemoving)
    }

    /// Registers a subscriber to the deletion of parameters and returns its id, which no
    /// earlier registration for this event had. `Unsupported`, and no change, once all
    /// tokens are spent.
    pub fn on_parameter_deleting(&mut self) -> (r: Result<NodeCallbackId, Error>)
        requires
            old(self).wf(),
        ensures
            final(self).wf(),
            subscribed_as(old(self)@, final(self)@, TreeEvent::ParameterDeleting, r),
    {
        self.subscribe(TreeEvent::ParameterDeleting)
    }

    /// Removes the subscriber with the given id from the list of its event. An id that is
    /// not registered changes nothing.
    pub fn rm_callback(&mut self, id: NodeCallbackId)
        requires
            old(self).wf(),
        ensures
            final(self).wf(),
            final(self)@ == match id {
                NodeCallbackId::NodeCreated(x) => DeviceModel {
                    created: old(self)@.created.removed(x),
                    ..old(self)@
                },
                NodeCallbackId::NodeRemoving(x) => DeviceModel {
                    removing: old(self)@.removing.removed(x),
                    ..old(self)@
                },
                NodeCallbackId::ParameterDeleting(x) => DeviceModel {
                    deleting: old(self)@.deleting.removed(x),
                    ..old(self)@
                },
            },
    {
        match id {
            NodeCallbackId::NodeCreated(x) => {
                self.created.remove(x);
            },
            NodeCallbackId::NodeRemoving(x) => {
                self.removing.remove(x);
            },
            NodeCallbackId::ParameterDeleting(x) => {
                self.deleting.remove(x);
            },
        }
    }

    /// The ids registered for `event`, in registration order.
    pub fn callbacks(&self, event: TreeEvent) -> (r: Vec<NodeCallbackId>)
        ensures
            r@.len() == self@.subscribers(event).tokens.len(),
            forall|i: int| 0 <= i < r@.len() ==> r@[i] == event.id(self@.subscribers(event).tokens[i]),
    {
        let tokens = match event {
            TreeEvent::NodeCreated => self.created.tokens(),
            TreeEvent::NodeRemoving => self.removing.tokens(),
            TreeEvent::ParameterDeleting => self.deleting.tokens(),
        };
        let mut out: Vec<NodeCallbackId> = Vec::new();
        let mut i: usize = 0;
        while i < tokens.len()
            invariant
                i <= tokens.len(),
                out.len() == i,
                forall|k: int| 0 <= k < i ==> out[k] == event.id(tokens[k]),
            decreases tokens.len() - i,
        {
            out.push(event.callback(tokens[i]));
            i += 1;
        }
        out
    }

    /// The attached protocols that mirror a remote namespace, by position: the ones that a
    /// refresh of the namespace has to ask again. The refresh itself reports nothing back.
    pub fn update_namespace(&self) -> (r: Vec<usize>)
        ensures
            r@ == crate::protocol::mirrors_below(self@.protocols, self@.protocols.len() as int),
    {
        let mut out: Vec<usize> = Vec::new();
        let mut i: usize = 0;
        while i < self.protocols.len()
            invariant
                i <= self.protocols.len(),
                out@ == crate::protocol::mirrors_below(self@.protocols, i as int),
            decreases self.protocols.len() - i,
        {
            if self.protocols[i].mirrors() {
                out.push(i);
            }
            i += 1;
        }
        out
    }

    /// Takes in a value that arrived for `address`: resolves the address from the root and
    /// pushes the value into the parameter found there. Returns the parameter and the
    /// subscribers to call.
    ///
    /// `NotFound`, and no change, where the address leads to no node or to a node without
    /// parameter; `TypeMismatch`, and no change, where the value cannot be converted.
    pub fn inbound(&mut self, address: &str, value: Value) -> (r: Result<
        (Parameter, Vec<ValueCallbackIdx>),
        Error,
    >)
        requires
            old(self).wf(),
        ensures
            final(self).wf(),
            match old(self)@.walk(0, segments(address@)) {
                Some(n) => match r {
                    Ok((p, called)) => p.node.id == n && parameter::pushed_as(
                        old(self)@,
                        final(self)@,
                        n,
                        value@,
                        Ok(called),
                    ),
                    Err(e) => parameter::pushed_as(old(self)@, final(self)@, n, value@, Err(e)),
                },
                None => r == Err::<(Parameter, Vec<ValueCallbackIdx>), Error>(Error::NotFound) && final(self)@
                    == old(self)@,
            },
    {
        let names = crate::text::split(address);
        match self.walk_from(0, &names) {
            Some(n) => {
                let p = Parameter { node: Node { id: n } };
                match p.push_value(self, value) {
                    Ok(called) => Ok((p, called)),
                    Err(e) => Err(e),
                }
            },
            None => Err(Error::NotFound),
        }
    }

    /// What is to be sent out after a change of `parameter`: its address, its current value,
    /// and every attached protocol but the one the change came in through, by rising
    /// position. `NotFound` where the node is not there or carries no parameter.
    pub fn outbound(&self, parameter: Parameter, origin: Option<usize>) -> (r: Result<Message, Error>)
        requires
            self.wf(),
        ensures
            match r {
                Ok(m) => self@.parameter(parameter.node.id as int) matches Some(p) && m.address@
                    == self@.address(parameter.node.id as int) && m.value@ == p.value && m.protocols@
                    == others_below(origin, self@.protocols.len() as int),
                Err(e) => e == Error::NotFound && self@.parameter(parameter.node.id as int) is None,
            },
    {
        let value = match parameter.get_value(self) {
            Ok(v) => v,
            Err(e) => {
                return Err(e);
            },
        };
        let address = match parameter.node.path(self) {
            Ok(a) => a,
            Err(e) => {
                return Err(e);
            },
        };
        let mut protocols: Vec<usize> = Vec::new();
        let mut i: usize = 0;
        while i < self.protocols.len()
            invariant
                i <= self.protocols.len(),
                protocols@ == others_below(origin, i as int),
            decreases self.protocols.len() - i,
        {
            let skip = match origin {
                Some(o) => o == i,
                None => false,
            };
            if !skip {
                protocols.push(i);
            }
            i += 1;
        }
        Ok(Message { address, value, protocols })
    }

    /// Takes in an OSC message: reads the address and the value off the bytes and hands them
    /// to [`Device::inbound`].
    ///
    /// `InvalidArgument`, and no change, where the bytes are no message; else what
    /// [`Device::inbound`] gives.
    pub fn receive(&mut self, bytes: &[u8]) -> (r: Result<(Parameter, Vec<ValueCallbackIdx>), Error>)
        requires
            old(self).wf(),
        ensures
            final(self).wf(),
            match crate::osc::decoded(bytes@) {
                Some((address, value)) => match old(self)@.walk(0, segments(address)) {
                    Some(n) => match r {
                        Ok((p, called)) => p.node.id == n && parameter::pushed_as(
                            old(self)@,
                            final(self)@,
                            n,
                            value,
                            Ok(called),
                        ),
                        Err(e) => parameter::pushed_as(old(self)@, final(self)@, n, value, Err(e)),
                    },
                    None => r == Err::<(Parameter, Vec<ValueCallbackIdx>), Error>(Error::NotFound) && final(self)@ == old(self)@,
                },
                None => r == Err::<(Parameter, Vec<ValueCallbackIdx>), Error>(Error::InvalidArgument) && final(self)@ == old(self)@,
            },
    {
        match crate::osc::decode(bytes) {
            Some((address, value)) => self.inbound(address.as_str(), value),
            None => Err(Error::InvalidArgument),
        }
    }

    /// The OSC message that carries the current value of `parameter` to its address.
    ///
    /// `NotFound` where the node is not there or carries no parameter; `InvalidArgument`
    /// where the address or the value cannot be framed.
    pub fn frame(&self, parameter: Parameter) -> (r: Result<Vec<u8>, Error>)
        requires
            self.wf(),
        ensures
            match self@.parameter(parameter.node.id as int) {
                Some(p) => {
                    let address = self@.address(parameter.node.id as int);
                    match r {
                        Ok(b) => crate::osc::address_ok(address) && crate::osc::encodable(p.value) && b@
                            == crate::osc::encoded(address, p.value),
                        Err(e) => e == Error::InvalidArgument && !(crate::osc::address_ok(address)
                            && crate::osc::encodable(p.value)),
                    }
                },
                None => r == Err::<Vec<u8>, Error>(Error::NotFound),
            },
    {
        let value = match parameter.get_value(self) {
            Ok(v) => v,
            Err(e) => {
                return Err(e);
            },
        };
        let address = match parameter.node.path(self) {
            Ok(a) => a,
            Err(e) => {
                return Err(e);
            },
        };
        crate::osc::encode(address.as_str(), &value)
    }

    /// Attaches one more protocol and returns its position.
    pub fn add_protocol(&mut self, protocol: Protocol) -> (r: usize)
        requires
            old(self).wf(),
        ensures
            final(self).wf(),
            r == old(self)@.protocols.len(),
            final(self)@ == (DeviceModel { protocols: old(self)@.protocols.push(protocol@), ..old(self)@ }),
    {
        let r = self.protocols.len();
        self.protocols.push(protocol);
        assert(self@.protocols =~= old(self)@.protocols.push(protocol@));
        assert(self@.nodes =~= old(self)@.nodes);
        r
    }

    /// The number of attached protocols.
    pub fn num_protocols(&self) -> (r: usize)
        ensures
            r == self@.protocols.len(),
    {
        self.protocols.len()
    }
}

/// What a registration for `event` does, and what it returns: on success the list of the
/// event has one more subscriber at its end, whose token the id carries; on refusal all
/// tokens of the list are spent and nothing changes.
pub open spec fn subscribed_as(
    before: DeviceModel,
    after: DeviceModel,
    event: TreeEvent,
    r: Result<NodeCallbackId, Error>,
) -> bool {
    let list = before.subscribers(event);
    match r {
        Ok(id) => list.next < u64::MAX && id == event.id(list.next) && after == match event {
            TreeEvent::NodeCreated => DeviceModel { created: list.added(), ..before },
            TreeEvent::NodeRemoving => DeviceModel { removing: list.added(), ..before },
            TreeEvent::ParameterDeleting => DeviceModel { deleting: list.added(), ..before },
        },
        Err(e) => e == Error::Unsupported && list.next == u64::MAX && after == before,
    }
}

impl DeviceModel {
    /// The subscribers to `event`.
    pub open spec fn subscribers(self, event: TreeEvent) -> SubscribersModel {
        match event {
            TreeEvent::NodeCreated => self.created,
            TreeEvent::NodeRemoving => self.removing,
            TreeEvent::ParameterDeleting => self.deleting,
        }
    }
}

} // verus!
