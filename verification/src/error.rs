//! Structured graph errors: what an error is attached to, what kind it
//! is, and the message shown for it.

use vstd::prelude::*;
use crate::assoc::MapKey;
use crate::data_type::{DataType, ListElem};
use crate::ids::{EdgeId, NodeId};
use crate::node_path::NodePath;

verus! {

/// What an error is attached to.
#[derive(Debug, Clone, Copy, PartialEq, Eq, Hash, Structural)]
pub enum ErrorTarget {
    /// A node.
    Node(NodeId),
    /// An input port of a node.
    InputPort { node_id: NodeId, slot_index: usize },
    /// An output port of a node.
    OutputPort { node_id: NodeId, slot_index: usize },
    /// An edge.
    Edge(EdgeId),
    /// The graph as a whole.
    Graph,
}

impl View for ErrorTarget {
    type V = ErrorTarget;

    open spec fn view(&self) -> ErrorTarget {
        *self
    }
}

impl MapKey for ErrorTarget {
    fn same_key(&self, other: &Self) -> (r: bool) {
        *self == *other
    }

    fn copy_key(&self) -> (r: Self) {
        *self
    }
}

/// Kind of a graph error.
#[derive(Debug)]
pub enum ErrorKind {
    /// The two ends of a connection carry different types.
    TypeMismatch { from_type: DataType, to_type: DataType },
    /// An input port already holds its maximum number of connections.
    ConnectionLimitExceeded { max: usize },
    /// No node at the given place.
    NodeNotFound,
    /// No slot at the given index.
    SlotNotFound,
    /// The graph has a cycle.
    CycleDetected,
    /// A node failed while executing.
    Execution(String),
    /// Any other error.
    Other(String),
}

/// The content of an [`ErrorKind`], its texts taken by their characters.
pub enum KindView {
    TypeMismatch { from_type: DataType, to_type: DataType },
    ConnectionLimitExceeded { max: usize },
    NodeNotFound,
    SlotNotFound,
    CycleDetected,
    Execution(Seq<char>),
    Other(Seq<char>),
}

impl View for ErrorKind {
    type V = KindView;

    open spec fn view(&self) -> KindView {
        match self {
            ErrorKind::TypeMismatch { from_type, to_type } => KindView::TypeMismatch {
                from_type: *from_type,
                to_type: *to_type,
            },
            ErrorKind::ConnectionLimitExceeded { max } => KindView::ConnectionLimitExceeded { max: *max },
            ErrorKind::NodeNotFound => KindView::NodeNotFound,
            ErrorKind::SlotNotFound => KindView::SlotNotFound,
            ErrorKind::CycleDetected => KindView::CycleDetected,
            ErrorKind::Execution(m) => KindView::Execution(m@),
            ErrorKind::Other(m) => KindView::Other(m@),
        }
    }
}

impl Clone for ErrorKind {
    fn clone(&self) -> (r: Self)
        ensures
            r@ == self@,
    {
        match self {
            ErrorKind::TypeMismatch { from_type, to_type } => ErrorKind::TypeMismatch {
                from_type: *from_type,
                to_type: *to_type,
            },
            ErrorKind::ConnectionLimitExceeded { max } => ErrorKind::ConnectionLimitExceeded { max: *max },
            ErrorKind::NodeNotFound => ErrorKind::NodeNotFound,
            ErrorKind::SlotNotFound => ErrorKind::SlotNotFound,
            ErrorKind::CycleDetected => ErrorKind::CycleDetected,
            ErrorKind::Execution(m) => ErrorKind::Execution(m.clone()),
            ErrorKind::Other(m) => ErrorKind::Other(m.clone()),
        }
    }
}

/// A structured graph error.
#[derive(Debug)]
pub struct GraphError {
    pub target: ErrorTarget,
    pub kind: ErrorKind,
}

impl View for GraphError {
    type V = (ErrorTarget, KindView);

    open spec fn view(&self) -> (ErrorTarget, KindView) {
        (self.target, self.kind@)
    }
}

impl Clone for GraphError {
    fn clone(&self) -> (r: Self)
        ensures
            r@ == self@,
    {
        GraphError { target: self.target, kind: self.kind.clone() }
    }
}

/// Name of a list element kind.
pub open spec fn elem_text(e: ListElem) -> Seq<char> {
    match e {
        ListElem::Number => "Number"@,
        ListElem::String => "String"@,
        ListElem::Bool => "Bool"@,
        ListElem::Vector3 => "Vector3"@,
        ListElem::Color => "Color"@,
        ListElem::Interval => "Interval"@,
        ListElem::Plane => "Plane"@,
    }
}

/// The debug text `str` gives a text: quoted, with its special characters
/// escaped.
pub uninterp spec fn str_debug_text(s: Seq<char>) -> Seq<char>;

/// Debug text of a type: its variant name, with the element kind or the
/// quoted domain name in brackets.
pub open spec fn type_debug_text(t: DataType) -> Seq<char> {
    match t {
        DataType::Number => "Number"@,
        DataType::String => "String"@,
        DataType::Mesh => "Mesh"@,
        DataType::Vector3 => "Vector3"@,
        DataType::Color => "Color"@,
        DataType::Vertices => "Vertices"@,
        DataType::Bool => "Bool"@,
        DataType::Interval => "Interval"@,
        DataType::Plane => "Plane"@,
        DataType::Transform => "Transform"@,
        DataType::List(e) => "List("@ + elem_text(e) + ")"@,
        DataType::BRep => "BRep"@,
        DataType::Domain(name) => "Domain("@ + str_debug_text(name@) + ")"@,
    }
}

/// Decimal digit character of `d`.
pub open spec fn digit_char(d: nat) -> char {
    if d == 0 {
        '0'
    } else if d == 1 {
        '1'
    } else if d == 2 {
        '2'
    } else if d == 3 {
        '3'
    } else if d == 4 {
        '4'
    } else if d == 5 {
        '5'
    } else if d == 6 {
        '6'
    } else if d == 7 {
        '7'
    } else if d == 8 {
        '8'
    } else {
        '9'
    }
}

/// Decimal text of `n`, without leading zeros.
pub open spec fn decimal_text(n: nat) -> Seq<char>
    decreases n,
{
    if n < 10 {
        seq![digit_char(n)]
    } else {
        decimal_text(n / 10).push(digit_char(n % 10))
    }
}

/// The message text of an error kind.
pub open spec fn message_text(k: KindView) -> Seq<char> {
    match k {
        KindView::TypeMismatch { from_type, to_type } => "Type mismatch: cannot connect "@ + type_debug_text(
            from_type,
        ) + " to "@ + type_debug_text(to_type),
        KindView::ConnectionLimitExceeded { max } => "Connection limit exceeded: maximum "@ + decimal_text(
            max as nat,
        ) + " connection(s)"@,
        KindView::NodeNotFound => "Node not found"@,
        KindView::SlotNotFound => "Slot not found"@,
        KindView::CycleDetected => "Cycle detected in graph"@,
        KindView::Execution(m) => "Execution error: "@ + m,
        KindView::Other(m) => m,
    }
}

/// Debug text of `s` through `str`'s `Debug`.
#[verifier::external_body]
pub(crate) fn str_debug(s: &str) -> (r: String)
    ensures
        r@ == str_debug_text(s@),
{
    format!("{:?}", s)
}

fn elem_name(e: ListElem) -> (r: &'static str)
    ensures
        r@ == elem_text(e),
{
    match e {
        ListElem::Number => "Number",
        ListElem::String => "String",
        ListElem::Bool => "Bool",
        ListElem::Vector3 => "Vector3",
        ListElem::Color => "Color",
        ListElem::Interval => "Interval",
        ListElem::Plane => "Plane",
    }
}

/// The debug text of a type.
pub fn type_debug_string(t: DataType) -> (r: String)
    ensures
        r@ == type_debug_text(t),
{
    match t {
        DataType::Number => String::from_str("Number"),
        DataType::String => String::from_str("String"),
        DataType::Mesh => String::from_str("Mesh"),
        DataType::Vector3 => String::from_str("Vector3"),
        DataType::Color => String::from_str("Color"),
        DataType::Vertices => String::from_str("Vertices"),
        DataType::Bool => String::from_str("Bool"),
        DataType::Interval => String::from_str("Interval"),
        DataType::Plane => String::from_str("Plane"),
        DataType::Transform => String::from_str("Transform"),
        DataType::List(e) => {
            let mut s = String::from_str("List(");
            s.append(elem_name(e));
            s.append(")");
            s
        },
        DataType::BRep => String::from_str("BRep"),
        DataType::Domain(name) => {
            let mut s = String::from_str("Domain(");
            let q = str_debug(name);
            s.append(q.as_str());
            s.append(")");
            s
        },
    }
}

fn digit_str(d: u128) -> (r: &'static str)
    requires
        d < 10,
    ensures
        r@ == seq![digit_char(d as nat)],
{
    proof {
        reveal_strlit("0");
        reveal_strlit("1");
        reveal_strlit("2");
        reveal_strlit("3");
        reveal_strlit("4");
        reveal_strlit("5");
        reveal_strlit("6");
        reveal_strlit("7");
        reveal_strlit("8");
        reveal_strlit("9");
    }
    let r = if d == 0 {
        "0"
    } else if d == 1 {
        "1"
    } else if d == 2 {
        "2"
    } else if d == 3 {
        "3"
    } else if d == 4 {
        "4"
    } else if d == 5 {
        "5"
    } else if d == 6 {
        "6"
    } else if d == 7 {
        "7"
    } else if d == 8 {
        "8"
    } else {
        "9"
    };
    assert(r@ =~= seq![digit_char(d as nat)]);
    r
}

/// Decimal text of `n`.
pub fn decimal_string(n: u128) -> (r: String)
    ensures
        r@ == decimal_text(n as nat),
    decreases n,
{
    if n < 10 {
        String::from_str(digit_str(n))
    } else {
        let mut s = decimal_string(n / 10);
        s.append(digit_str(n % 10));
        s
    }
}

impl GraphError {
    /// An error of kind `kind` on `target`.
    pub fn new(target: ErrorTarget, kind: ErrorKind) -> (r: Self)
        ensures
            r.target == target,
            r.kind@ == kind@,
    {
        GraphError { target, kind }
    }

    /// Input port `slot_index` of `node_id` cannot take a `from_type`
    /// value: it carries `to_type`.
    pub fn type_mismatch(node_id: NodeId, slot_index: usize, from_type: DataType, to_type: DataType) -> (r: Self)
        ensures
            r.target == (ErrorTarget::InputPort { node_id, slot_index }),
            r.kind@ == (KindView::TypeMismatch { from_type, to_type }),
    {
        GraphError {
            target: ErrorTarget::InputPort { node_id, slot_index },
            kind: ErrorKind::TypeMismatch { from_type, to_type },
        }
    }

    /// Input port `slot_index` of `node_id` already holds `max`
    /// connections.
    pub fn connection_limit_exceeded(node_id: NodeId, slot_index: usize, max: usize) -> (r: Self)
        ensures
            r.target == (ErrorTarget::InputPort { node_id, slot_index }),
            r.kind@ == (KindView::ConnectionLimitExceeded { max }),
    {
        GraphError {
            target: ErrorTarget::InputPort { node_id, slot_index },
            kind: ErrorKind::ConnectionLimitExceeded { max },
        }
    }

    /// There is no node `node_id`.
    pub fn node_not_found(node_id: NodeId) -> (r: Self)
        ensures
            r.target == ErrorTarget::Node(node_id),
            r.kind@ == KindView::NodeNotFound,
    {
        GraphError { target: ErrorTarget::Node(node_id), kind: ErrorKind::NodeNotFound }
    }

    /// Node `node_id` has no input slot `slot_index`.
    pub fn input_slot_not_found(node_id: NodeId, slot_index: usize) -> (r: Self)
        ensures
            r.target == (ErrorTarget::InputPort { node_id, slot_index }),
            r.kind@ == KindView::SlotNotFound,
    {
        GraphError { target: ErrorTarget::InputPort { node_id, slot_index }, kind: ErrorKind::SlotNotFound }
    }

    /// Node `node_id` has no output slot `slot_index`.
    pub fn output_slot_not_found(node_id: NodeId, slot_index: usize) -> (r: Self)
        ensures
            r.target == (ErrorTarget::OutputPort { node_id, slot_index }),
            r.kind@ == KindView::SlotNotFound,
    {
        GraphError { target: ErrorTarget::OutputPort { node_id, slot_index }, kind: ErrorKind::SlotNotFound }
    }

    /// Node `node_id` failed while executing, with `message`.
    pub fn execution(node_id: NodeId, message: String) -> (r: Self)
        ensures
            r.target == ErrorTarget::Node(node_id),
            r.kind@ == KindView::Execution(message@),
    {
        GraphError { target: ErrorTarget::Node(node_id), kind: ErrorKind::Execution(message) }
    }

    /// The node at `path` failed while executing, with `message`; at the
    /// root path the error goes to the graph as a whole.
    pub fn execution_at_path(path: &NodePath, message: String) -> (r: Self)
        ensures
            r.target == if path@.len() > 0 {
                ErrorTarget::Node(NodeId(path@.last()))
            } else {
                ErrorTarget::Graph
            },
            r.kind@ == KindView::Execution(message@),
    {
        let kind = ErrorKind::Execution(message);
        match path.leaf() {
            Some(node_id) => GraphError { target: ErrorTarget::Node(node_id), kind },
            None => GraphError { target: ErrorTarget::Graph, kind },
        }
    }

    /// The graph has a cycle.
    pub fn cycle_detected() -> (r: Self)
        ensures
            r.target == ErrorTarget::Graph,
            r.kind@ == KindView::CycleDetected,
    {
        GraphError { target: ErrorTarget::Graph, kind: ErrorKind::CycleDetected }
    }

    /// The message shown for this error.
    pub fn message(&self) -> (r: String)
        ensures
            r@ == message_text(self.kind@),
    {
        match &self.kind {
            ErrorKind::TypeMismatch { from_type, to_type } => {
                let mut s = String::from_str("Type mismatch: cannot connect ");
                let a = type_debug_string(*from_type);
                s.append(a.as_str());
                s.append(" to ");
                let b = type_debug_string(*to_type);
                s.append(b.as_str());
                s
            },
            ErrorKind::ConnectionLimitExceeded { max } => {
                let mut s = String::from_str("Connection limit exceeded: maximum ");
                let n = decimal_string(*max as u128);
                s.append(n.as_str());
                s.append(" connection(s)");
                s
            },
            ErrorKind::NodeNotFound => String::from_str("Node not found"),
            ErrorKind::SlotNotFound => String::from_str("Slot not found"),
            ErrorKind::CycleDetected => String::from_str("Cycle detected in graph"),
            ErrorKind::Execution(m) => {
                let mut s = String::from_str("Execution error: ");
                s.append(m.as_str());
                s
            },
            ErrorKind::Other(m) => m.clone(),
        }
    }

    /// Whether the error concerns a connection: a type mismatch or an
    /// exceeded connection limit.
    pub fn is_connection_error(&self) -> (r: bool)
        ensures
            r == (self.kind@ is TypeMismatch || self.kind@ is ConnectionLimitExceeded),
    {
        match self.kind {
            ErrorKind::TypeMismatch { .. } | ErrorKind::ConnectionLimitExceeded { .. } => true,
            _ => false,
        }
    }

    /// Whether the error comes from executing a node.
    pub fn is_execution_error(&self) -> (r: bool)
        ensures
            r == self.kind@ is Execution,
    {
        match self.kind {
            ErrorKind::Execution(_) => true,
            _ => false,
        }
    }
}

} // verus!
