//! Static node metadata: slot definitions, categories, execution traits,
//! and the slot layouts of the built-in node types.

use vstd::prelude::*;
use crate::data_type::{str_eq, DataType, ListElem};

verus! {

/// Static definition of a slot (input or output port).
#[derive(Debug, Clone, Copy)]
pub struct SlotDef {
    pub label: &'static str,
    pub data_type: DataType,
    pub max_connections: Option<usize>,
    pub inspector_visible: bool,
}

impl SlotDef {
    /// A slot shown in inspectors.
    pub fn new(label: &'static str, data_type: DataType, max_connections: Option<usize>) -> (r: Self)
        ensures
            r.label == label,
            r.data_type == data_type,
            r.max_connections == max_connections,
            r.inspector_visible,
    {
        SlotDef { label, data_type, max_connections, inspector_visible: true }
    }
}

/// Category for organizing nodes in the UI.
#[derive(Debug, Clone, Copy, PartialEq, Eq, Hash, Structural)]
pub enum NodeCategory {
    Primitive,
    Math,
    Output,
    Logic,
    Text,
    Control,
    IO,
    Utility,
    Interface,
}

/// The name of a category.
pub open spec fn category_text(c: NodeCategory) -> Seq<char> {
    match c {
        NodeCategory::Primitive => "Primitive"@,
        NodeCategory::Math => "Math"@,
        NodeCategory::Output => "Output"@,
        NodeCategory::Logic => "Logic"@,
        NodeCategory::Text => "Text"@,
        NodeCategory::Control => "Control"@,
        NodeCategory::IO => "IO"@,
        NodeCategory::Utility => "Utility"@,
        NodeCategory::Interface => "Interface"@,
    }
}

impl NodeCategory {
    /// Display name of the category.
    pub fn as_str(&self) -> (r: &'static str)
        ensures
            r@ == category_text(*self),
    {
        match self {
            NodeCategory::Primitive => "Primitive",
            NodeCategory::Math => "Math",
            NodeCategory::Output => "Output",
            NodeCategory::Logic => "Logic",
            NodeCategory::Text => "Text",
            NodeCategory::Control => "Control",
            NodeCategory::IO => "IO",
            NodeCategory::Utility => "Utility",
            NodeCategory::Interface => "Interface",
        }
    }
}

/// How the executor dispatches a node.
#[derive(Debug, Clone, Copy, PartialEq, Eq, Hash, Structural)]
pub enum NodeExecutionKind {
    /// CPU-bound, runs to completion without yielding.
    SyncCpu,
    /// I/O-bound, awaited on an async runtime.
    AsyncIo,
}

impl Default for NodeExecutionKind {
    fn default() -> (r: Self)
        ensures
            r == NodeExecutionKind::SyncCpu,
    {
        NodeExecutionKind::SyncCpu
    }
}

/// Whether a node takes part in value-based execution cutoff.
#[derive(Debug, Clone, Copy, PartialEq, Eq, Hash, Structural)]
pub enum OutputCutoff {
    /// Executing the node always counts as a change.
    Disabled,
    /// An equivalent result stops propagation at this node.
    Enabled,
}

impl Default for OutputCutoff {
    fn default() -> (r: Self)
        ensures
            r == OutputCutoff::Disabled,
    {
        OutputCutoff::Disabled
    }
}

/// Scheduling of same-level nodes during synchronous execution.
#[derive(Debug, Clone, Copy, PartialEq, Eq, Structural)]
pub enum ExecutionMode {
    /// One node at a time, in stable topological order.
    Sequential,
    /// Same-level nodes in parallel.
    Parallel,
}

impl Default for ExecutionMode {
    fn default() -> (r: Self)
        ensures
            r == ExecutionMode::Parallel,
    {
        ExecutionMode::Parallel
    }
}

/// Direction stamp on an interface node: the external input surface or
/// the external output surface of a SubGraph.
#[derive(Debug, Clone, Copy, PartialEq, Eq, Hash, Structural)]
pub enum InterfaceDirection {
    Input,
    Output,
}

impl Default for InterfaceDirection {
    fn default() -> (r: Self)
        ensures
            r == InterfaceDirection::Input,
    {
        InterfaceDirection::Input
    }
}

/// Node data of an interface node: its direction, and the labels of the
/// ports that cannot be removed or renamed.
#[derive(Debug, Clone)]
pub struct InterfaceNodeData {
    pub direction: InterfaceDirection,
    pub locked: Vec<String>,
}

/// Type name under which interface nodes are registered.
pub open spec fn interface_node_name() -> Seq<char> {
    "InterfaceNode"@
}

/// Domain name under which interface node data travels.
pub const INTERFACE_NODE_DATA_DOMAIN: &'static str = "InterfaceNodeData";

impl InterfaceNodeData {
    /// Labels of the locked ports.
    pub open spec fn locked_labels(&self) -> Set<Seq<char>> {
        self.locked@.map_values(|s: String| s@).to_set()
    }

    /// Input direction, nothing locked.
    pub fn new_default() -> (r: Self)
        ensures
            r.direction == InterfaceDirection::Input,
            r.locked@.len() == 0,
    {
        InterfaceNodeData { direction: InterfaceDirection::Input, locked: Vec::new() }
    }

    /// Whether the port labelled `label` is locked.
    pub fn is_locked(&self, label: &str) -> (r: bool)
        ensures
            r == self.locked_labels().contains(label@),
    {
        let mut i: usize = 0;
        while i < self.locked.len()
            invariant
                i <= self.locked@.len(),
                forall|j: int| 0 <= j < i ==> (#[trigger] self.locked@[j])@ != label@,
            decreases self.locked@.len() - i,
        {
            if str_eq(self.locked[i].as_str(), label) {
                assert(self.locked@.map_values(|s: String| s@)[i as int] == label@);
                return true;
            }
            i = i + 1;
        }
        proof {
            if self.locked_labels().contains(label@) {
                let m = self.locked@.map_values(|s: String| s@);
                let k = choose|k: int| 0 <= k < m.len() && #[trigger] m[k] == label@;
                assert(self.locked@[k]@ == label@);
            }
        }
        false
    }

    /// A copy with the same direction and locked labels.
    pub fn duplicate(&self) -> (r: Self)
        ensures
            r.direction == self.direction,
            r.locked@.map_values(|s: String| s@) == self.locked@.map_values(|s: String| s@),
            r.locked_labels() == self.locked_labels(),
    {
        let mut locked: Vec<String> = Vec::new();
        let mut i: usize = 0;
        while i < self.locked.len()
            invariant
                i <= self.locked@.len(),
                locked@.len() == i,
                forall|j: int| 0 <= j < i ==> (#[trigger] locked@[j])@ == self.locked@[j]@,
            decreases self.locked@.len() - i,
        {
            locked.push(self.locked[i].clone());
            i = i + 1;
        }
        assert(locked@.map_values(|s: String| s@) =~= self.locked@.map_values(|s: String| s@));
        InterfaceNodeData { direction: self.direction, locked }
    }

    /// Adds `label` to the locked set.
    pub fn lock(&mut self, label: String)
        ensures
            final(self).direction == old(self).direction,
            final(self).locked_labels() == old(self).locked_labels().insert(label@),
    {
        if self.is_locked(label.as_str()) {
            assert(self.locked_labels() =~= old(self).locked_labels().insert(label@));
            return;
        }
        let ghost l = label@;
        self.locked.push(label);
        assert(self.locked@.map_values(|s: String| s@) =~= old(self).locked@.map_values(
            |s: String| s@,
        ).push(l));
        proof {
            old(self).locked@.map_values(|s: String| s@).lemma_push_to_set_commute(l);
        }
        assert(self.locked_labels() =~= old(self).locked_labels().insert(l));
    }
}

impl Default for InterfaceNodeData {
    fn default() -> (r: Self)
        ensures
            r.direction == InterfaceDirection::Input,
            r.locked@.len() == 0,
    {
        InterfaceNodeData::new_default()
    }
}

/// Slot index of the per-element form of operand `A`; `B[]` follows it.
pub const LIST_SLOT_BASE: usize = 2;

/// The scalar form of one operand: one connection, shown in inspectors.
pub fn number_operand(label: &'static str) -> (r: SlotDef)
    ensures
        r.label == label,
        r.data_type == DataType::Number,
        r.max_connections == Some(1usize),
        r.inspector_visible,
{
    SlotDef { label, data_type: DataType::Number, max_connections: Some(1), inspector_visible: true }
}

/// The per-element form of one operand: one connection, hidden from
/// inspectors.
pub fn list_operand(label: &'static str) -> (r: SlotDef)
    ensures
        r.label == label,
        r.data_type == DataType::List(ListElem::Number),
        r.max_connections == Some(1usize),
        !r.inspector_visible,
{
    SlotDef {
        label,
        data_type: DataType::List(ListElem::Number),
        max_connections: Some(1),
        inspector_visible: false,
    }
}

/// The scalar result: unlimited fan-out.
pub fn number_result(label: &'static str) -> (r: SlotDef)
    ensures
        r.label == label,
        r.data_type == DataType::Number,
        r.max_connections == None::<usize>,
        r.inspector_visible,
{
    SlotDef { label, data_type: DataType::Number, max_connections: None, inspector_visible: true }
}

/// The per-element result: unlimited fan-out.
pub fn list_result(label: &'static str) -> (r: SlotDef)
    ensures
        r.label == label,
        r.data_type == DataType::List(ListElem::Number),
        r.max_connections == None::<usize>,
        r.inspector_visible,
{
    SlotDef {
        label,
        data_type: DataType::List(ListElem::Number),
        max_connections: None,
        inspector_visible: true,
    }
}

fn binary_operator_inputs() -> (r: Vec<SlotDef>)
    ensures
        r@.len() == 4,
        r@[0].label@ == "A"@,
        r@[1].label@ == "B"@,
        r@[2].label@ == "A[]"@,
        r@[3].label@ == "B[]"@,
        r@[0].data_type == DataType::Number,
        r@[1].data_type == DataType::Number,
        r@[2].data_type == DataType::List(ListElem::Number),
        r@[3].data_type == DataType::List(ListElem::Number),
        forall|i: int| 0 <= i < 4 ==> (#[trigger] r@[i]).max_connections == Some(1usize),
{
    vec![number_operand("A"), number_operand("B"), list_operand("A[]"), list_operand("B[]")]
}

fn binary_operator_outputs(scalar: &'static str, list: &'static str) -> (r: Vec<SlotDef>)
    ensures
        r@.len() == 2,
        r@[0].label == scalar,
        r@[1].label == list,
        r@[0].data_type == DataType::Number,
        r@[1].data_type == DataType::List(ListElem::Number),
        r@[0].max_connections == None::<usize>,
        r@[1].max_connections == None::<usize>,
{
    vec![number_result(scalar), list_result(list)]
}

fn single_slot(label: &'static str, data_type: DataType, max: Option<usize>) -> (r: Vec<SlotDef>)
    ensures
        r@.len() == 1,
        r@[0].label == label,
        r@[0].data_type == data_type,
        r@[0].max_connections == max,
        r@[0].inspector_visible,
{
    vec![SlotDef::new(label, data_type, max)]
}

/// Static metadata of a node type.
pub trait NodeMeta {
    fn name() -> &'static str;

    fn category() -> NodeCategory;

    fn inputs() -> Vec<SlotDef>;

    fn outputs() -> Vec<SlotDef>;
}

/// Construction of a fresh instance of a node type.
pub trait NodeInit: NodeMeta + Sized {
    fn initialize() -> Result<Self, String>;
}

/// Adds two numbers (A + B), elementwise over lists.
#[derive(Debug)]
pub struct AddNode;

/// Subtracts two numbers (A - B), elementwise over lists.
#[derive(Debug)]
pub struct SubtractNode;

/// Multiplies two numbers (A * B), elementwise over lists.
#[derive(Debug)]
pub struct MultiplyNode;

/// Divides two numbers (A / B, 0 for a zero divisor), elementwise over lists.
#[derive(Debug)]
pub struct DivideNode;

/// Sums all connected numbers.
#[derive(Debug)]
pub struct AddListNode;

/// Subtracts all later connected numbers from the first.
#[derive(Debug)]
pub struct SubtractListNode;

/// Multiplies all connected numbers.
#[derive(Debug)]
pub struct MultiplyListNode;

/// Divides the first connected number by all later ones.
#[derive(Debug)]
pub struct DivideListNode;

/// A number value.
#[derive(Debug)]
pub struct NumberNode;

/// A string value.
#[derive(Debug)]
pub struct StringNode;

/// A color value.
#[derive(Debug)]
pub struct ColorNode;

/// A 3D vector value.
#[derive(Debug)]
pub struct VertexNode;

/// Picks one of the connected options by index.
#[derive(Debug)]
pub struct SelectNode;

/// Displays a boolean.
#[derive(Debug)]
pub struct BoolOutput;

/// Displays a string.
#[derive(Debug)]
pub struct StringOutput;

/// Dynamic-port pass-through node on a SubGraph boundary.
#[derive(Debug)]
pub struct InterfaceNode;

/// Legacy input proxy of a SubGraph.
#[derive(Debug)]
pub struct SubGraphInputNode;

/// Legacy output proxy of a SubGraph.
#[derive(Debug)]
pub struct SubGraphOutputNode;

impl NodeMeta for AddNode {
    fn name() -> (r: &'static str)
        ensures
            r@ == "Add"@,
    {
        "Add"
    }

    fn category() -> (r: NodeCategory)
        ensures
            r == NodeCategory::Math,
    {
        NodeCategory::Math
    }

    fn inputs() -> (r: Vec<SlotDef>)
        ensures
            r@.len() == 4,
            r@[0].label@ == "A"@,
            r@[1].label@ == "B"@,
            r@[2].label@ == "A[]"@,
            r@[3].label@ == "B[]"@,
            r@[0].data_type == DataType::Number,
            r@[1].data_type == DataType::Number,
            r@[2].data_type == DataType::List(ListElem::Number),
            r@[3].data_type == DataType::List(ListElem::Number),
    {
        binary_operator_inputs()
    }

    fn outputs() -> (r: Vec<SlotDef>)
        ensures
            r@.len() == 2,
            r@[0].label@ == "Sum"@,
            r@[1].label@ == "Sums"@,
            r@[0].data_type == DataType::Number,
            r@[1].data_type == DataType::List(ListElem::Number),
    {
        binary_operator_outputs("Sum", "Sums")
    }
}

impl NodeMeta for SubtractNode {
    fn name() -> (r: &'static str)
        ensures
            r@ == "Subtract"@,
    {
        "Subtract"
    }

    fn category() -> (r: NodeCategory)
        ensures
            r == NodeCategory::Math,
    {
        NodeCategory::Math
    }

    fn inputs() -> (r: Vec<SlotDef>)
        ensures
            r@.len() == 4,
            r@[0].data_type == DataType::Number,
            r@[1].data_type == DataType::Number,
            r@[2].data_type == DataType::List(ListElem::Number),
            r@[3].data_type == DataType::List(ListElem::Number),
    {
        binary_operator_inputs()
    }

    fn outputs() -> (r: Vec<SlotDef>)
        ensures
            r@.len() == 2,
            r@[0].label@ == "Difference"@,
            r@[1].label@ == "Differences"@,
            r@[0].data_type == DataType::Number,
            r@[1].data_type == DataType::List(ListElem::Number),
    {
        binary_operator_outputs("Difference", "Differences")
    }
}

impl NodeMeta for MultiplyNode {
    fn name() -> (r: &'static str)
        ensures
            r@ == "Multiply"@,
    {
        "Multiply"
    }

    fn category() -> (r: NodeCategory)
        ensures
            r == NodeCategory::Math,
    {
        NodeCategory::Math
    }

    fn inputs() -> (r: Vec<SlotDef>)
        ensures
            r@.len() == 4,
            r@[0].data_type == DataType::Number,
            r@[1].data_type == DataType::Number,
            r@[2].data_type == DataType::List(ListElem::Number),
            r@[3].data_type == DataType::List(ListElem::Number),
    {
        binary_operator_inputs()
    }

    fn outputs() -> (r: Vec<SlotDef>)
        ensures
            r@.len() == 2,
            r@[0].label@ == "Product"@,
            r@[1].label@ == "Products"@,
            r@[0].data_type == DataType::Number,
            r@[1].data_type == DataType::List(ListElem::Number),
    {
        binary_operator_outputs("Product", "Products")
    }
}

impl NodeMeta for DivideNode {
    fn name() -> (r: &'static str)
        ensures
            r@ == "Divide"@,
    {
        "Divide"
    }

    fn category() -> (r: NodeCategory)
        ensures
            r == NodeCategory::Math,
    {
        NodeCategory::Math
    }

    fn inputs() -> (r: Vec<SlotDef>)
        ensures
            r@.len() == 4,
            r@[0].data_type == DataType::Number,
            r@[1].data_type == DataType::Number,
            r@[2].data_type == DataType::List(ListElem::Number),
            r@[3].data_type == DataType::List(ListElem::Number),
    {
        binary_operator_inputs()
    }

    fn outputs() -> (r: Vec<SlotDef>)
        ensures
            r@.len() == 2,
            r@[0].label@ == "Quotient"@,
            r@[1].label@ == "Quotients"@,
            r@[0].data_type == DataType::Number,
            r@[1].data_type == DataType::List(ListElem::Number),
    {
        binary_operator_outputs("Quotient", "Quotients")
    }
}

impl NodeMeta for AddListNode {
    fn name() -> (r: &'static str)
        ensures
            r@ == "AddList"@,
    {
        "AddList"
    }

    fn category() -> (r: NodeCategory)
        ensures
            r == NodeCategory::Math,
    {
        NodeCategory::Math
    }

    fn inputs() -> (r: Vec<SlotDef>)
        ensures
            r@.len() == 1,
            r@[0].label@ == "Numbers"@,
            r@[0].data_type == DataType::Number,
            r@[0].max_connections == None::<usize>,
    {
        single_slot("Numbers", DataType::Number, None)
    }

    fn outputs() -> (r: Vec<SlotDef>)
        ensures
            r@.len() == 1,
            r@[0].label@ == "Sum"@,
            r@[0].data_type == DataType::Number,
    {
        single_slot("Sum", DataType::Number, None)
    }
}

impl NodeMeta for SubtractListNode {
    fn name() -> (r: &'static str)
        ensures
            r@ == "SubtractList"@,
    {
        "SubtractList"
    }

    fn category() -> (r: NodeCategory)
        ensures
            r == NodeCategory::Math,
    {
        NodeCategory::Math
    }

    fn inputs() -> (r: Vec<SlotDef>)
        ensures
            r@.len() == 1,
            r@[0].label@ == "Numbers"@,
            r@[0].data_type == DataType::Number,
            r@[0].max_connections == None::<usize>,
    {
        single_slot("Numbers", DataType::Number, None)
    }

    fn outputs() -> (r: Vec<SlotDef>)
        ensures
            r@.len() == 1,
            r@[0].label@ == "Difference"@,
            r@[0].data_type == DataType::Number,
    {
        single_slot("Difference", DataType::Number, None)
    }
}

impl NodeMeta for MultiplyListNode {
    fn name() -> (r: &'static str)
        ensures
            r@ == "MultiplyList"@,
    {
        "MultiplyList"
    }

    fn category() -> (r: NodeCategory)
        ensures
            r == NodeCategory::Math,
    {
        NodeCategory::Math
    }

    fn inputs() -> (r: Vec<SlotDef>)
        ensures
            r@.len() == 1,
            r@[0].label@ == "Numbers"@,
            r@[0].data_type == DataType::Number,
            r@[0].max_connections == None::<usize>,
    {
        single_slot("Numbers", DataType::Number, None)
    }

    fn outputs() -> (r: Vec<SlotDef>)
        ensures
            r@.len() == 1,
            r@[0].label@ == "Product"@,
            r@[0].data_type == DataType::Number,
    {
        single_slot("Product", DataType::Number, None)
    }
}

impl NodeMeta for DivideListNode {
    fn name() -> (r: &'static str)
        ensures
            r@ == "DivideList"@,
    {
        "DivideList"
    }

    fn category() -> (r: NodeCategory)
        ensures
            r == NodeCategory::Math,
    {
        NodeCategory::Math
    }

    fn inputs() -> (r: Vec<SlotDef>)
        ensures
            r@.len() == 1,
            r@[0].label@ == "Numbers"@,
            r@[0].data_type == DataType::Number,
            r@[0].max_connections == None::<usize>,
    {
        single_slot("Numbers", DataType::Number, None)
    }

    fn outputs() -> (r: Vec<SlotDef>)
        ensures
            r@.len() == 1,
            r@[0].label@ == "Quotient"@,
            r@[0].data_type == DataType::Number,
    {
        single_slot("Quotient", DataType::Number, None)
    }
}

impl NodeMeta for NumberNode {
    fn name() -> (r: &'static str)
        ensures
            r@ == "Number"@,
    {
        "Number"
    }

    fn category() -> (r: NodeCategory)
        ensures
            r == NodeCategory::Primitive,
    {
        NodeCategory::Primitive
    }

    fn inputs() -> (r: Vec<SlotDef>)
        ensures
            r@.len() == 0,
    {
        Vec::new()
    }

    fn outputs() -> (r: Vec<SlotDef>)
        ensures
            r@.len() == 1,
            r@[0].label@ == "Value"@,
            r@[0].data_type == DataType::Number,
    {
        single_slot("Value", DataType::Number, None)
    }
}

impl NodeMeta for StringNode {
    fn name() -> (r: &'static str)
        ensures
            r@ == "String"@,
    {
        "String"
    }

    fn category() -> (r: NodeCategory)
        ensures
            r == NodeCategory::Primitive,
    {
        NodeCategory::Primitive
    }

    fn inputs() -> (r: Vec<SlotDef>)
        ensures
            r@.len() == 0,
    {
        Vec::new()
    }

    fn outputs() -> (r: Vec<SlotDef>)
        ensures
            r@.len() == 1,
            r@[0].label@ == "Value"@,
            r@[0].data_type == DataType::String,
    {
        single_slot("Value", DataType::String, None)
    }
}

impl NodeMeta for ColorNode {
    fn name() -> (r: &'static str)
        ensures
            r@ == "Color"@,
    {
        "Color"
    }

    fn category() -> (r: NodeCategory)
        ensures
            r == NodeCategory::Primitive,
    {
        NodeCategory::Primitive
    }

    fn inputs() -> (r: Vec<SlotDef>)
        ensures
            r@.len() == 0,
    {
        Vec::new()
    }

    fn outputs() -> (r: Vec<SlotDef>)
        ensures
            r@.len() == 1,
            r@[0].label@ == "Value"@,
            r@[0].data_type == DataType::Color,
    {
        single_slot("Value", DataType::Color, None)
    }
}

impl NodeMeta for VertexNode {
    fn name() -> (r: &'static str)
        ensures
            r@ == "Vertex"@,
    {
        "Vertex"
    }

    fn category() -> (r: NodeCategory)
        ensures
            r == NodeCategory::Primitive,
    {
        NodeCategory::Primitive
    }

    fn inputs() -> (r: Vec<SlotDef>)
        ensures
            r@.len() == 0,
    {
        Vec::new()
    }

    fn outputs() -> (r: Vec<SlotDef>)
        ensures
            r@.len() == 1,
            r@[0].label@ == "Value"@,
            r@[0].data_type == DataType::Vector3,
    {
        single_slot("Value", DataType::Vector3, None)
    }
}

impl NodeMeta for SelectNode {
    fn name() -> (r: &'static str)
        ensures
            r@ == "Select"@,
    {
        "Select"
    }

    fn category() -> (r: NodeCategory)
        ensures
            r == NodeCategory::Control,
    {
        NodeCategory::Control
    }

    fn inputs() -> (r: Vec<SlotDef>)
        ensures
            r@.len() == 2,
            r@[0].label@ == "options"@,
            r@[0].data_type == DataType::String,
            r@[0].max_connections == None::<usize>,
            r@[1].label@ == "index"@,
            r@[1].data_type == DataType::Number,
            r@[1].max_connections == Some(1usize),
    {
        vec![
            SlotDef::new("options", DataType::String, None),
            SlotDef::new("index", DataType::Number, Some(1)),
        ]
    }

    fn outputs() -> (r: Vec<SlotDef>)
        ensures
            r@.len() == 1,
            r@[0].label@ == "value"@,
            r@[0].data_type == DataType::String,
    {
        single_slot("value", DataType::String, None)
    }
}

impl NodeMeta for BoolOutput {
    fn name() -> (r: &'static str)
        ensures
            r@ == "Bool Output"@,
    {
        "Bool Output"
    }

    fn category() -> (r: NodeCategory)
        ensures
            r == NodeCategory::Output,
    {
        NodeCategory::Output
    }

    fn inputs() -> (r: Vec<SlotDef>)
        ensures
            r@.len() == 1,
            r@[0].label@ == "Value"@,
            r@[0].data_type == DataType::Bool,
            r@[0].max_connections == Some(1usize),
    {
        single_slot("Value", DataType::Bool, Some(1))
    }

    fn outputs() -> (r: Vec<SlotDef>)
        ensures
            r@.len() == 0,
    {
        Vec::new()
    }
}

impl NodeMeta for StringOutput {
    fn name() -> (r: &'static str)
        ensures
            r@ == "String Output"@,
    {
        "String Output"
    }

    fn category() -> (r: NodeCategory)
        ensures
            r == NodeCategory::Output,
    {
        NodeCategory::Output
    }

    fn inputs() -> (r: Vec<SlotDef>)
        ensures
            r@.len() == 1,
            r@[0].label@ == "Value"@,
            r@[0].data_type == DataType::String,
            r@[0].max_connections == Some(1usize),
    {
        single_slot("Value", DataType::String, Some(1))
    }

    fn outputs() -> (r: Vec<SlotDef>)
        ensures
            r@.len() == 0,
    {
        Vec::new()
    }
}

impl NodeMeta for InterfaceNode {
    fn name() -> (r: &'static str)
        ensures
            r@ == interface_node_name(),
    {
        "InterfaceNode"
    }

    fn category() -> (r: NodeCategory)
        ensures
            r == NodeCategory::Interface,
    {
        NodeCategory::Interface
    }

    fn inputs() -> (r: Vec<SlotDef>)
        ensures
            r@.len() == 0,
    {
        Vec::new()
    }

    fn outputs() -> (r: Vec<SlotDef>)
        ensures
            r@.len() == 0,
    {
        Vec::new()
    }
}

impl NodeMeta for SubGraphInputNode {
    fn name() -> (r: &'static str)
        ensures
            r@ == "SubGraphInput"@,
    {
        "SubGraphInput"
    }

    fn category() -> (r: NodeCategory)
        ensures
            r == NodeCategory::Utility,
    {
        NodeCategory::Utility
    }

    fn inputs() -> (r: Vec<SlotDef>)
        ensures
            r@.len() == 0,
    {
        Vec::new()
    }

    fn outputs() -> (r: Vec<SlotDef>)
        ensures
            r@.len() == 0,
    {
        Vec::new()
    }
}

impl NodeMeta for SubGraphOutputNode {
    fn name() -> (r: &'static str)
        ensures
            r@ == "SubGraphOutput"@,
    {
        "SubGraphOutput"
    }

    fn category() -> (r: NodeCategory)
        ensures
            r == NodeCategory::Utility,
    {
        NodeCategory::Utility
    }

    fn inputs() -> (r: Vec<SlotDef>)
        ensures
            r@.len() == 0,
    {
        Vec::new()
    }

    fn outputs() -> (r: Vec<SlotDef>)
        ensures
            r@.len() == 0,
    {
        Vec::new()
    }
}

impl NodeInit for AddNode {
    fn initialize() -> (r: Result<Self, String>)
        ensures
            r is Ok,
    {
        Ok(AddNode)
    }
}

impl NodeInit for SubtractNode {
    fn initialize() -> (r: Result<Self, String>)
        ensures
            r is Ok,
    {
        Ok(SubtractNode)
    }
}

impl NodeInit for MultiplyNode {
    fn initialize() -> (r: Result<Self, String>)
        ensures
            r is Ok,
    {
        Ok(MultiplyNode)
    }
}

impl NodeInit for DivideNode {
    fn initialize() -> (r: Result<Self, String>)
        ensures
            r is Ok,
    {
        Ok(DivideNode)
    }
}

impl NodeInit for AddListNode {
    fn initialize() -> (r: Result<Self, String>)
        ensures
            r is Ok,
    {
        Ok(AddListNode)
    }
}

impl NodeInit for SubtractListNode {
    fn initialize() -> (r: Result<Self, String>)
        ensures
            r is Ok,
    {
        Ok(SubtractListNode)
    }
}

impl NodeInit for MultiplyListNode {
    fn initialize() -> (r: Result<Self, String>)
        ensures
            r is Ok,
    {
        Ok(MultiplyListNode)
    }
}

impl NodeInit for DivideListNode {
    fn initialize() -> (r: Result<Self, String>)
        ensures
            r is Ok,
    {
        Ok(DivideListNode)
    }
}

impl NodeInit for NumberNode {
    fn initialize() -> (r: Result<Self, String>)
        ensures
            r is Ok,
    {
        Ok(NumberNode)
    }
}

impl NodeInit for StringNode {
    fn initialize() -> (r: Result<Self, String>)
        ensures
            r is Ok,
    {
        Ok(StringNode)
    }
}

impl NodeInit for ColorNode {
    fn initialize() -> (r: Result<Self, String>)
        ensures
            r is Ok,
    {
        Ok(ColorNode)
    }
}

impl NodeInit for VertexNode {
    fn initialize() -> (r: Result<Self, String>)
        ensures
            r is Ok,
    {
        Ok(VertexNode)
    }
}

impl NodeInit for SelectNode {
    fn initialize() -> (r: Result<Self, String>)
        ensures
            r is Ok,
    {
        Ok(SelectNode)
    }
}

impl NodeInit for BoolOutput {
    fn initialize() -> (r: Result<Self, String>)
        ensures
            r is Ok,
    {
        Ok(BoolOutput)
    }
}

impl NodeInit for StringOutput {
    fn initialize() -> (r: Result<Self, String>)
        ensures
            r is Ok,
    {
        Ok(StringOutput)
    }
}

impl NodeInit for InterfaceNode {
    fn initialize() -> (r: Result<Self, String>)
        ensures
            r is Ok,
    {
        Ok(InterfaceNode)
    }
}

impl NodeInit for SubGraphInputNode {
    fn initialize() -> (r: Result<Self, String>)
        ensures
            r is Ok,
    {
        Ok(SubGraphInputNode)
    }
}

impl NodeInit for SubGraphOutputNode {
    fn initialize() -> (r: Result<Self, String>)
        ensures
            r is Ok,
    {
        Ok(SubGraphOutputNode)
    }
}

} // verus!
