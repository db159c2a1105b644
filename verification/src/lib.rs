//! Verified core of a typed node-graph computation engine.
use vstd::prelude::*;

pub mod assoc;
pub mod broadcast;
pub mod data_type;
pub mod error;
pub mod execution;
pub mod graph;
pub mod ids;
pub mod meta;
pub mod node_path;
pub mod node_state;
pub mod path_index;
pub mod planning;
pub mod properties;
pub mod registry;
pub mod resolve;

pub use assoc::{AssocMap, MapKey};
pub use broadcast::{broadcast_length, broadcast_pairs, pick_operand, result_slot, Operand};
pub use data_type::{DataType, ListElem};
pub use error::{ErrorKind, ErrorTarget, GraphError};
pub use graph::{EdgeInfo, InputSlotInfo, NodeGraph, PayloadType, SlotInfo, SubGraphNode};
pub use execution::{
    reject_async_in_sync_plan, ChangeFrontier, EdgeValue, ExecutionEvent, ExecutionPlan,
    ExecutionResult, GraphExecutionError, NodeError,
};
pub use ids::{EdgeId, InputSlotId, NodeId, OutputSlotId, SlotId};
pub use node_path::NodePath;
pub use path_index::PathIndex;
pub use registry::FactoryRegistry;
pub use resolve::{input_values, output_values, resolve_value, Origin};
pub use node_state::{Edge, InputSlotState, NodeData, NodeState, NodeStates, OutputSlotState};
pub use meta::{
    list_operand, list_result, number_operand, number_result, AddListNode, AddNode, BoolOutput,
    ColorNode, DivideListNode, DivideNode, ExecutionMode, InterfaceDirection, InterfaceNode,
    InterfaceNodeData, MultiplyListNode, MultiplyNode, NodeCategory, NodeExecutionKind, NodeInit, NodeMeta,
    NumberNode, OutputCutoff, SelectNode, SlotDef, StringNode, StringOutput, SubGraphInputNode,
    SubGraphOutputNode, SubtractListNode, SubtractNode, VertexNode, INTERFACE_NODE_DATA_DOMAIN,
    LIST_SLOT_BASE,
};

verus! {
} // verus!
