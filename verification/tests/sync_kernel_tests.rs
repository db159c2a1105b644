//! The synchronous kernel's refusal of plans that hold asynchronous nodes.
use cognet::{reject_async_in_sync_plan, GraphExecutionError, NodeExecutionKind, NodeId, NodePath};

#[test]
fn a_plan_of_cpu_nodes_is_accepted() {
    let a = NodePath::root().child(NodeId::new());
    let b = NodePath::root().child(NodeId::new());
    let planned = vec![(a, Some(NodeExecutionKind::SyncCpu)), (b, None)];
    assert!(reject_async_in_sync_plan(&planned).is_ok());
}

#[test]
fn an_empty_plan_is_accepted() {
    assert!(reject_async_in_sync_plan(&Vec::new()).is_ok());
}

#[test]
fn async_nodes_are_named_in_plan_order_by_their_leaf_ids() {
    let (x, y, z, sg) = (NodeId::new(), NodeId::new(), NodeId::new(), NodeId::new());
    let planned = vec![
        (NodePath::root().child(x), Some(NodeExecutionKind::AsyncIo)),
        (NodePath::root().child(y), Some(NodeExecutionKind::SyncCpu)),
        (NodePath::root().child(sg).child(z), Some(NodeExecutionKind::AsyncIo)),
    ];
    match reject_async_in_sync_plan(&planned) {
        Err(GraphExecutionError::RequiresAsyncExecution { node_ids }) => {
            assert_eq!(node_ids, vec![x, z]);
        }
        other => panic!("expected a refusal, got {:?}", other),
    }
}

#[test]
fn the_root_path_names_no_node_even_when_marked_async() {
    let planned = vec![(NodePath::root(), Some(NodeExecutionKind::AsyncIo))];
    assert!(reject_async_in_sync_plan(&planned).is_ok());
}
