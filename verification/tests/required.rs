use cognet::{
    AddNode, DataType, DivideNode, InterfaceDirection, ListElem, MultiplyNode, NodeMeta,
    SubtractNode, LIST_SLOT_BASE,
};

#[test]
fn interface_direction_default_is_input() {
    assert_eq!(InterfaceDirection::default(), InterfaceDirection::Input);
}

/// Every operator declares both forms of both operands, so the slot
/// layout the broadcast assumes is the layout each node publishes.
#[test]
fn every_operator_declares_both_forms_of_both_operands() {
    for (inputs, outputs, name) in [
        (AddNode::inputs(), AddNode::outputs(), AddNode::name()),
        (SubtractNode::inputs(), SubtractNode::outputs(), SubtractNode::name()),
        (MultiplyNode::inputs(), MultiplyNode::outputs(), MultiplyNode::name()),
        (DivideNode::inputs(), DivideNode::outputs(), DivideNode::name()),
    ] {
        assert_eq!(inputs.len(), 4, "{name} inputs");
        assert_eq!(inputs[0].data_type, DataType::Number, "{name} A");
        assert_eq!(inputs[1].data_type, DataType::Number, "{name} B");
        assert_eq!(
            inputs[LIST_SLOT_BASE].data_type,
            DataType::List(ListElem::Number),
            "{name} A[]",
        );
        assert_eq!(
            inputs[LIST_SLOT_BASE + 1].data_type,
            DataType::List(ListElem::Number),
            "{name} B[]",
        );
        assert_eq!(outputs.len(), 2, "{name} outputs");
        assert_eq!(outputs[0].data_type, DataType::Number, "{name} scalar out");
        assert_eq!(
            outputs[1].data_type,
            DataType::List(ListElem::Number),
            "{name} list out",
        );
    }
}

#[test]
fn mod_test_execute() {}
