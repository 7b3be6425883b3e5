use egui_snarl::{AnyPin, AnyPins, InPinId, NodeId, NodeLayoutKind, OutPinId, PinShape, WireLayer};

#[test]
fn descriptor_defaults() {
    assert_eq!(NodeLayoutKind::default(), NodeLayoutKind::Coil);
    assert_eq!(PinShape::default(), PinShape::Circle);
    assert_eq!(WireLayer::default(), WireLayer::BehindNodes);
}

#[test]
fn any_pin_compares_by_value() {
    let a = AnyPin::Out(OutPinId { node: NodeId(1), output: 2 });
    let b = AnyPin::Out(OutPinId { node: NodeId(1), output: 2 });
    let c = AnyPin::In(InPinId { node: NodeId(1), input: 2 });
    assert_eq!(a, b);
    assert_ne!(a, c);
    let pins = [OutPinId { node: NodeId(0), output: 0 }];
    match AnyPins::Out(&pins) {
        AnyPins::Out(p) => assert_eq!(p.len(), 1),
        AnyPins::In(_) => unreachable!(),
    }
}

#[test]
fn pin_ids_order_by_node_then_index() {
    let a = InPinId { node: NodeId(1), input: 5 };
    let b = InPinId { node: NodeId(2), input: 0 };
    assert!(a < b);
    let c = OutPinId { node: NodeId(1), output: 0 };
    let d = OutPinId { node: NodeId(1), output: 1 };
    assert!(c < d);
}
