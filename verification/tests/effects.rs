use egui::pos2;
use egui_snarl::effect::{Effect, Effects};
use egui_snarl::{InPinId, NodeId, OutPinId, Snarl};

#[test]
fn effects_start_empty() {
    let effects = Effects::<u32>::new();
    assert!(effects.is_empty());
    let effects: Effects<u32> = Default::default();
    assert!(effects.is_empty());
}

#[test]
fn queued_effects_apply_in_order() {
    let mut snarl = Snarl::<u32>::new();
    let a = snarl.insert_node(pos2(0.0, 0.0), 1);
    let mut effects = Effects::new();
    effects.insert_node(pos2(1.0, 1.0), 2);
    assert!(!effects.is_empty());
    effects.connect(OutPinId { node: a, output: 0 }, InPinId { node: NodeId(1), input: 0 });
    effects.open_node(a, false);
    snarl.apply_effects(effects);
    assert_eq!(snarl.get_node(NodeId(1)), Some(&2));
    assert!(!snarl.get_node_info(a).unwrap().open);
    assert_eq!(
        snarl.wires(),
        vec![(OutPinId { node: a, output: 0 }, InPinId { node: NodeId(1), input: 0 })]
    );
}

#[test]
fn effects_on_missing_nodes_are_ignored() {
    let mut snarl = Snarl::<u32>::new();
    let a = snarl.insert_node(pos2(0.0, 0.0), 1);
    let missing = NodeId(5);
    let mut effects = Effects::new();
    effects.remove_node(missing);
    effects.open_node(missing, false);
    effects.connect(OutPinId { node: a, output: 0 }, InPinId { node: missing, input: 0 });
    effects.disconnect(OutPinId { node: missing, output: 0 }, InPinId { node: a, input: 0 });
    effects.drop_inputs(InPinId { node: missing, input: 0 });
    effects.drop_outputs(OutPinId { node: missing, output: 0 });
    snarl.apply_effects(effects);
    assert_eq!(snarl.get_node(a), Some(&1));
    assert!(snarl.get_node_info(a).unwrap().open);
    assert!(snarl.wires().is_empty());
}

#[test]
fn remove_and_drop_effects() {
    let mut snarl = Snarl::<u32>::new();
    let a = snarl.insert_node(pos2(0.0, 0.0), 1);
    let b = snarl.insert_node(pos2(0.0, 0.0), 2);
    let c = snarl.insert_node(pos2(0.0, 0.0), 3);
    snarl.connect(OutPinId { node: a, output: 0 }, InPinId { node: b, input: 0 });
    snarl.connect(OutPinId { node: a, output: 0 }, InPinId { node: c, input: 0 });
    snarl.connect(OutPinId { node: b, output: 0 }, InPinId { node: c, input: 1 });
    snarl.apply_effect(Effect::DropOutputs { pin: OutPinId { node: a, output: 0 } });
    assert_eq!(
        snarl.wires(),
        vec![(OutPinId { node: b, output: 0 }, InPinId { node: c, input: 1 })]
    );
    snarl.apply_effect(Effect::Connect {
        from: OutPinId { node: a, output: 0 },
        to: InPinId { node: c, input: 1 },
    });
    snarl.apply_effect(Effect::DropInputs { pin: InPinId { node: c, input: 1 } });
    assert!(snarl.wires().is_empty());
    snarl.apply_effect(Effect::Connect {
        from: OutPinId { node: a, output: 0 },
        to: InPinId { node: b, input: 0 },
    });
    snarl.apply_effect(Effect::Disconnect {
        from: OutPinId { node: a, output: 0 },
        to: InPinId { node: b, input: 0 },
    });
    assert!(snarl.wires().is_empty());
    snarl.apply_effect(Effect::Connect {
        from: OutPinId { node: a, output: 0 },
        to: InPinId { node: b, input: 0 },
    });
    snarl.apply_effect(Effect::RemoveNode { node: a });
    assert!(snarl.get_node(a).is_none());
    assert!(snarl.wires().is_empty());
    snarl.apply_effect(Effect::InsertNode { pos: pos2(1.0, 2.0), node: 7 });
    assert_eq!(snarl.get_node(a), Some(&7));
}

#[test]
fn inserted_node_takes_identifier_removed_last() {
    let mut snarl = Snarl::<u32>::new();
    let a = snarl.insert_node(pos2(0.0, 0.0), 1);
    let b = snarl.insert_node(pos2(0.0, 0.0), 2);
    let c = snarl.insert_node(pos2(0.0, 0.0), 3);
    let mut effects = Effects::new();
    effects.remove_node(a);
    effects.remove_node(c);
    effects.insert_node(pos2(5.0, 5.0), 4);
    snarl.apply_effects(effects);
    assert_eq!(snarl.get_node(c), Some(&4));
    assert!(snarl.get_node(a).is_none());
    assert_eq!(snarl.get_node(b), Some(&2));
    let mut effects = Effects::new();
    effects.insert_node(pos2(6.0, 6.0), 5);
    snarl.apply_effect(Effect::InsertNode { pos: pos2(7.0, 7.0), node: 6 });
    snarl.apply_effects(effects);
    assert_eq!(snarl.get_node(a), Some(&6));
    assert_eq!(snarl.get_node(NodeId(3)), Some(&5));
}

#[test]
fn two_batches_equal_their_concatenation() {
    let build = || {
        let mut snarl = Snarl::<u32>::new();
        let a = snarl.insert_node(pos2(0.0, 0.0), 1);
        let b = snarl.insert_node(pos2(0.0, 0.0), 2);
        (snarl, a, b)
    };
    let (mut one, a, b) = build();
    let (mut two, _, _) = build();
    let from = OutPinId { node: a, output: 0 };
    let to = InPinId { node: b, input: 0 };

    let mut first = Effects::new();
    first.connect(from, to);
    first.remove_node(a);
    let mut second = Effects::new();
    second.insert_node(pos2(1.0, 1.0), 3);
    second.connect(OutPinId { node: a, output: 1 }, to);
    one.apply_effects(first);
    one.apply_effects(second);

    let mut both = Effects::new();
    both.connect(from, to);
    both.remove_node(a);
    both.insert_node(pos2(1.0, 1.0), 3);
    both.connect(OutPinId { node: a, output: 1 }, to);
    two.apply_effects(both);

    assert_eq!(one.wires(), two.wires());
    assert_eq!(one.get_node(a), two.get_node(a));
    assert_eq!(one.get_node(a), Some(&3));
    assert_eq!(one.get_node(b), two.get_node(b));
    assert_eq!(one.wires(), vec![(OutPinId { node: a, output: 1 }, to)]);
    one.apply_effects(Effects::new());
    assert_eq!(one.wires(), two.wires());
}
