use egui::emath::TSTransform;
use egui::{pos2, Id};
use egui_snarl::state::{NewWires, SnarlState};
use egui_snarl::wire_drop::{drop_new_wires, WireDrop};
use egui_snarl::{AnyPin, InPinId, NodeId, OutPinId, Snarl};

fn clean_state() -> SnarlState {
    let mut parts = SnarlState::initial(Id::new("pins"), TSTransform::IDENTITY).into_parts();
    parts.dirty = false;
    SnarlState::from_parts(parts)
}

fn inp(n: usize, i: usize) -> InPinId {
    InPinId { node: NodeId(n), input: i }
}

fn out(n: usize, o: usize) -> OutPinId {
    OutPinId { node: NodeId(n), output: o }
}

#[test]
fn wires_from_inputs_dropped_on_output_connect_each() {
    let w = NewWires::from_in_pins(&[inp(1, 0), inp(2, 1)]);
    match drop_new_wires(Some(w), Some(AnyPin::Out(out(0, 3))), true) {
        WireDrop::Connect(pairs) => {
            assert_eq!(pairs, vec![(out(0, 3), inp(1, 0)), (out(0, 3), inp(2, 1))]);
        }
        _ => panic!("expected connections"),
    }
}

#[test]
fn wires_from_outputs_dropped_on_input_connect_each() {
    let w = NewWires::from_out_pins(&[out(4, 0), out(5, 2)]);
    match drop_new_wires(Some(w), Some(AnyPin::In(inp(6, 1))), false) {
        WireDrop::Connect(pairs) => {
            assert_eq!(pairs, vec![(out(4, 0), inp(6, 1)), (out(5, 2), inp(6, 1))]);
        }
        _ => panic!("expected connections"),
    }
}

#[test]
fn wires_dropped_on_same_side_or_outside_are_discarded() {
    let w = NewWires::from_in_pins(&[inp(1, 0)]);
    assert!(matches!(drop_new_wires(Some(w), Some(AnyPin::In(inp(2, 0))), true), WireDrop::Discard));
    let w = NewWires::from_out_pins(&[out(1, 0)]);
    assert!(matches!(drop_new_wires(Some(w), None, false), WireDrop::Discard));
    assert!(matches!(drop_new_wires(None, Some(AnyPin::In(inp(2, 0))), true), WireDrop::Discard));
}

#[test]
fn wires_dropped_over_graph_go_to_menu() {
    let w = NewWires::from_out_pins(&[out(1, 0), out(2, 0)]);
    match drop_new_wires(Some(w), None, true) {
        WireDrop::Menu(m) => assert_eq!(m.out_pins().unwrap(), &[out(1, 0), out(2, 0)]),
        _ => panic!("expected the menu"),
    }
}

#[test]
fn secondary_click_on_pin_without_drag_asks_to_drop_wires() {
    let mut st = clean_state();
    assert!(st.click_input_pin(inp(0, 0)));
    assert!(st.click_output_pin(out(0, 0)));
    assert!(!st.is_dirty());
}

#[test]
fn secondary_click_on_pin_while_dragging_removes_it() {
    let mut st = clean_state();
    st.start_new_wires_in(&[inp(1, 0), inp(2, 0), inp(3, 0)]);
    assert!(!st.click_input_pin(inp(1, 0)));
    assert_eq!(st.new_wires().unwrap().in_pins().unwrap(), &[inp(3, 0), inp(2, 0)]);
    st.start_new_wires_out(&[out(1, 0), out(2, 0)]);
    assert!(!st.click_output_pin(out(2, 0)));
    assert_eq!(st.new_wires().unwrap().out_pins().unwrap(), &[out(1, 0)]);
}

#[test]
fn drag_with_command_picks_up_wires() {
    let mut snarl = Snarl::<u8>::new();
    let a = snarl.insert_node(pos2(0.0, 0.0), 1);
    let b = snarl.insert_node(pos2(0.0, 0.0), 2);
    let from = OutPinId { node: a, output: 0 };
    let to = InPinId { node: b, input: 0 };
    snarl.connect(from, to);
    let mut st = clean_state();

    let pin = snarl.in_pin(to);
    st.drag_input_pin(&mut snarl, &pin, true, true);
    assert_eq!(st.new_wires().unwrap().out_pins().unwrap(), &[from]);
    assert_eq!(snarl.wires(), vec![(from, to)]);

    st.drag_input_pin(&mut snarl, &pin, true, false);
    assert_eq!(st.new_wires().unwrap().out_pins().unwrap(), &[from]);
    assert!(snarl.wires().is_empty());

    snarl.connect(from, to);
    let pin = snarl.out_pin(from);
    st.drag_output_pin(&mut snarl, &pin, true, false);
    assert_eq!(st.new_wires().unwrap().in_pins().unwrap(), &[to]);
    assert!(snarl.wires().is_empty());
}

#[test]
fn plain_drag_starts_wire_at_pin() {
    let mut snarl = Snarl::<u8>::new();
    let a = snarl.insert_node(pos2(0.0, 0.0), 1);
    let mut st = clean_state();
    let pin = snarl.out_pin(OutPinId { node: a, output: 2 });
    st.drag_output_pin(&mut snarl, &pin, false, false);
    assert_eq!(st.new_wires().unwrap().out_pins().unwrap(), &[OutPinId { node: a, output: 2 }]);
    let pin = snarl.in_pin(InPinId { node: a, input: 1 });
    st.drag_input_pin(&mut snarl, &pin, false, true);
    assert_eq!(st.new_wires().unwrap().in_pins().unwrap(), &[InPinId { node: a, input: 1 }]);
    assert!(st.is_dirty());
}

#[test]
fn hovering_pin_with_modifiers_edits_dragged_wires() {
    let mut st = clean_state();
    st.hover_input_pin(inp(9, 9), true, false);
    assert!(!st.has_new_wires());
    st.start_new_wire_in(inp(1, 0));
    st.hover_input_pin(inp(2, 0), true, false);
    st.hover_output_pin(out(2, 0), true, false);
    assert_eq!(st.new_wires().unwrap().in_pins().unwrap(), &[inp(1, 0), inp(2, 0)]);
    st.hover_input_pin(inp(3, 0), true, true);
    st.hover_input_pin(inp(1, 0), false, true);
    assert_eq!(st.new_wires().unwrap().in_pins().unwrap(), &[inp(2, 0)]);
    st.start_new_wire_out(out(1, 0));
    st.hover_output_pin(out(4, 0), true, false);
    st.hover_output_pin(out(1, 0), false, true);
    assert_eq!(st.new_wires().unwrap().out_pins().unwrap(), &[out(4, 0)]);
}
