use egui::emath::TSTransform;
use egui::{pos2, Id};
use egui_snarl::state::{NewWires, SnarlState};
use egui_snarl::{InPinId, NodeId, OutPinId, Snarl};

fn state() -> SnarlState {
    SnarlState::initial(Id::new("snarl"), TSTransform::IDENTITY)
}

fn saved_state() -> SnarlState {
    let mut parts = state().into_parts();
    parts.dirty = false;
    SnarlState::from_parts(parts)
}

fn inp(n: usize, i: usize) -> InPinId {
    InPinId { node: NodeId(n), input: i }
}

fn out(n: usize, o: usize) -> OutPinId {
    OutPinId { node: NodeId(n), output: o }
}

#[test]
fn initial_state_is_dirty_and_empty() {
    let st = state();
    assert!(st.is_dirty());
    assert!(st.selected_nodes().is_empty());
    assert!(!st.has_new_wires());
    assert!(!st.is_rect_selection());
    assert_eq!(st.to_global(), TSTransform::IDENTITY);
}

#[test]
fn parts_round_trip() {
    let mut st = saved_state();
    st.select_one_node(false, NodeId(2));
    st.start_new_wire_out(out(1, 0));
    let parts = st.into_parts();
    assert_eq!(parts.selected_nodes, vec![NodeId(2)]);
    assert!(parts.dirty);
    let st = SnarlState::from_parts(parts);
    assert_eq!(st.selected_nodes(), &[NodeId(2)]);
    assert!(st.has_new_wires_out());
}

#[test]
fn select_one_node_moves_node_last() {
    let mut st = saved_state();
    st.select_one_node(false, NodeId(3));
    st.select_one_node(false, NodeId(4));
    st.select_one_node(false, NodeId(3));
    assert_eq!(st.selected_nodes(), &[NodeId(4), NodeId(3)]);
    assert!(st.is_dirty());
}

#[test]
fn reselecting_last_node_keeps_state_clean() {
    let mut st = saved_state();
    st.select_one_node(true, NodeId(1));
    let mut parts = st.into_parts();
    parts.dirty = false;
    let mut st = SnarlState::from_parts(parts);
    st.select_one_node(false, NodeId(1));
    assert!(!st.is_dirty());
    st.select_one_node(true, NodeId(1));
    assert!(!st.is_dirty());
    assert_eq!(st.selected_nodes(), &[NodeId(1)]);
}

#[test]
fn select_with_reset_replaces_selection() {
    let mut st = saved_state();
    st.select_many_nodes(true, &[NodeId(1), NodeId(2), NodeId(3)]);
    st.select_one_node(true, NodeId(9));
    assert_eq!(st.selected_nodes(), &[NodeId(9)]);
    st.select_many_nodes(true, &[NodeId(5), NodeId(6)]);
    assert_eq!(st.selected_nodes(), &[NodeId(5), NodeId(6)]);
}

#[test]
fn select_many_without_reset_selects_each() {
    let mut st = saved_state();
    st.select_many_nodes(false, &[NodeId(1), NodeId(2)]);
    st.select_many_nodes(false, &[NodeId(1), NodeId(3)]);
    assert_eq!(st.selected_nodes(), &[NodeId(2), NodeId(1), NodeId(3)]);
}

#[test]
fn deselect_nodes() {
    let mut st = saved_state();
    st.select_many_nodes(true, &[NodeId(1), NodeId(2), NodeId(3), NodeId(4)]);
    st.deselect_one_node(NodeId(2));
    assert_eq!(st.selected_nodes(), &[NodeId(1), NodeId(3), NodeId(4)]);
    st.deselect_many_nodes(&[NodeId(4), NodeId(1), NodeId(7)]);
    assert_eq!(st.selected_nodes(), &[NodeId(3)]);
    st.deselect_all_nodes();
    assert!(st.selected_nodes().is_empty());
}

#[test]
fn deselecting_absent_node_keeps_state_clean() {
    let mut st = saved_state();
    st.deselect_one_node(NodeId(1));
    st.deselect_all_nodes();
    assert!(!st.is_dirty());
}

#[test]
fn prune_drops_removed_nodes() {
    let mut snarl = Snarl::<()>::new();
    let a = snarl.insert_node(pos2(0.0, 0.0), ());
    let b = snarl.insert_node(pos2(0.0, 0.0), ());
    let mut st = saved_state();
    st.select_many_nodes(true, &[a, b, NodeId(9)]);
    snarl.remove_node(a);
    st.prune_selected_nodes(&snarl);
    assert_eq!(st.selected_nodes(), &[b]);
}

#[test]
fn draw_order_lists_each_node_once() {
    let mut snarl = Snarl::<()>::new();
    let a = snarl.insert_node(pos2(0.0, 0.0), ());
    let b = snarl.insert_node(pos2(0.0, 0.0), ());
    let c = snarl.insert_node(pos2(0.0, 0.0), ());
    let mut st = saved_state();
    assert_eq!(st.update_draw_order(&snarl), vec![a, b, c]);
    assert!(st.is_dirty());
    st.node_to_top(a);
    assert_eq!(st.update_draw_order(&snarl), vec![b, c, a]);
    snarl.remove_node(c);
    let d = snarl.insert_node(pos2(0.0, 0.0), ());
    assert_eq!(d, c);
    assert_eq!(st.update_draw_order(&snarl), vec![b, c, a]);
    snarl.remove_node(b);
    assert_eq!(st.update_draw_order(&snarl), vec![c, a]);
}

#[test]
fn unchanged_draw_order_keeps_state_clean() {
    let mut snarl = Snarl::<()>::new();
    let a = snarl.insert_node(pos2(0.0, 0.0), ());
    let mut st = state();
    st.update_draw_order(&snarl);
    let mut parts = st.into_parts();
    parts.dirty = false;
    let mut st = SnarlState::from_parts(parts);
    assert_eq!(st.update_draw_order(&snarl), vec![a]);
    assert!(!st.is_dirty());
}

#[test]
fn new_wires_from_inputs() {
    let mut st = saved_state();
    st.start_new_wire_in(inp(0, 0));
    assert!(st.has_new_wires() && st.has_new_wires_in() && !st.has_new_wires_out());
    st.add_new_wire_in(inp(1, 0));
    st.add_new_wire_in(inp(1, 0));
    st.add_new_wire_in(inp(2, 0));
    let pins = st.new_wires().unwrap().in_pins().unwrap().to_vec();
    assert_eq!(pins, vec![inp(0, 0), inp(1, 0), inp(2, 0)]);
    st.remove_new_wire_in(inp(0, 0));
    let pins = st.new_wires().unwrap().in_pins().unwrap().to_vec();
    assert_eq!(pins, vec![inp(2, 0), inp(1, 0)]);
    let taken = st.take_new_wires().unwrap();
    assert!(taken.out_pins().is_none());
    assert!(!st.has_new_wires());
    assert!(st.take_new_wires().is_none());
}

#[test]
fn new_wires_from_outputs() {
    let mut st = saved_state();
    st.start_new_wires_out(&[out(0, 0), out(0, 1)]);
    assert!(st.has_new_wires_out() && !st.has_new_wires_in());
    st.add_new_wire_out(out(0, 1));
    st.add_new_wire_out(out(3, 3));
    st.remove_new_wire_out(out(0, 1));
    let pins = st.new_wires().unwrap().out_pins().unwrap().to_vec();
    assert_eq!(pins, vec![out(0, 0), out(3, 3)]);
    st.start_new_wire_out(out(5, 5));
    let pins = st.new_wires().unwrap().out_pins().unwrap().to_vec();
    assert_eq!(pins, vec![out(5, 5)]);
    st.start_new_wires_in(&[inp(1, 1)]);
    let pins = st.new_wires().unwrap().in_pins().unwrap().to_vec();
    assert_eq!(pins, vec![inp(1, 1)]);
}

#[test]
fn menu_holds_new_wires() {
    let mut st = saved_state();
    st.set_new_wires_menu(NewWires::from_out_pins(&[out(1, 1)]));
    assert!(!st.has_new_wires());
    assert!(st.new_wires().is_none());
    assert!(st.take_new_wires().is_none());
    let w = st.take_new_wires_menu().unwrap();
    assert_eq!(w.out_pins().unwrap(), &[out(1, 1)]);
    assert!(st.take_new_wires_menu().is_none());
}

#[test]
fn rect_selection_follows_pointer() {
    let mut st = saved_state();
    st.update_rect_selection(pos2(1.0, 1.0));
    assert!(!st.is_rect_selection());
    assert!(!st.is_dirty());
    st.start_rect_selection(pos2(2.0, 3.0));
    assert!(st.is_rect_selection());
    st.update_rect_selection(pos2(5.0, 7.0));
    let r = st.rect_selection().unwrap();
    assert_eq!(r.origin, pos2(2.0, 3.0));
    assert_eq!(r.current, pos2(5.0, 7.0));
    st.stop_rect_selection();
    assert!(st.rect_selection().is_none());
}

#[test]
fn replace_to_global_marks_dirty() {
    let mut st = saved_state();
    let t = TSTransform::new(egui::vec2(1.0, 2.0), 2.0);
    st.replace_to_global(t);
    assert_eq!(st.to_global(), t);
    assert!(st.is_dirty());
}
