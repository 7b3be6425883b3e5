use egui::pos2;
use egui_snarl::{InPinId, Node, NodeId, OutPinId, Snarl};

fn out(node: NodeId, output: usize) -> OutPinId {
    OutPinId { node, output }
}

fn inp(node: NodeId, input: usize) -> InPinId {
    InPinId { node, input }
}

#[test]
fn new_snarl_is_empty() {
    let snarl = Snarl::<()>::new();
    assert!(snarl.get_node(NodeId(0)).is_none());
    assert!(snarl.wires().is_empty());
    let mut it = snarl.nodes();
    assert_eq!(it.size_hint(), (0, Some(0)));
    assert!(it.next().is_none());
}

#[test]
fn default_snarl_is_empty() {
    let snarl: Snarl<u32> = Default::default();
    assert!(snarl.get_node(NodeId(0)).is_none());
    assert!(snarl.wires().is_empty());
}

#[test]
fn insert_node_gives_fresh_ids() {
    let mut snarl = Snarl::<u32>::new();
    let a = snarl.insert_node(pos2(0.0, 0.0), 10);
    let b = snarl.insert_node(pos2(1.0, 2.0), 20);
    assert_eq!(a, NodeId(0));
    assert_eq!(b, NodeId(1));
    assert_eq!(snarl.get_node(a), Some(&10));
    assert_eq!(snarl.get_node(b), Some(&20));
    let info = snarl.get_node_info(b).unwrap();
    assert_eq!(info.pos, pos2(1.0, 2.0));
    assert!(info.open);
}

#[test]
fn insert_node_collapsed_is_closed() {
    let mut snarl = Snarl::<u32>::new();
    let a = snarl.insert_node_collapsed(pos2(3.0, 4.0), 5);
    let info = snarl.get_node_info(a).unwrap();
    assert!(!info.open);
    assert_eq!(info.value, 5);
}

#[test]
fn read_after_insert_keeps_other_nodes() {
    let mut snarl = Snarl::<&str>::new();
    let a = snarl.insert_node(pos2(0.0, 0.0), "a");
    let b = snarl.insert_node(pos2(0.0, 0.0), "b");
    let c = snarl.insert_node(pos2(0.0, 0.0), "c");
    assert_eq!(snarl.get_node(a), Some(&"a"));
    assert_eq!(snarl.get_node(b), Some(&"b"));
    assert_eq!(snarl.get_node(c), Some(&"c"));
}

#[test]
fn removed_id_is_reused() {
    let mut snarl = Snarl::<u32>::new();
    let a = snarl.insert_node(pos2(0.0, 0.0), 1);
    let b = snarl.insert_node(pos2(0.0, 0.0), 2);
    assert_eq!(snarl.remove_node(a), 1);
    assert!(snarl.get_node(a).is_none());
    let c = snarl.insert_node(pos2(0.0, 0.0), 3);
    assert_eq!(c, a);
    assert_ne!(c, b);
    assert_eq!(snarl.get_node(c), Some(&3));
}

#[test]
fn remove_undoes_insert() {
    let mut snarl = Snarl::<u32>::new();
    let a = snarl.insert_node(pos2(0.0, 0.0), 1);
    let b = snarl.insert_node(pos2(0.0, 0.0), 2);
    snarl.connect(out(a, 0), inp(b, 0));
    let before = snarl.wires();
    let c = snarl.insert_node(pos2(5.0, 5.0), 9);
    assert_eq!(snarl.remove_node(c), 9);
    assert_eq!(snarl.wires(), before);
    assert_eq!(snarl.get_node(a), Some(&1));
    assert_eq!(snarl.get_node(b), Some(&2));
    assert!(snarl.get_node(c).is_none());
}

#[test]
fn open_node_toggles_flag() {
    let mut snarl = Snarl::<u32>::new();
    let a = snarl.insert_node(pos2(0.0, 0.0), 1);
    snarl.open_node(a, false);
    assert!(!snarl.get_node_info(a).unwrap().open);
    snarl.open_node(a, true);
    assert!(snarl.get_node_info(a).unwrap().open);
    assert_eq!(snarl.get_node(a), Some(&1));
}

#[test]
fn connect_is_idempotent() {
    let mut snarl = Snarl::<()>::new();
    let a = snarl.insert_node(pos2(0.0, 0.0), ());
    let b = snarl.insert_node(pos2(0.0, 0.0), ());
    assert!(snarl.connect(out(a, 0), inp(b, 1)));
    assert!(!snarl.connect(out(a, 0), inp(b, 1)));
    assert_eq!(snarl.wires(), vec![(out(a, 0), inp(b, 1))]);
}

#[test]
fn disconnect_undoes_connect() {
    let mut snarl = Snarl::<()>::new();
    let a = snarl.insert_node(pos2(0.0, 0.0), ());
    let b = snarl.insert_node(pos2(0.0, 0.0), ());
    snarl.connect(out(a, 0), inp(b, 0));
    let before = snarl.wires();
    assert!(snarl.connect(out(b, 2), inp(a, 3)));
    assert!(snarl.disconnect(out(b, 2), inp(a, 3)));
    assert_eq!(snarl.wires(), before);
    assert!(!snarl.disconnect(out(b, 2), inp(a, 3)));
}

#[test]
fn remove_node_drops_its_wires() {
    let mut snarl = Snarl::<()>::new();
    let a = snarl.insert_node(pos2(0.0, 0.0), ());
    let b = snarl.insert_node(pos2(0.0, 0.0), ());
    let c = snarl.insert_node(pos2(0.0, 0.0), ());
    snarl.connect(out(a, 0), inp(b, 0));
    snarl.connect(out(b, 0), inp(c, 0));
    snarl.connect(out(c, 0), inp(a, 0));
    snarl.remove_node(b);
    assert_eq!(snarl.wires(), vec![(out(c, 0), inp(a, 0))]);
    assert!(snarl.in_pin(inp(c, 0)).remotes.is_empty());
}

#[test]
fn drop_inputs_counts_removed_wires() {
    let mut snarl = Snarl::<()>::new();
    let a = snarl.insert_node(pos2(0.0, 0.0), ());
    let b = snarl.insert_node(pos2(0.0, 0.0), ());
    snarl.connect(out(a, 0), inp(b, 0));
    snarl.connect(out(a, 1), inp(b, 0));
    snarl.connect(out(a, 1), inp(b, 1));
    assert_eq!(snarl.drop_inputs(inp(b, 0)), 2);
    assert_eq!(snarl.drop_inputs(inp(b, 0)), 0);
    assert_eq!(snarl.wires(), vec![(out(a, 1), inp(b, 1))]);
}

#[test]
fn drop_outputs_counts_removed_wires() {
    let mut snarl = Snarl::<()>::new();
    let a = snarl.insert_node(pos2(0.0, 0.0), ());
    let b = snarl.insert_node(pos2(0.0, 0.0), ());
    snarl.connect(out(a, 0), inp(b, 0));
    snarl.connect(out(a, 0), inp(b, 1));
    snarl.connect(out(a, 1), inp(b, 1));
    assert_eq!(snarl.drop_outputs(out(a, 0)), 2);
    assert_eq!(snarl.wires(), vec![(out(a, 1), inp(b, 1))]);
    assert!(snarl.out_pin(out(a, 0)).remotes.is_empty());
}

#[test]
fn pins_list_their_remotes() {
    let mut snarl = Snarl::<()>::new();
    let a = snarl.insert_node(pos2(0.0, 0.0), ());
    let b = snarl.insert_node(pos2(0.0, 0.0), ());
    let c = snarl.insert_node(pos2(0.0, 0.0), ());
    snarl.connect(out(a, 0), inp(c, 0));
    snarl.connect(out(b, 0), inp(c, 0));
    snarl.connect(out(a, 0), inp(b, 0));
    let in_pin = snarl.in_pin(inp(c, 0));
    assert_eq!(in_pin.id, inp(c, 0));
    let mut remotes = in_pin.remotes.clone();
    remotes.sort();
    assert_eq!(remotes, vec![out(a, 0), out(b, 0)]);
    let out_pin = snarl.out_pin(out(a, 0));
    assert_eq!(out_pin.id, out(a, 0));
    let mut remotes = out_pin.remotes.clone();
    remotes.sort();
    assert_eq!(remotes, vec![inp(b, 0), inp(c, 0)]);
}

#[test]
fn get_node_mut_writes_value() {
    let mut snarl = Snarl::<u32>::new();
    let a = snarl.insert_node(pos2(0.0, 0.0), 1);
    *snarl.get_node_mut(a).unwrap() = 42;
    assert_eq!(snarl.get_node(a), Some(&42));
    assert!(snarl.get_node_mut(NodeId(7)).is_none());
}

#[test]
fn get_node_info_mut_writes_node() {
    let mut snarl = Snarl::<u32>::new();
    let a = snarl.insert_node(pos2(0.0, 0.0), 1);
    {
        let node: &mut Node<u32> = snarl.get_node_info_mut(a).unwrap();
        node.pos = pos2(9.0, 8.0);
        node.open = false;
    }
    let node = snarl.get_node_info(a).unwrap();
    assert_eq!(node.pos, pos2(9.0, 8.0));
    assert!(!node.open);
    assert!(snarl.get_node_info_mut(NodeId(3)).is_none());
}

#[test]
fn node_views_walk_in_id_order() {
    let mut snarl = Snarl::<u32>::new();
    let a = snarl.insert_node(pos2(0.0, 1.0), 10);
    let b = snarl.insert_node(pos2(2.0, 3.0), 20);
    let c = snarl.insert_node(pos2(4.0, 5.0), 30);
    snarl.remove_node(b);

    let mut it = snarl.nodes();
    assert_eq!(it.size_hint(), (2, Some(2)));
    assert_eq!(it.next(), Some(&10));
    assert_eq!(it.next(), Some(&30));
    assert_eq!(it.next(), None);

    let mut it = snarl.node_ids();
    assert_eq!(it.next(), Some((a, &10)));
    assert_eq!(it.next(), Some((c, &30)));
    assert_eq!(it.next(), None);

    let mut it = snarl.nodes_pos();
    assert_eq!(it.next(), Some((pos2(0.0, 1.0), &10)));
    assert_eq!(it.next(), Some((pos2(4.0, 5.0), &30)));

    let mut it = snarl.nodes_pos_ids();
    assert_eq!(it.nth(1), Some((c, pos2(4.0, 5.0), &30)));
    assert_eq!(it.next(), None);

    let mut it = snarl.nodes_info();
    assert_eq!(it.next().map(|n| n.value), Some(10));
    assert_eq!(it.nth(5).map(|n| n.value), None);
    assert_eq!(it.size_hint(), (0, Some(0)));

    let mut it = snarl.nodes_ids_data();
    let (id, node) = it.nth(0).unwrap();
    assert_eq!(id, a);
    assert_eq!(node.value, 10);
    let (id, node) = it.next().unwrap();
    assert_eq!(id, c);
    assert_eq!(node.pos, pos2(4.0, 5.0));
}

#[test]
fn clone_keeps_nodes_and_wires() {
    let mut snarl = Snarl::<String>::new();
    let a = snarl.insert_node(pos2(0.0, 0.0), "a".to_string());
    let b = snarl.insert_node_collapsed(pos2(1.0, 1.0), "b".to_string());
    snarl.connect(out(a, 0), inp(b, 0));
    let copy = snarl.clone();
    assert_eq!(copy.get_node(a), Some(&"a".to_string()));
    assert_eq!(copy.get_node(b), Some(&"b".to_string()));
    assert!(!copy.get_node_info(b).unwrap().open);
    assert_eq!(copy.wires(), snarl.wires());
}

#[test]
fn contains_node_follows_inserts_and_removes() {
    let mut snarl = Snarl::<u8>::new();
    let a = snarl.insert_node(pos2(0.0, 0.0), 1);
    assert!(snarl.contains_node(a));
    assert!(!snarl.contains_node(NodeId(1)));
    snarl.remove_node(a);
    assert!(!snarl.contains_node(a));
}
