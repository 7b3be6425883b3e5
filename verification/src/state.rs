//! Interaction state of a graph view: wires being dragged, draw order of the
//! nodes, node selection and rectangle selection.
use vstd::prelude::*;

use crate::outside::{
    in_pin_list, in_pin_list_as_slice, in_pin_list_from_slice, in_pin_list_push,
    in_pin_list_swap_remove, node_list, node_list_as_slice, node_list_clear,
    node_list_extend_from_slice, node_list_from_vec, node_list_into_vec, node_list_new,
    node_list_push, node_list_remove, node_list_retain_present, out_pin_list,
    out_pin_list_as_slice, out_pin_list_from_slice, out_pin_list_push, out_pin_list_swap_remove,
    InPinList, NodeIdList, OutPinList,
};
use crate::pins::{InPin, OutPin};
use crate::snarl::{increasing_ids, Snarl};
use crate::Wire;
use crate::{InPinId, NodeId, OutPinId};

verus! {

// ---------------------------------------------------------------------------
// Sequence helpers

/// Index of the first occurrence of `x` in `s`, or `s.len()` when absent.
pub open spec fn first_index<A>(s: Seq<A>, x: A) -> int
    decreases s.len(),
{
    if s.len() == 0 {
        0
    } else if s[0] == x {
        0
    } else {
        1 + first_index(s.drop_first(), x)
    }
}

/// `s` without the first occurrence of `x` (unchanged when `x` is absent).
pub open spec fn remove_first<A>(s: Seq<A>, x: A) -> Seq<A> {
    if s.contains(x) {
        s.remove(first_index(s, x))
    } else {
        s
    }
}

/// `x` occurs in `s` only at its last place.
pub open spec fn only_last<A>(s: Seq<A>, x: A) -> bool {
    s.len() > 0 && first_index(s, x) == s.len() - 1
}

pub proof fn lemma_first_index<A>(s: Seq<A>, x: A)
    ensures
        0 <= first_index(s, x) <= s.len(),
        s.contains(x) ==> first_index(s, x) < s.len() && s[first_index(s, x)] == x,
        forall|j: int| 0 <= j < first_index(s, x) ==> s[j] != x,
        !s.contains(x) ==> first_index(s, x) == s.len(),
    decreases s.len(),
{
    if s.len() > 0 && s[0] != x {
        let t = s.drop_first();
        lemma_first_index(t, x);
        assert forall|j: int| 0 <= j < first_index(s, x) implies s[j] != x by {
            if j > 0 {
                assert(s[j] == t[j - 1]);
            }
        }
        if s.contains(x) {
            let k = choose|k: int| 0 <= k < s.len() && s[k] == x;
            assert(t[k - 1] == x);
        }
        if t.contains(x) {
            let k = choose|k: int| 0 <= k < t.len() && t[k] == x;
            assert(s[k + 1] == x);
        }
    }
}

/// The first index is pinned down by a match with no match before it.
proof fn lemma_first_index_at<A>(s: Seq<A>, x: A, i: int)
    requires
        0 <= i < s.len(),
        s[i] == x,
        forall|j: int| 0 <= j < i ==> s[j] != x,
    ensures
        first_index(s, x) == i,
        s.contains(x),
{
    lemma_first_index(s, x);
    assert(s.contains(x));
}

fn position_node(s: &[NodeId], x: NodeId) -> (r: Option<usize>)
    ensures
        r is Some <==> s@.contains(x),
        r matches Some(i) ==> i as int == first_index(s@, x) && i < s@.len() && s@[i as int] == x,
{
    let mut i: usize = 0;
    while i < s.len()
        invariant
            i <= s@.len(),
            forall|j: int| 0 <= j < i ==> s@[j] != x,
        decreases s@.len() - i,
    {
        if s[i] == x {
            proof {
                lemma_first_index_at(s@, x, i as int);
            }
            return Some(i);
        }
        i = i + 1;
    }
    proof {
        lemma_first_index(s@, x);
    }
    None
}

fn position_in_pin(s: &[InPinId], x: InPinId) -> (r: Option<usize>)
    ensures
        r is Some <==> s@.contains(x),
        r matches Some(i) ==> i as int == first_index(s@, x) && i < s@.len() && s@[i as int] == x,
{
    let mut i: usize = 0;
    while i < s.len()
        invariant
            i <= s@.len(),
            forall|j: int| 0 <= j < i ==> s@[j] != x,
        decreases s@.len() - i,
    {
        if s[i] == x {
            proof {
                lemma_first_index_at(s@, x, i as int);
            }
            return Some(i);
        }
        i = i + 1;
    }
    proof {
        lemma_first_index(s@, x);
    }
    None
}

fn position_out_pin(s: &[OutPinId], x: OutPinId) -> (r: Option<usize>)
    ensures
        r is Some <==> s@.contains(x),
        r matches Some(i) ==> i as int == first_index(s@, x) && i < s@.len() && s@[i as int] == x,
{
    let mut i: usize = 0;
    while i < s.len()
        invariant
            i <= s@.len(),
            forall|j: int| 0 <= j < i ==> s@[j] != x,
        decreases s@.len() - i,
    {
        if s[i] == x {
            proof {
                lemma_first_index_at(s@, x, i as int);
            }
            return Some(i);
        }
        i = i + 1;
    }
    proof {
        lemma_first_index(s@, x);
    }
    None
}

// ---------------------------------------------------------------------------
// Wires being dragged

/// Pins of the new wires that the user drags.
pub enum NewWires {
    /// Wires that start at input pins.
    In(InPinList),
    /// Wires that start at output pins.
    Out(OutPinList),
}

/// Model of [`NewWires`]: the pins, in order.
pub enum PinsView {
    /// Input pins.
    In(Seq<InPinId>),
    /// Output pins.
    Out(Seq<OutPinId>),
}

impl View for NewWires {
    type V = PinsView;

    closed spec fn view(&self) -> PinsView {
        match self {
            NewWires::In(l) => PinsView::In(in_pin_list(*l)),
            NewWires::Out(l) => PinsView::Out(out_pin_list(*l)),
        }
    }
}

impl NewWires {
    /// Wires from the given input pins.
    pub fn from_in_pins(pins: &[InPinId]) -> (r: Self)
        ensures
            r@ == PinsView::In(pins@),
    {
        NewWires::In(in_pin_list_from_slice(pins))
    }

    /// Wires from the given output pins.
    pub fn from_out_pins(pins: &[OutPinId]) -> (r: Self)
        ensures
            r@ == PinsView::Out(pins@),
    {
        NewWires::Out(out_pin_list_from_slice(pins))
    }

    /// The input pins, when the wires start at input pins.
    pub fn in_pins(&self) -> (r: Option<&[InPinId]>)
        ensures
            self@ is In <==> r is Some,
            r matches Some(s) ==> s@ == self@->In_0,
    {
        match self {
            NewWires::In(l) => Some(in_pin_list_as_slice(l)),
            NewWires::Out(_) => None,
        }
    }

    /// The output pins, when the wires start at output pins.
    pub fn out_pins(&self) -> (r: Option<&[OutPinId]>)
        ensures
            self@ is Out <==> r is Some,
            r matches Some(s) ==> s@ == self@->Out_0,
    {
        match self {
            NewWires::In(_) => None,
            NewWires::Out(l) => Some(out_pin_list_as_slice(l)),
        }
    }
}

// ---------------------------------------------------------------------------
// Draw order and selection specifications

/// Entries of `s` that `dom` holds, each at its first occurrence, in order.
pub open spec fn keep_present(s: Seq<NodeId>, dom: Set<NodeId>) -> Seq<NodeId>
    decreases s.len(),
{
    if s.len() == 0 {
        Seq::<NodeId>::empty()
    } else {
        let prev = keep_present(s.drop_last(), dom);
        let x = s.last();
        if dom.contains(x) && !prev.contains(x) {
            prev.push(x)
        } else {
            prev
        }
    }
}

/// Entries of `ids` that do not occur in `s`, in order.
pub open spec fn absent_from(ids: Seq<NodeId>, s: Seq<NodeId>) -> Seq<NodeId>
    decreases ids.len(),
{
    if ids.len() == 0 {
        Seq::<NodeId>::empty()
    } else {
        let prev = absent_from(ids.drop_last(), s);
        let x = ids.last();
        if !s.contains(x) {
            prev.push(x)
        } else {
            prev
        }
    }
}

/// Draw order after it is brought in line with the graph: the nodes that
/// the graph still holds keep their order (repeats dropped), and the nodes
/// missing from the order follow in increasing identifier order.
pub open spec fn updated_order<T>(order: Seq<NodeId>, snarl: Snarl<T>) -> Seq<NodeId> {
    keep_present(order, snarl.node_map().dom()) + absent_from(snarl.id_seq(), order)
}

/// Selecting each node in turn without reset: the selection and the dirty flag.
pub open spec fn select_each(sel: Seq<NodeId>, dirty: bool, nodes: Seq<NodeId>) -> (Seq<NodeId>, bool)
    decreases nodes.len(),
{
    if nodes.len() == 0 {
        (sel, dirty)
    } else {
        let prev = select_each(sel, dirty, nodes.drop_last());
        let x = nodes.last();
        (remove_first(prev.0, x).push(x), prev.1 || !only_last(prev.0, x))
    }
}

/// Deselecting each node in turn: the selection and the dirty flag.
pub open spec fn deselect_each(sel: Seq<NodeId>, dirty: bool, nodes: Seq<NodeId>) -> (Seq<NodeId>, bool)
    decreases nodes.len(),
{
    if nodes.len() == 0 {
        (sel, dirty)
    } else {
        let prev = deselect_each(sel, dirty, nodes.drop_last());
        let x = nodes.last();
        (remove_first(prev.0, x), prev.1 || prev.0.contains(x))
    }
}

proof fn lemma_keep_present(s: Seq<NodeId>, dom: Set<NodeId>)
    ensures
        keep_present(s, dom).no_duplicates(),
        keep_present(s, dom).len() <= s.len(),
        keep_present(s, dom).len() == s.len() ==> keep_present(s, dom) == s,
        forall|x: NodeId| #[trigger] keep_present(s, dom).contains(x) <==> (s.contains(x) && dom.contains(x)),
    decreases s.len(),
{
    if s.len() > 0 {
        let t = s.drop_last();
        lemma_keep_present(t, dom);
        let prev = keep_present(t, dom);
        let x = s.last();
        assert(s =~= t.push(x));
        assert forall|y: NodeId| #[trigger] s.contains(y) <==> (t.contains(y) || y == x) by {
            crate::lemma_push_contains(t, x, y);
        }
        if dom.contains(x) && !prev.contains(x) {
            crate::lemma_push_no_dup(prev, x);
            assert forall|y: NodeId| #[trigger] prev.push(x).contains(y) <==> (prev.contains(y) || y == x) by {
                crate::lemma_push_contains(prev, x, y);
            }
            if prev.push(x).len() == s.len() {
                assert(prev == t);
                assert(prev.push(x) =~= s);
            }
        }
    }
}

proof fn lemma_absent_from(ids: Seq<NodeId>, s: Seq<NodeId>)
    requires
        increasing_ids(ids),
    ensures
        increasing_ids(absent_from(ids, s)),
        absent_from(ids, s).no_duplicates(),
        forall|x: NodeId| #[trigger] absent_from(ids, s).contains(x) <==> (ids.contains(x) && !s.contains(x)),
    decreases ids.len(),
{
    if ids.len() > 0 {
        let t = ids.drop_last();
        assert(increasing_ids(t));
        lemma_absent_from(t, s);
        let prev = absent_from(t, s);
        let x = ids.last();
        assert(ids =~= t.push(x));
        assert forall|y: NodeId| #[trigger] ids.contains(y) <==> (t.contains(y) || y == x) by {
            crate::lemma_push_contains(t, x, y);
        }
        if !s.contains(x) {
            assert forall|y: NodeId| #[trigger] prev.push(x).contains(y) <==> (prev.contains(y) || y == x) by {
                crate::lemma_push_contains(prev, x, y);
            }
            assert forall|k: int| 0 <= k < prev.len() implies prev[k].0 < x.0 by {
                assert(prev.contains(prev[k]));
                assert(t.contains(prev[k]));
                let j = choose|j: int| 0 <= j < t.len() && t[j] == prev[k];
                assert(ids[j] == t[j]);
            }
        }
        assert(absent_from(ids, s).no_duplicates()) by {
            let r = absent_from(ids, s);
            assert forall|a: int, b: int| 0 <= a < r.len() && 0 <= b < r.len() && a != b implies r[a] != r[b] by {
                if a < b {
                    assert(r[a].0 < r[b].0);
                } else {
                    assert(r[b].0 < r[a].0);
                }
            }
        }
    }
}

/// Law: after the draw order is brought in line with a well-formed graph,
/// it lists every node of the graph exactly once and nothing else.
pub proof fn lemma_updated_order<T>(order: Seq<NodeId>, snarl: Snarl<T>)
    requires
        snarl.wf(),
    ensures
        updated_order(order, snarl).no_duplicates(),
        forall|id: NodeId| #[trigger] updated_order(order, snarl).contains(id) <==> snarl.contains(id),
{
    let dom = snarl.node_map().dom();
    let kept = keep_present(order, dom);
    let added = absent_from(snarl.id_seq(), order);
    snarl.lemma_id_seq();
    lemma_keep_present(order, dom);
    lemma_absent_from(snarl.id_seq(), order);
    let r = kept + added;
    assert forall|id: NodeId| #[trigger] r.contains(id) <==> (kept.contains(id) || added.contains(id)) by {
        if r.contains(id) {
            let k = choose|k: int| 0 <= k < r.len() && r[k] == id;
            if k < kept.len() {
                assert(kept[k] == id);
            } else {
                assert(added[k - kept.len()] == id);
            }
        }
        if kept.contains(id) {
            let k = choose|k: int| 0 <= k < kept.len() && kept[k] == id;
            assert(r[k] == id);
        }
        if added.contains(id) {
            let k = choose|k: int| 0 <= k < added.len() && added[k] == id;
            assert(r[k + kept.len()] == id);
        }
    }
    assert forall|a: int, b: int| 0 <= a < r.len() && 0 <= b < r.len() && a != b implies r[a] != r[b] by {
        if a < kept.len() && b < kept.len() {
        } else if a >= kept.len() && b >= kept.len() {
            assert(r[a] == added[a - kept.len()]);
            assert(r[b] == added[b - kept.len()]);
        } else if a < kept.len() {
            assert(kept.contains(r[a]));
            assert(added.contains(r[b])) by { assert(r[b] == added[b - kept.len()]); }
        } else {
            assert(kept.contains(r[b]));
            assert(added.contains(r[a])) by { assert(r[a] == added[a - kept.len()]); }
        }
    }
}

/// Appending keeps the first occurrence of what was there, and puts a new
/// element's first occurrence at the end.
proof fn lemma_first_index_push<A>(t: Seq<A>, x: A, y: A)
    ensures
        t.contains(y) ==> first_index(t.push(x), y) == first_index(t, y),
        !t.contains(y) && y == x ==> first_index(t.push(x), y) == t.len(),
{
    lemma_first_index(t, y);
    let s = t.push(x);
    if t.contains(y) {
        let i = first_index(t, y);
        assert forall|j: int| 0 <= j < i implies s[j] != y by {
            assert(s[j] == t[j]);
        }
        lemma_first_index_at(s, y, i);
    } else if y == x {
        assert forall|j: int| 0 <= j < t.len() implies s[j] != y by {
            assert(s[j] == t[j]);
        }
        lemma_first_index_at(s, y, t.len() as int);
    }
}

/// The entries kept from a sequence come in the order of their first
/// occurrence in it.
proof fn lemma_keep_present_order(s: Seq<NodeId>, dom: Set<NodeId>)
    ensures
        forall|a: int, b: int| #![trigger keep_present(s, dom)[a], keep_present(s, dom)[b]]
            0 <= a < b < keep_present(s, dom).len()
            ==> first_index(s, keep_present(s, dom)[a]) < first_index(s, keep_present(s, dom)[b]),
    decreases s.len(),
{
    if s.len() > 0 {
        let t = s.drop_last();
        let x = s.last();
        lemma_keep_present_order(t, dom);
        lemma_keep_present(t, dom);
        let prev = keep_present(t, dom);
        assert(s =~= t.push(x));
        let k = keep_present(s, dom);
        assert forall|y: NodeId| prev.contains(y) implies first_index(s, y) == first_index(t, y) && first_index(t, y) < t.len() by {
            lemma_first_index_push(t, x, y);
            lemma_first_index(t, y);
        }
        if dom.contains(x) && !prev.contains(x) {
            assert(!t.contains(x));
            lemma_first_index_push(t, x, x);
            assert forall|a: int, b: int| #![trigger k[a], k[b]] 0 <= a < b < k.len()
                implies first_index(s, k[a]) < first_index(s, k[b]) by {
                assert(prev.contains(k[a])) by { assert(k[a] == prev[a]); }
                if b < prev.len() {
                    assert(k[b] == prev[b]);
                    assert(prev.contains(k[b]));
                    assert(k[a] == prev[a]);
                } else {
                    assert(k[b] == x);
                }
            }
        } else {
            assert forall|a: int, b: int| #![trigger k[a], k[b]] 0 <= a < b < k.len()
                implies first_index(s, k[a]) < first_index(s, k[b]) by {
                assert(prev.contains(prev[a]));
                assert(prev.contains(prev[b]));
            }
        }
    }
}

/// Law: bringing the draw order in line with a well-formed graph keeps the
/// nodes it already listed first, in the order of their first occurrence in
/// it, and puts the nodes it did not list after them, on top, in increasing
/// identifier order. Every node of the graph it listed stays listed.
pub proof fn lemma_updated_order_keeps_old_first<T>(order: Seq<NodeId>, snarl: Snarl<T>)
    requires
        snarl.wf(),
    ensures
        ({
            let r = updated_order(order, snarl);
            &&& forall|a: int, b: int| #![trigger r[a], r[b]]
                0 <= a < b < r.len() && order.contains(r[b]) ==> order.contains(r[a])
            &&& forall|a: int, b: int| #![trigger r[a], r[b]]
                0 <= a < b < r.len() && order.contains(r[b])
                ==> first_index(order, r[a]) < first_index(order, r[b])
            &&& forall|a: int, b: int| #![trigger r[a], r[b]]
                0 <= a < b < r.len() && !order.contains(r[a]) ==> r[a].0 < r[b].0
            &&& forall|k: int| 0 <= k < order.len() && snarl.contains(#[trigger] order[k]) ==> r.contains(order[k])
        }),
{
    let dom = snarl.node_map().dom();
    let ids = snarl.id_seq();
    let kept = keep_present(order, dom);
    let added = absent_from(ids, order);
    let r = kept + added;
    snarl.lemma_id_seq();
    lemma_keep_present(order, dom);
    lemma_keep_present_order(order, dom);
    lemma_absent_from(ids, order);
    lemma_updated_order(order, snarl);
    assert forall|k: int| 0 <= k < kept.len() implies order.contains(#[trigger] kept[k]) by {
        assert(kept.contains(kept[k]));
    }
    assert forall|k: int| 0 <= k < added.len() implies !order.contains(#[trigger] added[k]) by {
        assert(added.contains(added[k]));
    }
    assert forall|a: int, b: int| #![trigger r[a], r[b]]
        0 <= a < b < r.len() && order.contains(r[b]) implies order.contains(r[a])
            && first_index(order, r[a]) < first_index(order, r[b]) by {
        if b >= kept.len() {
            assert(r[b] == added[b - kept.len()]);
        }
        assert(r[a] == kept[a] && r[b] == kept[b]);
    }
    assert forall|a: int, b: int| #![trigger r[a], r[b]]
        0 <= a < b < r.len() && !order.contains(r[a]) implies r[a].0 < r[b].0 by {
        if a < kept.len() {
            assert(r[a] == kept[a]);
        }
        assert(r[a] == added[a - kept.len()] && r[b] == added[b - kept.len()]);
    }
    assert forall|k: int| 0 <= k < order.len() && snarl.contains(#[trigger] order[k]) implies r.contains(order[k]) by {
        assert(order.contains(order[k]));
    }
}

/// Filtering a sequence grown by one element.
proof fn lemma_filter_push<A>(t: Seq<A>, a: A, p: spec_fn(A) -> bool)
    ensures
        t.push(a).filter(p) == (if p(a) { t.filter(p).push(a) } else { t.filter(p) }),
{
    reveal(Seq::filter);
    assert(t.push(a).drop_last() =~= t);
    assert(t.push(a).last() == a);
}

/// What a filtered sequence holds.
proof fn lemma_filter_contains_iff<A>(s: Seq<A>, p: spec_fn(A) -> bool, y: A)
    ensures
        s.filter(p).contains(y) <==> (s.contains(y) && p(y)),
    decreases s.len(),
{
    if s.len() > 0 {
        let t = s.drop_last();
        let a = s.last();
        assert(s =~= t.push(a));
        lemma_filter_push(t, a, p);
        lemma_filter_contains_iff(t, p, y);
        crate::lemma_push_contains(t, a, y);
        crate::lemma_push_contains(t.filter(p), a, y);
    } else {
        reveal(Seq::filter);
    }
}

/// Filtering keeps a sequence free of repeats.
proof fn lemma_filter_no_dup<A>(s: Seq<A>, p: spec_fn(A) -> bool)
    requires
        s.no_duplicates(),
    ensures
        s.filter(p).no_duplicates(),
    decreases s.len(),
{
    if s.len() > 0 {
        let t = s.drop_last();
        let a = s.last();
        assert(s =~= t.push(a));
        assert(t.no_duplicates()) by {
            assert forall|i: int, j: int| 0 <= i < t.len() && 0 <= j < t.len() && i != j implies t[i] != t[j] by {
                assert(t[i] == s[i] && t[j] == s[j]);
            }
        }
        lemma_filter_push(t, a, p);
        lemma_filter_no_dup(t, p);
        if p(a) {
            lemma_filter_contains_iff(t, p, a);
            assert(!t.contains(a)) by {
                if t.contains(a) {
                    let k = choose|k: int| 0 <= k < t.len() && t[k] == a;
                    assert(s[k] == s[s.len() - 1]);
                }
            }
            crate::lemma_push_no_dup(t.filter(p), a);
        }
    } else {
        reveal(Seq::filter);
    }
}

/// Filtering twice is filtering by both predicates.
proof fn lemma_filter_filter<A>(s: Seq<A>, p: spec_fn(A) -> bool, q: spec_fn(A) -> bool, pq: spec_fn(A) -> bool)
    requires
        forall|y: A| #[trigger] pq(y) == (p(y) && q(y)),
    ensures
        s.filter(p).filter(q) == s.filter(pq),
    decreases s.len(),
{
    if s.len() > 0 {
        let t = s.drop_last();
        let a = s.last();
        assert(s =~= t.push(a));
        lemma_filter_filter(t, p, q, pq);
        lemma_filter_push(t, a, p);
        lemma_filter_push(t, a, pq);
        if p(a) {
            lemma_filter_push(t.filter(p), a, q);
        }
    } else {
        reveal(Seq::filter);
        assert(s.filter(p) =~= s);
    }
}

/// In a sequence without repeats, taking out the first occurrence of `x` is
/// keeping every element but `x`.
proof fn lemma_remove_first_filter<A>(s: Seq<A>, x: A, q: spec_fn(A) -> bool)
    requires
        s.no_duplicates(),
        forall|y: A| #[trigger] q(y) == (y != x),
    ensures
        remove_first(s, x) == s.filter(q),
    decreases s.len(),
{
    if s.len() > 0 {
        let t = s.drop_last();
        let a = s.last();
        assert(s =~= t.push(a));
        assert(t.no_duplicates()) by {
            assert forall|i: int, j: int| 0 <= i < t.len() && 0 <= j < t.len() && i != j implies t[i] != t[j] by {
                assert(t[i] == s[i] && t[j] == s[j]);
            }
        }
        lemma_remove_first_filter(t, x, q);
        lemma_filter_push(t, a, q);
        crate::lemma_push_contains(t, a, x);
        lemma_first_index_push(t, a, x);
        lemma_first_index(t, x);
        if t.contains(x) {
            let i = first_index(t, x);
            assert(a != x) by {
                assert(s[i] == x);
            }
            assert(s.remove(i) =~= t.remove(i).push(a));
        } else if a == x {
            assert(s.remove(t.len() as int) =~= t);
        }
    } else {
        reveal(Seq::filter);
        assert(s.filter(q) =~= s);
    }
}

/// Law: deselecting the given nodes one after the other, from a selection
/// without repeats, leaves exactly the selected nodes that are not listed, in
/// their old order; the state is marked changed when it was, or when a listed
/// node was selected.
pub proof fn lemma_deselect_each_removes_listed(sel: Seq<NodeId>, dirty: bool, nodes: Seq<NodeId>)
    requires
        sel.no_duplicates(),
    ensures
        deselect_each(sel, dirty, nodes).0 == sel.filter(|y: NodeId| !nodes.contains(y)),
        deselect_each(sel, dirty, nodes).1 == (dirty || exists|y: NodeId| nodes.contains(y) && sel.contains(y)),
    decreases nodes.len(),
{
    let p = |y: NodeId| !nodes.contains(y);
    if nodes.len() == 0 {
        assert(sel.filter(p) =~= sel) by {
            lemma_filter_all(sel, p);
        }
    } else {
        let m = nodes.drop_last();
        let x = nodes.last();
        assert(nodes =~= m.push(x));
        let pm = |y: NodeId| !m.contains(y);
        let q = |y: NodeId| y != x;
        lemma_deselect_each_removes_listed(sel, dirty, m);
        let prev = sel.filter(pm);
        lemma_filter_no_dup(sel, pm);
        lemma_filter_filter(sel, pm, q, p);
        assert forall|y: NodeId| #[trigger] nodes.contains(y) <==> (m.contains(y) || y == x) by {
            crate::lemma_push_contains(m, x, y);
        }
        lemma_remove_first_filter(prev, x, q);
        lemma_filter_contains_iff(sel, pm, x);
        if exists|y: NodeId| nodes.contains(y) && sel.contains(y) {
            let y = choose|y: NodeId| nodes.contains(y) && sel.contains(y);
            if y != x {
                assert(m.contains(y) && sel.contains(y));
            }
        }
    }
}

/// `y` occurs in `nodes` after every occurrence of `x`.
#[verifier::opaque]
pub open spec fn occurs_after_all(nodes: Seq<NodeId>, x: NodeId, y: NodeId) -> bool {
    exists|j: int| 0 <= j < nodes.len() && #[trigger] nodes[j] == y
        && forall|i: int| j <= i < nodes.len() ==> #[trigger] nodes[i] != x
}

/// Each element of `l` occurs in `nodes` after every occurrence of each
/// element before it: `l` follows the order of last occurrences in `nodes`.
#[verifier::opaque]
pub open spec fn in_last_occurrence_order(l: Seq<NodeId>, nodes: Seq<NodeId>) -> bool {
    forall|a: int, b: int| 0 <= a < b < l.len() ==> #[trigger] occurs_after_all(nodes, l[a], l[b])
}

/// Appending to the list keeps what occurred after every occurrence of
/// something else, and the appended element occurs after everything else.
proof fn lemma_occurs_after_push(m: Seq<NodeId>, z: NodeId, x: NodeId, y: NodeId)
    requires
        x != z,
    ensures
        occurs_after_all(m, x, y) ==> occurs_after_all(m.push(z), x, y),
        occurs_after_all(m.push(z), x, z),
{
    reveal(occurs_after_all);
    let n = m.push(z);
    if occurs_after_all(m, x, y) {
        let j = choose|j: int| 0 <= j < m.len() && #[trigger] m[j] == y
            && forall|i: int| j <= i < m.len() ==> #[trigger] m[i] != x;
        assert(n[j] == y);
        assert forall|i: int| j <= i < n.len() implies #[trigger] n[i] != x by {
            if i < m.len() {
                assert(n[i] == m[i]);
            }
        }
    }
    assert(n[m.len() as int] == z);
    assert forall|i: int| m.len() <= i < n.len() implies #[trigger] n[i] != x by {}
}

/// Taking an element out keeps the order of the rest.
proof fn lemma_in_order_remove(l: Seq<NodeId>, m: Seq<NodeId>, k: int)
    requires
        in_last_occurrence_order(l, m),
        0 <= k < l.len(),
    ensures
        in_last_occurrence_order(l.remove(k), m),
{
    reveal(in_last_occurrence_order);
    let t = l.remove(k);
    assert forall|a: int, b: int| 0 <= a < b < t.len() implies #[trigger] occurs_after_all(m, t[a], t[b]) by {
        let a3 = if a < k { a } else { a + 1 };
        let b3 = if b < k { b } else { b + 1 };
        assert(t[a] == l[a3] && t[b] == l[b3]);
        assert(occurs_after_all(m, l[a3], l[b3]));
    }
}

/// Appending a new element to both the ordered sequence and the list keeps
/// the order.
proof fn lemma_in_order_push(l: Seq<NodeId>, m: Seq<NodeId>, x: NodeId)
    requires
        in_last_occurrence_order(l, m),
        !l.contains(x),
    ensures
        in_last_occurrence_order(l.push(x), m.push(x)),
{
    reveal(in_last_occurrence_order);
    let t = l.push(x);
    assert forall|a: int, b: int| 0 <= a < b < t.len() implies #[trigger] occurs_after_all(m.push(x), t[a], t[b]) by {
        assert(t[a] == l[a]);
        assert(l[a] != x) by {
            assert(l.contains(l[a]));
        }
        lemma_occurs_after_push(m, x, l[a], t[b]);
        if b < l.len() {
            assert(t[b] == l[b]);
            assert(occurs_after_all(m, l[a], l[b]));
        } else {
            assert(t[b] == x);
        }
    }
}

/// A selection built from `sel` and the list `m`, that starts with the
/// unlisted selected nodes, continues with exactly the listed nodes.
proof fn lemma_selection_split(pp: Seq<NodeId>, sel: Seq<NodeId>, m: Seq<NodeId>, fm: Seq<NodeId>)
    requires
        pp.no_duplicates(),
        fm.len() <= pp.len(),
        pp.take(fm.len() as int) == fm,
        forall|y: NodeId| #[trigger] pp.contains(y) <==> (sel.contains(y) || m.contains(y)),
        forall|y: NodeId| #[trigger] fm.contains(y) <==> (sel.contains(y) && !m.contains(y)),
    ensures
        pp == fm + pp.skip(fm.len() as int),
        pp.skip(fm.len() as int).no_duplicates(),
        forall|y: NodeId| #[trigger] pp.skip(fm.len() as int).contains(y) <==> m.contains(y),
{
    let fl = fm.len() as int;
    let l = pp.skip(fl);
    assert(pp =~= pp.take(fl) + l);
    assert(l.no_duplicates()) by {
        assert forall|i: int, j: int| 0 <= i < l.len() && 0 <= j < l.len() && i != j implies l[i] != l[j] by {
            assert(l[i] == pp[i + fl] && l[j] == pp[j + fl]);
        }
    }
    assert forall|y: NodeId| #[trigger] l.contains(y) <==> m.contains(y) by {
        if l.contains(y) {
            let k = choose|k: int| 0 <= k < l.len() && l[k] == y;
            assert(pp[k + fl] == y);
            assert(pp.contains(y));
            if fm.contains(y) {
                let i = choose|i: int| 0 <= i < fm.len() && fm[i] == y;
                assert(pp[i] == y);
            }
        }
        if m.contains(y) {
            assert(pp.contains(y));
            let k = choose|k: int| 0 <= k < pp.len() && pp[k] == y;
            if k < fl {
                assert(fm[k] == y);
                assert(fm.contains(y));
            } else {
                assert(l[k - fl] == y);
            }
        }
    }
}

/// One step of selecting without reset, from a selection laid out as the
/// unlisted selected nodes followed by the listed ones: the node taken out and
/// put last keeps that layout for the list grown by it.
#[verifier::spinoff_prover]
proof fn lemma_select_step(
    sel: Seq<NodeId>,
    m: Seq<NodeId>,
    x: NodeId,
    pp: Seq<NodeId>,
    p: spec_fn(NodeId) -> bool,
    pm: spec_fn(NodeId) -> bool,
    q: spec_fn(NodeId) -> bool,
)
    requires
        sel.no_duplicates(),
        forall|y: NodeId| #[trigger] p(y) == !m.push(x).contains(y),
        forall|y: NodeId| #[trigger] pm(y) == !m.contains(y),
        forall|y: NodeId| #[trigger] q(y) == (y != x),
        pp.no_duplicates(),
        forall|y: NodeId| #[trigger] pp.contains(y) <==> (sel.contains(y) || m.contains(y)),
        sel.filter(pm).len() <= pp.len(),
        pp.take(sel.filter(pm).len() as int) == sel.filter(pm),
        in_last_occurrence_order(pp.skip(sel.filter(pm).len() as int), m),
    ensures
        ({
            let r = remove_first(pp, x).push(x);
            let f = sel.filter(p);
            &&& r.no_duplicates()
            &&& forall|y: NodeId| #[trigger] r.contains(y) <==> (sel.contains(y) || m.push(x).contains(y))
            &&& f.len() <= r.len()
            &&& r.take(f.len() as int) == f
            &&& in_last_occurrence_order(r.skip(f.len() as int), m.push(x))
        }),
{
    let nodes = m.push(x);
    assert forall|y: NodeId| #[trigger] nodes.contains(y) <==> (m.contains(y) || y == x) by {
        crate::lemma_push_contains(m, x, y);
    }
    let fm = sel.filter(pm);
    assert forall|y: NodeId| #[trigger] fm.contains(y) <==> (sel.contains(y) && !m.contains(y)) by {
        lemma_filter_contains_iff(sel, pm, y);
    }
    lemma_selection_split(pp, sel, m, fm);
    let l = pp.skip(fm.len() as int);
    lemma_remove_first_filter(pp, x, q);
    Seq::filter_distributes_over_add(fm, l, q);
    lemma_filter_filter(sel, pm, q, p);
    let fnn = fm.filter(q);
    let lq = l.filter(q);
    let rr = remove_first(pp, x);
    let r = rr.push(x);
    assert(rr == fnn + lq);
    assert(r =~= fnn + lq.push(x));
    assert(r.take(fnn.len() as int) =~= fnn);
    assert(r.skip(fnn.len() as int) =~= lq.push(x));
    lemma_filter_no_dup(pp, q);
    assert forall|y: NodeId| #[trigger] rr.contains(y) <==> (pp.contains(y) && y != x) by {
        lemma_filter_contains_iff(pp, q, y);
    }
    crate::lemma_push_no_dup(rr, x);
    assert forall|y: NodeId| #[trigger] r.contains(y) <==> (sel.contains(y) || nodes.contains(y)) by {
        crate::lemma_push_contains(rr, x, y);
    }
    assert(!lq.contains(x)) by {
        lemma_filter_contains_iff(l, q, x);
    }
    if l.contains(x) {
        lemma_remove_first_filter(l, x, q);
        lemma_first_index(l, x);
        lemma_in_order_remove(l, m, first_index(l, x));
    } else {
        lemma_filter_all(l, q);
    }
    lemma_in_order_push(lq, m, x);
}

/// Law: selecting the given nodes one after the other without reset, from a
/// selection without repeats, gives a selection without repeats that holds
/// exactly the old selection and the listed nodes. First come the selected
/// nodes that are not listed, in their old order; then the listed nodes, in
/// the order of their last occurrence in the list, so the last listed node is
/// selected last. The state is marked changed when it was, and whenever the
/// selection changed.
#[verifier::spinoff_prover]
pub proof fn lemma_select_each_moves_listed_last(sel: Seq<NodeId>, dirty: bool, nodes: Seq<NodeId>)
    requires
        sel.no_duplicates(),
    ensures
        ({
            let r = select_each(sel, dirty, nodes).0;
            let f = sel.filter(|y: NodeId| !nodes.contains(y));
            &&& r.no_duplicates()
            &&& forall|y: NodeId| #[trigger] r.contains(y) <==> (sel.contains(y) || nodes.contains(y))
            &&& f.len() <= r.len()
            &&& r.take(f.len() as int) == f
            &&& in_last_occurrence_order(r.skip(f.len() as int), nodes)
            &&& nodes.len() > 0 ==> r.len() > 0 && r.last() == nodes.last()
            &&& dirty ==> select_each(sel, dirty, nodes).1
            &&& r != sel ==> select_each(sel, dirty, nodes).1
        }),
    decreases nodes.len(),
{
    let p = |y: NodeId| !nodes.contains(y);
    if nodes.len() == 0 {
        lemma_filter_all(sel, p);
        assert(sel.take(sel.len() as int) =~= sel);
        reveal(in_last_occurrence_order);
    } else {
        let m = nodes.drop_last();
        let x = nodes.last();
        assert(nodes =~= m.push(x));
        lemma_select_each_moves_listed_last(sel, dirty, m);
        let pp = select_each(sel, dirty, m).0;
        lemma_select_step(sel, m, x, pp, p, |y: NodeId| !m.contains(y), |y: NodeId| y != x);
        if select_each(sel, dirty, nodes).0 != sel && pp == sel {
            if only_last(pp, x) {
                lemma_first_index(pp, x);
                assert(pp.remove(pp.len() - 1).push(x) =~= pp);
            }
        }
    }
}

/// Law: in a sequence without repeats, taking out the first occurrence of `x`
/// keeps every other element in its order and leaves no `x`; putting `x` back
/// at the end then gives it the last place, with no repeats.
pub proof fn lemma_take_out_and_put_last(s: Seq<NodeId>, x: NodeId)
    requires
        s.no_duplicates(),
    ensures
        remove_first(s, x) == s.filter(|y: NodeId| y != x),
        !remove_first(s, x).contains(x),
        s.contains(x) ==> remove_first(s, x).len() + 1 == s.len(),
        remove_first(s, x).push(x).last() == x,
        remove_first(s, x).push(x).drop_last() == s.filter(|y: NodeId| y != x),
        remove_first(s, x).push(x).no_duplicates(),
{
    let q = |y: NodeId| y != x;
    lemma_remove_first_filter(s, x, q);
    lemma_filter_contains_iff(s, q, x);
    lemma_filter_no_dup(s, q);
    crate::lemma_push_no_dup(remove_first(s, x), x);
    assert(remove_first(s, x).push(x).drop_last() =~= remove_first(s, x));
    lemma_first_index(s, x);
}

/// A filter whose predicate every element meets keeps the whole sequence.
proof fn lemma_filter_all<A>(s: Seq<A>, p: spec_fn(A) -> bool)
    requires
        forall|i: int| 0 <= i < s.len() ==> p(#[trigger] s[i]),
    ensures
        s.filter(p) == s,
    decreases s.len(),
{
    if s.len() > 0 {
        let t = s.drop_last();
        assert(s =~= t.push(s.last()));
        assert forall|i: int| 0 <= i < t.len() implies p(#[trigger] t[i]) by {
            assert(t[i] == s[i]);
        }
        lemma_filter_all(t, p);
        lemma_filter_push(t, s.last(), p);
    } else {
        reveal(Seq::filter);
        assert(s.filter(p) =~= s);
    }
}

// ---------------------------------------------------------------------------
// The state

/// Active rectangle selection: where it started and where it is now.
#[derive(Clone, Copy)]
pub struct RectSelect {
    /// Corner where the selection started.
    pub origin: egui::Pos2,
    /// Opposite corner, following the pointer.
    pub current: egui::Pos2,
}

/// Interaction state of a graph view.
pub struct SnarlState {
    /// Viewport transform to global space.
    to_global: egui::emath::TSTransform,
    new_wires: Option<NewWires>,
    /// The new wires are owned by the menu now.
    new_wires_menu: bool,
    id: egui::Id,
    /// The state changed and must be saved.
    dirty: bool,
    rect_selection: Option<RectSelect>,
    /// Order in which the nodes are drawn.
    draw_order: Vec<NodeId>,
    /// Currently selected nodes.
    selected_nodes: NodeIdList,
}

/// Model of [`SnarlState`].
pub struct SnarlStateView {
    pub to_global: egui::emath::TSTransform,
    pub new_wires: Option<PinsView>,
    pub new_wires_menu: bool,
    pub id: egui::Id,
    pub dirty: bool,
    pub rect_selection: Option<RectSelect>,
    pub draw_order: Seq<NodeId>,
    pub selected_nodes: Seq<NodeId>,
}

/// The parts of a [`SnarlState`], as they are stored between frames.
pub struct SnarlStateParts {
    pub to_global: egui::emath::TSTransform,
    pub new_wires: Option<NewWires>,
    pub new_wires_menu: bool,
    pub id: egui::Id,
    pub dirty: bool,
    pub rect_selection: Option<RectSelect>,
    pub draw_order: Vec<NodeId>,
    pub selected_nodes: Vec<NodeId>,
}

pub open spec fn pins_view(w: Option<NewWires>) -> Option<PinsView> {
    match w {
        Some(w) => Some(w@),
        None => None,
    }
}

/// The state after an input pin joins the wires dragged from input pins:
/// nothing changes when it is among them already.
pub open spec fn with_new_wire_in(v: SnarlStateView, pin: InPinId) -> SnarlStateView {
    let pins = v.new_wires->Some_0->In_0;
    if pins.contains(pin) {
        v
    } else {
        SnarlStateView { new_wires: Some(PinsView::In(pins.push(pin))), dirty: true, ..v }
    }
}

/// The state after an output pin joins the wires dragged from output pins:
/// nothing changes when it is among them already.
pub open spec fn with_new_wire_out(v: SnarlStateView, pin: OutPinId) -> SnarlStateView {
    let pins = v.new_wires->Some_0->Out_0;
    if pins.contains(pin) {
        v
    } else {
        SnarlStateView { new_wires: Some(PinsView::Out(pins.push(pin))), dirty: true, ..v }
    }
}

/// The state after an input pin leaves the wires dragged from input pins:
/// its first occurrence takes the last pin, and the last place goes.
pub open spec fn without_new_wire_in(v: SnarlStateView, pin: InPinId) -> SnarlStateView {
    let pins = v.new_wires->Some_0->In_0;
    if pins.contains(pin) {
        SnarlStateView {
            new_wires: Some(PinsView::In(pins.update(first_index(pins, pin), pins.last()).drop_last())),
            dirty: true,
            ..v
        }
    } else {
        v
    }
}

/// The state after an output pin leaves the wires dragged from output pins:
/// its first occurrence takes the last pin, and the last place goes.
pub open spec fn without_new_wire_out(v: SnarlStateView, pin: OutPinId) -> SnarlStateView {
    let pins = v.new_wires->Some_0->Out_0;
    if pins.contains(pin) {
        SnarlStateView {
            new_wires: Some(PinsView::Out(pins.update(first_index(pins, pin), pins.last()).drop_last())),
            dirty: true,
            ..v
        }
    } else {
        v
    }
}

/// Taking the first occurrence of `x` out of `s` by moving the last element
/// into its place: the result is one shorter, keeps every other element, and
/// loses `x` when `x` occurred only once.
proof fn lemma_swap_remove_first<A>(s: Seq<A>, x: A)
    requires
        s.contains(x),
    ensures
        ({
            let r = s.update(first_index(s, x), s.last()).drop_last();
            &&& r.len() + 1 == s.len()
            &&& forall|y: A| y != x ==> (#[trigger] r.contains(y) <==> s.contains(y))
            &&& (forall|i: int, j: int| 0 <= i < j < s.len() ==> !(s[i] == x && s[j] == x)) ==> !r.contains(x)
        }),
{
    lemma_first_index(s, x);
    let i = first_index(s, x);
    let n = s.len() - 1;
    let r = s.update(i, s.last()).drop_last();
    assert forall|y: A| y != x implies (#[trigger] r.contains(y) <==> s.contains(y)) by {
        if s.contains(y) {
            let k = choose|k: int| 0 <= k < s.len() && s[k] == y;
            if k < n {
                assert(k != i);
                assert(r[k] == y);
            } else {
                assert(i != n);
                assert(r[i] == y);
            }
        }
        if r.contains(y) {
            let k = choose|k: int| 0 <= k < r.len() && r[k] == y;
            if k == i {
                assert(s[n] == y);
            } else {
                assert(s[k] == y);
            }
        }
    }
    if (forall|a: int, b: int| 0 <= a < b < s.len() ==> !(s[a] == x && s[b] == x)) && r.contains(x) {
        let k = choose|k: int| 0 <= k < r.len() && r[k] == x;
        if k == i {
            assert(s[n] == x && s[i] == x && i < n);
        } else if k < i {
            assert(s[k] == x);
        } else {
            assert(s[k] == x && s[i] == x);
        }
    }
}

/// Law: adding an input pin to the wires dragged from input pins leaves it
/// among them. A pin not yet there is appended (the list gets one longer and
/// the state is marked changed); a pin already there changes nothing; every
/// other pin stays; nothing else changes.
pub proof fn lemma_with_new_wire_in(v: SnarlStateView, pin: InPinId)
    requires
        v.new_wires matches Some(PinsView::In(_)),
    ensures
        ({
            let before = v.new_wires->Some_0->In_0;
            let w = with_new_wire_in(v, pin);
            let after = w.new_wires->Some_0->In_0;
            &&& w.new_wires matches Some(PinsView::In(_))
            &&& w == (SnarlStateView { new_wires: w.new_wires, dirty: w.dirty, ..v })
            &&& after.contains(pin)
            &&& forall|y: InPinId| y != pin ==> (#[trigger] after.contains(y) <==> before.contains(y))
            &&& !before.contains(pin) ==> after.len() == before.len() + 1 && after.last() == pin
                && after.drop_last() == before && w.dirty
            &&& before.contains(pin) ==> w == v
        }),
{
    let before = v.new_wires->Some_0->In_0;
    assert forall|y: InPinId| #[trigger] before.push(pin).contains(y) <==> (before.contains(y) || y == pin) by {
        crate::lemma_push_contains(before, pin, y);
    }
    assert(before.push(pin).drop_last() =~= before);
}

/// Law: adding an output pin to the wires dragged from output pins leaves it
/// among them. A pin not yet there is appended (the list gets one longer and
/// the state is marked changed); a pin already there changes nothing; every
/// other pin stays; nothing else changes.
pub proof fn lemma_with_new_wire_out(v: SnarlStateView, pin: OutPinId)
    requires
        v.new_wires matches Some(PinsView::Out(_)),
    ensures
        ({
            let before = v.new_wires->Some_0->Out_0;
            let w = with_new_wire_out(v, pin);
            let after = w.new_wires->Some_0->Out_0;
            &&& w.new_wires matches Some(PinsView::Out(_))
            &&& w == (SnarlStateView { new_wires: w.new_wires, dirty: w.dirty, ..v })
            &&& after.contains(pin)
            &&& forall|y: OutPinId| y != pin ==> (#[trigger] after.contains(y) <==> before.contains(y))
            &&& !before.contains(pin) ==> after.len() == before.len() + 1 && after.last() == pin
                && after.drop_last() == before && w.dirty
            &&& before.contains(pin) ==> w == v
        }),
{
    let before = v.new_wires->Some_0->Out_0;
    assert forall|y: OutPinId| #[trigger] before.push(pin).contains(y) <==> (before.contains(y) || y == pin) by {
        crate::lemma_push_contains(before, pin, y);
    }
    assert(before.push(pin).drop_last() =~= before);
}

/// Law: taking an input pin out of the wires dragged from input pins takes
/// exactly one occurrence of it out. When it was among them the list gets one
/// shorter and the state is marked changed; a pin held once is no longer
/// among them; every other pin stays; nothing else changes.
pub proof fn lemma_without_new_wire_in(v: SnarlStateView, pin: InPinId)
    requires
        v.new_wires matches Some(PinsView::In(_)),
    ensures
        ({
            let before = v.new_wires->Some_0->In_0;
            let w = without_new_wire_in(v, pin);
            let after = w.new_wires->Some_0->In_0;
            &&& w.new_wires matches Some(PinsView::In(_))
            &&& w == (SnarlStateView { new_wires: w.new_wires, dirty: w.dirty, ..v })
            &&& before.contains(pin) ==> after.len() + 1 == before.len() && w.dirty
            &&& !before.contains(pin) ==> w == v
            &&& forall|y: InPinId| y != pin ==> (#[trigger] after.contains(y) <==> before.contains(y))
            &&& (forall|i: int, j: int| 0 <= i < j < before.len() ==> !(before[i] == pin && before[j] == pin))
                ==> !after.contains(pin)
        }),
{
    let before = v.new_wires->Some_0->In_0;
    if before.contains(pin) {
        lemma_swap_remove_first(before, pin);
    }
}

/// Law: taking an output pin out of the wires dragged from output pins takes
/// exactly one occurrence of it out. When it was among them the list gets one
/// shorter and the state is marked changed; a pin held once is no longer
/// among them; every other pin stays; nothing else changes.
pub proof fn lemma_without_new_wire_out(v: SnarlStateView, pin: OutPinId)
    requires
        v.new_wires matches Some(PinsView::Out(_)),
    ensures
        ({
            let before = v.new_wires->Some_0->Out_0;
            let w = without_new_wire_out(v, pin);
            let after = w.new_wires->Some_0->Out_0;
            &&& w.new_wires matches Some(PinsView::Out(_))
            &&& w == (SnarlStateView { new_wires: w.new_wires, dirty: w.dirty, ..v })
            &&& before.contains(pin) ==> after.len() + 1 == before.len() && w.dirty
            &&& !before.contains(pin) ==> w == v
            &&& forall|y: OutPinId| y != pin ==> (#[trigger] after.contains(y) <==> before.contains(y))
            &&& (forall|i: int, j: int| 0 <= i < j < before.len() ==> !(before[i] == pin && before[j] == pin))
                ==> !after.contains(pin)
        }),
{
    let before = v.new_wires->Some_0->Out_0;
    if before.contains(pin) {
        lemma_swap_remove_first(before, pin);
    }
}

impl View for SnarlState {
    type V = SnarlStateView;

    closed spec fn view(&self) -> SnarlStateView {
        SnarlStateView {
            to_global: self.to_global,
            new_wires: pins_view(self.new_wires),
            new_wires_menu: self.new_wires_menu,
            id: self.id,
            dirty: self.dirty,
            rect_selection: self.rect_selection,
            draw_order: self.draw_order@,
            selected_nodes: node_list(self.selected_nodes),
        }
    }
}

impl SnarlState {
    /// Rebuilds the state from its stored parts.
    pub fn from_parts(parts: SnarlStateParts) -> (r: Self)
        ensures
            r@ == (SnarlStateView {
                to_global: parts.to_global,
                new_wires: pins_view(parts.new_wires),
                new_wires_menu: parts.new_wires_menu,
                id: parts.id,
                dirty: parts.dirty,
                rect_selection: parts.rect_selection,
                draw_order: parts.draw_order@,
                selected_nodes: parts.selected_nodes@,
            }),
    {
        SnarlState {
            to_global: parts.to_global,
            new_wires: parts.new_wires,
            new_wires_menu: parts.new_wires_menu,
            id: parts.id,
            dirty: parts.dirty,
            rect_selection: parts.rect_selection,
            draw_order: parts.draw_order,
            selected_nodes: node_list_from_vec(parts.selected_nodes),
        }
    }

    /// Takes the state apart for storing.
    pub fn into_parts(self) -> (r: SnarlStateParts)
        ensures
            self@ == (SnarlStateView {
                to_global: r.to_global,
                new_wires: pins_view(r.new_wires),
                new_wires_menu: r.new_wires_menu,
                id: r.id,
                dirty: r.dirty,
                rect_selection: r.rect_selection,
                draw_order: r.draw_order@,
                selected_nodes: r.selected_nodes@,
            }),
    {
        SnarlStateParts {
            to_global: self.to_global,
            new_wires: self.new_wires,
            new_wires_menu: self.new_wires_menu,
            id: self.id,
            dirty: self.dirty,
            rect_selection: self.rect_selection,
            draw_order: self.draw_order,
            selected_nodes: node_list_into_vec(self.selected_nodes),
        }
    }

    /// Fresh state of a view: no wires dragged, nothing selected, nothing
    /// ordered yet; to be saved.
    pub fn initial(id: egui::Id, to_global: egui::emath::TSTransform) -> (r: Self)
        ensures
            r@ == (SnarlStateView {
                to_global: to_global,
                new_wires: None,
                new_wires_menu: false,
                id: id,
                dirty: true,
                rect_selection: None,
                draw_order: Seq::<NodeId>::empty(),
                selected_nodes: Seq::<NodeId>::empty(),
            }),
    {
        SnarlState {
            to_global,
            new_wires: None,
            new_wires_menu: false,
            id,
            dirty: true,
            draw_order: Vec::new(),
            rect_selection: None,
            selected_nodes: node_list_new(),
        }
    }

    /// Whether the state changed since it was loaded.
    pub fn is_dirty(&self) -> (r: bool)
        ensures
            r == self@.dirty,
    {
        self.dirty
    }

    /// Viewport transform to global space.
    pub fn to_global(&self) -> (r: egui::emath::TSTransform)
        ensures
            r == self@.to_global,
    {
        self.to_global
    }

    /// Sets a new viewport transform, which the caller found to differ from
    /// the current one, and marks the state to be saved.
    pub fn replace_to_global(&mut self, to_global: egui::emath::TSTransform)
        ensures
            final(self)@ == (SnarlStateView { to_global: to_global, dirty: true, ..old(self)@ }),
    {
        self.to_global = to_global;
        self.dirty = true;
    }

    /// Starts dragging a new wire from the input pin.
    pub fn start_new_wire_in(&mut self, pin: InPinId)
        ensures
            final(self)@ == (SnarlStateView {
                new_wires: Some(PinsView::In(seq![pin])),
                new_wires_menu: false,
                dirty: true,
                ..old(self)@
            }),
    {
        let mut pins = Vec::new();
        pins.push(pin);
        assert(pins@ =~= seq![pin]);
        self.new_wires = Some(NewWires::from_in_pins(pins.as_slice()));
        self.new_wires_menu = false;
        self.dirty = true;
    }

    /// Starts dragging a new wire from the output pin.
    pub fn start_new_wire_out(&mut self, pin: OutPinId)
        ensures
            final(self)@ == (SnarlStateView {
                new_wires: Some(PinsView::Out(seq![pin])),
                new_wires_menu: false,
                dirty: true,
                ..old(self)@
            }),
    {
        let mut pins = Vec::new();
        pins.push(pin);
        assert(pins@ =~= seq![pin]);
        self.new_wires = Some(NewWires::from_out_pins(pins.as_slice()));
        self.new_wires_menu = false;
        self.dirty = true;
    }

    /// Starts dragging new wires from the input pins.
    pub fn start_new_wires_in(&mut self, pins: &[InPinId])
        ensures
            final(self)@ == (SnarlStateView {
                new_wires: Some(PinsView::In(pins@)),
                new_wires_menu: false,
                dirty: true,
                ..old(self)@
            }),
    {
        self.new_wires = Some(NewWires::from_in_pins(pins));
        self.new_wires_menu = false;
        self.dirty = true;
    }

    /// Starts dragging new wires from the output pins.
    pub fn start_new_wires_out(&mut self, pins: &[OutPinId])
        ensures
            final(self)@ == (SnarlStateView {
                new_wires: Some(PinsView::Out(pins@)),
                new_wires_menu: false,
                dirty: true,
                ..old(self)@
            }),
    {
        self.new_wires = Some(NewWires::from_out_pins(pins));
        self.new_wires_menu = false;
        self.dirty = true;
    }

    /// Adds an input pin to the wires dragged from input pins, unless it is
    /// there already.
    pub fn add_new_wire_in(&mut self, pin: InPinId)
        requires
            !old(self)@.new_wires_menu,
            old(self)@.new_wires matches Some(PinsView::In(_)),
        ensures
            final(self)@ == with_new_wire_in(old(self)@, pin),
            final(self)@.new_wires->Some_0->In_0.contains(pin),
            forall|y: InPinId| y != pin ==> (#[trigger] final(self)@.new_wires->Some_0->In_0.contains(y)
                <==> old(self)@.new_wires->Some_0->In_0.contains(y)),
    {
        proof {
            lemma_with_new_wire_in(self@, pin);
        }
        match &mut self.new_wires {
            Some(NewWires::In(pins)) => {
                if position_in_pin(in_pin_list_as_slice(pins), pin).is_none() {
                    in_pin_list_push(pins, pin);
                    self.dirty = true;
                }
            },
            _ => {},
        }
    }

    /// Adds an output pin to the wires dragged from output pins, unless it is
    /// there already.
    pub fn add_new_wire_out(&mut self, pin: OutPinId)
        requires
            !old(self)@.new_wires_menu,
            old(self)@.new_wires matches Some(PinsView::Out(_)),
        ensures
            final(self)@ == with_new_wire_out(old(self)@, pin),
            final(self)@.new_wires->Some_0->Out_0.contains(pin),
            forall|y: OutPinId| y != pin ==> (#[trigger] final(self)@.new_wires->Some_0->Out_0.contains(y)
                <==> old(self)@.new_wires->Some_0->Out_0.contains(y)),
    {
        proof {
            lemma_with_new_wire_out(self@, pin);
        }
        match &mut self.new_wires {
            Some(NewWires::Out(pins)) => {
                if position_out_pin(out_pin_list_as_slice(pins), pin).is_none() {
                    out_pin_list_push(pins, pin);
                    self.dirty = true;
                }
            },
            _ => {},
        }
    }

    /// Removes an input pin from the wires dragged from input pins: its first
    /// occurrence takes the last pin, and the last place goes.
    pub fn remove_new_wire_in(&mut self, pin: InPinId)
        requires
            !old(self)@.new_wires_menu,
            old(self)@.new_wires matches Some(PinsView::In(_)),
        ensures
            final(self)@ == without_new_wire_in(old(self)@, pin),
            old(self)@.new_wires->Some_0->In_0.contains(pin) ==>
                final(self)@.new_wires->Some_0->In_0.len() + 1 == old(self)@.new_wires->Some_0->In_0.len(),
            forall|y: InPinId| y != pin ==> (#[trigger] final(self)@.new_wires->Some_0->In_0.contains(y)
                <==> old(self)@.new_wires->Some_0->In_0.contains(y)),
    {
        proof {
            lemma_without_new_wire_in(self@, pin);
        }
        match &mut self.new_wires {
            Some(NewWires::In(pins)) => {
                match position_in_pin(in_pin_list_as_slice(pins), pin) {
                    Some(idx) => {
                        in_pin_list_swap_remove(pins, idx);
                        self.dirty = true;
                    },
                    None => {},
                }
            },
            _ => {},
        }
    }

    /// Removes an output pin from the wires dragged from output pins: its
    /// first occurrence takes the last pin, and the last place goes.
    pub fn remove_new_wire_out(&mut self, pin: OutPinId)
        requires
            !old(self)@.new_wires_menu,
            old(self)@.new_wires matches Some(PinsView::Out(_)),
        ensures
            final(self)@ == without_new_wire_out(old(self)@, pin),
            old(self)@.new_wires->Some_0->Out_0.contains(pin) ==>
                final(self)@.new_wires->Some_0->Out_0.len() + 1 == old(self)@.new_wires->Some_0->Out_0.len(),
            forall|y: OutPinId| y != pin ==> (#[trigger] final(self)@.new_wires->Some_0->Out_0.contains(y)
                <==> old(self)@.new_wires->Some_0->Out_0.contains(y)),
    {
        proof {
            lemma_without_new_wire_out(self@, pin);
        }
        match &mut self.new_wires {
            Some(NewWires::Out(pins)) => {
                match position_out_pin(out_pin_list_as_slice(pins), pin) {
                    Some(idx) => {
                        out_pin_list_swap_remove(pins, idx);
                        self.dirty = true;
                    },
                    None => {},
                }
            },
            _ => {},
        }
    }

    /// Whether new wires are being dragged (and not held by the menu).
    pub fn has_new_wires(&self) -> (r: bool)
        ensures
            r == (self@.new_wires is Some && !self@.new_wires_menu),
    {
        self.new_wires.is_some() && !self.new_wires_menu
    }

    /// Whether new wires from input pins are being dragged.
    pub fn has_new_wires_in(&self) -> (r: bool)
        ensures
            r == (self@.new_wires matches Some(PinsView::In(_)) && !self@.new_wires_menu),
    {
        match &self.new_wires {
            Some(NewWires::In(_)) => !self.new_wires_menu,
            _ => false,
        }
    }

    /// Whether new wires from output pins are being dragged.
    pub fn has_new_wires_out(&self) -> (r: bool)
        ensures
            r == (self@.new_wires matches Some(PinsView::Out(_)) && !self@.new_wires_menu),
    {
        match &self.new_wires {
            Some(NewWires::Out(_)) => !self.new_wires_menu,
            _ => false,
        }
    }

    /// The new wires being dragged (not those held by the menu).
    pub fn new_wires(&self) -> (r: Option<&NewWires>)
        ensures
            r is Some <==> (self@.new_wires is Some && !self@.new_wires_menu),
            r matches Some(w) ==> Some(w@) == self@.new_wires,
    {
        if self.new_wires_menu {
            None
        } else {
            self.new_wires.as_ref()
        }
    }

    /// Takes the new wires being dragged (not those held by the menu).
    pub fn take_new_wires(&mut self) -> (r: Option<NewWires>)
        ensures
            (old(self)@.new_wires is Some && !old(self)@.new_wires_menu) ==> {
                &&& pins_view(r) == old(self)@.new_wires
                &&& final(self)@ == (SnarlStateView { new_wires: None, dirty: true, ..old(self)@ })
            },
            !(old(self)@.new_wires is Some && !old(self)@.new_wires_menu) ==> r is None && final(self)@ == old(self)@,
    {
        if self.new_wires.is_some() && !self.new_wires_menu {
            self.dirty = true;
            self.new_wires.take()
        } else {
            None
        }
    }

    /// Takes the new wires that the menu holds.
    pub fn take_new_wires_menu(&mut self) -> (r: Option<NewWires>)
        ensures
            (old(self)@.new_wires is Some && old(self)@.new_wires_menu) ==> {
                &&& pins_view(r) == old(self)@.new_wires
                &&& final(self)@ == (SnarlStateView { new_wires: None, dirty: true, ..old(self)@ })
            },
            !(old(self)@.new_wires is Some && old(self)@.new_wires_menu) ==> r is None && final(self)@ == old(self)@,
    {
        if self.new_wires.is_some() && self.new_wires_menu {
            self.dirty = true;
            self.new_wires.take()
        } else {
            None
        }
    }

    /// Hands the new wires to the menu.
    pub fn set_new_wires_menu(&mut self, wires: NewWires)
        requires
            old(self)@.new_wires is None,
        ensures
            final(self)@ == (SnarlStateView { new_wires: Some(wires@), new_wires_menu: true, ..old(self)@ }),
    {
        self.new_wires = Some(wires);
        self.new_wires_menu = true;
    }

    /// Secondary click on an input pin. While wires are dragged the pin leaves
    /// them; otherwise the answer is `true`: the pin's wires are to be dropped,
    /// the way the viewer chooses. Wires dragged from output pins are not
    /// expected here.
    pub fn click_input_pin(&mut self, pin: InPinId) -> (drop_wires: bool)
        requires
            old(self)@.new_wires is Some && !old(self)@.new_wires_menu ==> old(self)@.new_wires->Some_0 is In,
        ensures
            drop_wires == !(old(self)@.new_wires is Some && !old(self)@.new_wires_menu),
            drop_wires ==> final(self)@ == old(self)@,
            !drop_wires ==> final(self)@ == without_new_wire_in(old(self)@, pin),
    {
        if self.has_new_wires() {
            self.remove_new_wire_in(pin);
            false
        } else {
            true
        }
    }

    /// Secondary click on an output pin. While wires are dragged the pin
    /// leaves them; otherwise the answer is `true`: the pin's wires are to be
    /// dropped, the way the viewer chooses. Wires dragged from input pins are
    /// not expected here.
    pub fn click_output_pin(&mut self, pin: OutPinId) -> (drop_wires: bool)
        requires
            old(self)@.new_wires is Some && !old(self)@.new_wires_menu ==> old(self)@.new_wires->Some_0 is Out,
        ensures
            drop_wires == !(old(self)@.new_wires is Some && !old(self)@.new_wires_menu),
            drop_wires ==> final(self)@ == old(self)@,
            !drop_wires ==> final(self)@ == without_new_wire_out(old(self)@, pin),
    {
        if self.has_new_wires() {
            self.remove_new_wire_out(pin);
            false
        } else {
            true
        }
    }

    /// Primary drag starting at an input pin. With the command modifier the
    /// drag picks the pin's wires up: new wires start at the output pins wired
    /// to it and, unless shift is held too, those wires leave the graph.
    /// Without it a new wire starts at the pin.
    pub fn drag_input_pin<T>(&mut self, snarl: &mut Snarl<T>, pin: &InPin, command: bool, shift: bool)
        requires
            old(snarl).wf(),
            command && !shift ==> old(snarl).contains(pin.id.node),
        ensures
            final(snarl).wf(),
            command ==> final(self)@ == (SnarlStateView {
                new_wires: Some(PinsView::Out(pin.remotes@)),
                new_wires_menu: false,
                dirty: true,
                ..old(self)@
            }),
            !command ==> final(self)@ == (SnarlStateView {
                new_wires: Some(PinsView::In(seq![pin.id])),
                new_wires_menu: false,
                dirty: true,
                ..old(self)@
            }),
            command && !shift ==> {
                &&& final(snarl).wire_set() == old(snarl).wire_set().filter(|w: Wire| w.in_pin != pin.id)
                &&& final(snarl).node_map() == old(snarl).node_map()
                &&& final(snarl).next_id() == old(snarl).next_id()
            },
            !(command && !shift) ==> *final(snarl) == *old(snarl),
    {
        if command {
            self.start_new_wires_out(pin.remotes.as_slice());
            if !shift {
                snarl.drop_inputs(pin.id);
            }
        } else {
            self.start_new_wire_in(pin.id);
        }
    }

    /// Primary drag starting at an output pin. With the command modifier the
    /// drag picks the pin's wires up: new wires start at the input pins wired
    /// to it and, unless shift is held too, those wires leave the graph.
    /// Without it a new wire starts at the pin.
    pub fn drag_output_pin<T>(&mut self, snarl: &mut Snarl<T>, pin: &OutPin, command: bool, shift: bool)
        requires
            old(snarl).wf(),
            command && !shift ==> old(snarl).contains(pin.id.node),
        ensures
            final(snarl).wf(),
            command ==> final(self)@ == (SnarlStateView {
                new_wires: Some(PinsView::In(pin.remotes@)),
                new_wires_menu: false,
                dirty: true,
                ..old(self)@
            }),
            !command ==> final(self)@ == (SnarlStateView {
                new_wires: Some(PinsView::Out(seq![pin.id])),
                new_wires_menu: false,
                dirty: true,
                ..old(self)@
            }),
            command && !shift ==> {
                &&& final(snarl).wire_set() == old(snarl).wire_set().filter(|w: Wire| w.out_pin != pin.id)
                &&& final(snarl).node_map() == old(snarl).node_map()
                &&& final(snarl).next_id() == old(snarl).next_id()
            },
            !(command && !shift) ==> *final(snarl) == *old(snarl),
    {
        if command {
            self.start_new_wires_in(pin.remotes.as_slice());
            if !shift {
                snarl.drop_outputs(pin.id);
            }
        } else {
            self.start_new_wire_out(pin.id);
        }
    }

    /// Pointer over an input pin. While wires from input pins are dragged,
    /// the pin joins them with shift alone and leaves them with command alone.
    pub fn hover_input_pin(&mut self, pin: InPinId, shift: bool, command: bool)
        ensures
            ({
                let v = old(self)@;
                if v.new_wires matches Some(PinsView::In(_)) && !v.new_wires_menu {
                    if shift && !command {
                        final(self)@ == with_new_wire_in(v, pin)
                    } else if !shift && command {
                        final(self)@ == without_new_wire_in(v, pin)
                    } else {
                        final(self)@ == v
                    }
                } else {
                    final(self)@ == v
                }
            }),
    {
        if self.has_new_wires_in() {
            if shift && !command {
                self.add_new_wire_in(pin);
            }
            if !shift && command {
                self.remove_new_wire_in(pin);
            }
        }
    }

    /// Pointer over an output pin. While wires from output pins are dragged,
    /// the pin joins them with shift alone and leaves them with command alone.
    pub fn hover_output_pin(&mut self, pin: OutPinId, shift: bool, command: bool)
        ensures
            ({
                let v = old(self)@;
                if v.new_wires matches Some(PinsView::Out(_)) && !v.new_wires_menu {
                    if shift && !command {
                        final(self)@ == with_new_wire_out(v, pin)
                    } else if !shift && command {
                        final(self)@ == without_new_wire_out(v, pin)
                    } else {
                        final(self)@ == v
                    }
                } else {
                    final(self)@ == v
                }
            }),
    {
        if self.has_new_wires_out() {
            if shift && !command {
                self.add_new_wire_out(pin);
            }
            if !shift && command {
                self.remove_new_wire_out(pin);
            }
        }
    }

    /// Brings the draw order in line with the graph and returns it: the nodes
    /// that the graph still holds keep their order, repeats are dropped, and
    /// nodes that were missing follow in increasing identifier order.
    /// The identifiers still to place are tracked in a vector rather than a
    /// hash set, so they are appended in a fixed order (a hash set would hand
    /// them out in an order that changes from process to process).
    pub fn update_draw_order<T>(&mut self, snarl: &Snarl<T>) -> (r: Vec<NodeId>)
        requires
            snarl.wf(),
        ensures
            final(self)@ == (SnarlStateView {
                draw_order: updated_order(old(self)@.draw_order, *snarl),
                dirty: old(self)@.dirty || updated_order(old(self)@.draw_order, *snarl) != old(self)@.draw_order,
                ..old(self)@
            }),
            r@ == final(self)@.draw_order,
            r@.no_duplicates(),
            forall|id: NodeId| #[trigger] r@.contains(id) <==> snarl.contains(id),
            forall|a: int, b: int| #![trigger r@[a], r@[b]]
                0 <= a < b < r@.len() && old(self)@.draw_order.contains(r@[b]) ==> old(self)@.draw_order.contains(r@[a]),
            forall|a: int, b: int| #![trigger r@[a], r@[b]]
                0 <= a < b < r@.len() && old(self)@.draw_order.contains(r@[b])
                ==> first_index(old(self)@.draw_order, r@[a]) < first_index(old(self)@.draw_order, r@[b]),
    {
        proof {
            lemma_updated_order(self.draw_order@, *snarl);
            lemma_updated_order_keeps_old_first(self.draw_order@, *snarl);
        }
        let ghost dom = snarl.node_map().dom();
        let ghost order = self.draw_order@;
        let mut kept: Vec<NodeId> = Vec::new();
        let mut i: usize = 0;
        while i < self.draw_order.len()
            invariant
                snarl.wf(),
                dom == snarl.node_map().dom(),
                order == self.draw_order@,
                i <= order.len(),
                kept@ == keep_present(order.take(i as int), dom),
            decreases order.len() - i,
        {
            let x = self.draw_order[i];
            assert(order.take(i as int + 1).drop_last() =~= order.take(i as int));
            if snarl.contains_node(x) && position_node(kept.as_slice(), x).is_none() {
                kept.push(x);
            }
            i = i + 1;
        }
        assert(order.take(i as int) =~= order);
        let mut changed = kept.len() != self.draw_order.len();
        let ghost ids = snarl.id_seq();
        let mut added: Vec<NodeId> = Vec::new();
        let mut it = snarl.node_ids();
        let (n, _) = it.size_hint();
        let mut k: usize = 0;
        while k < n
            invariant
                n == snarl.entry_seq().len(),
                ids == snarl.id_seq(),
                order == self.draw_order@,
                k <= n,
                it.rest() == snarl.entry_seq().skip(k as int),
                added@ == absent_from(ids.take(k as int), order),
            decreases n - k,
        {
            assert(ids.take(k as int + 1).drop_last() =~= ids.take(k as int));
            match it.next() {
                Some((id, _)) => {
                    assert(id == ids[k as int]);
                    if position_node(self.draw_order.as_slice(), id).is_none() {
                        added.push(id);
                    }
                },
                None => {},
            }
            assert(it.rest() =~= snarl.entry_seq().skip(k as int + 1));
            k = k + 1;
        }
        assert(ids.take(k as int) =~= ids);
        if added.len() > 0 {
            changed = true;
        }
        proof {
            lemma_keep_present(order, dom);
            let newo = kept@ + added@;
            if kept@.len() == order.len() && added@.len() == 0 {
                assert(newo =~= order);
            } else if added@.len() > 0 {
                snarl.lemma_id_seq();
                lemma_absent_from(ids, order);
                assert(added@.contains(added@[0]));
                assert(newo[kept@.len() as int] == added@[0]);
                assert(newo.contains(added@[0]));
            } else {
                assert(newo.len() < order.len());
            }
        }
        let mut i: usize = 0;
        while i < added.len()
            invariant
                i <= added@.len(),
                kept@ == keep_present(order, dom) + added@.take(i as int),
            decreases added@.len() - i,
        {
            kept.push(added[i]);
            i = i + 1;
            assert(kept@ =~= keep_present(order, dom) + added@.take(i as int));
        }
        assert(added@.take(i as int) =~= added@);
        self.draw_order = kept;
        if changed {
            self.dirty = true;
        }
        let mut out: Vec<NodeId> = Vec::new();
        let mut j: usize = 0;
        while j < self.draw_order.len()
            invariant
                j <= self.draw_order@.len(),
                out@ == self.draw_order@.take(j as int),
            decreases self.draw_order@.len() - j,
        {
            out.push(self.draw_order[j]);
            j = j + 1;
            assert(out@ =~= self.draw_order@.take(j as int));
        }
        assert(out@ =~= self.draw_order@);
        out
    }

    /// Moves the node to the top of the draw order (drawn last).
    pub fn node_to_top(&mut self, node: NodeId)
        ensures
            final(self)@ == (SnarlStateView {
                draw_order: if old(self)@.draw_order.contains(node) {
                    remove_first(old(self)@.draw_order, node).push(node)
                } else {
                    old(self)@.draw_order
                },
                dirty: true,
                ..old(self)@
            }),
            old(self)@.draw_order.no_duplicates() && old(self)@.draw_order.contains(node) ==> {
                &&& final(self)@.draw_order.last() == node
                &&& final(self)@.draw_order.drop_last() == old(self)@.draw_order.filter(|y: NodeId| y != node)
                &&& final(self)@.draw_order.no_duplicates()
            },
    {
        proof {
            if self@.draw_order.no_duplicates() {
                lemma_take_out_and_put_last(self@.draw_order, node);
            }
        }
        match position_node(self.draw_order.as_slice(), node) {
            Some(order) => {
                self.draw_order.remove(order);
                self.draw_order.push(node);
            },
            None => {},
        }
        self.dirty = true;
    }

    /// The selected nodes, in order of selection.
    pub fn selected_nodes(&self) -> (r: &[NodeId])
        ensures
            r@ == self@.selected_nodes,
    {
        node_list_as_slice(&self.selected_nodes)
    }

    /// Selects the node and puts it last. With `reset`, it becomes the only
    /// selected node.
    pub fn select_one_node(&mut self, reset: bool, node: NodeId)
        ensures
            final(self)@ == (SnarlStateView {
                selected_nodes: if reset {
                    seq![node]
                } else {
                    remove_first(old(self)@.selected_nodes, node).push(node)
                },
                dirty: old(self)@.dirty || if reset {
                    old(self)@.selected_nodes != seq![node]
                } else {
                    !only_last(old(self)@.selected_nodes, node)
                },
                ..old(self)@
            }),
            !reset && old(self)@.selected_nodes.no_duplicates() ==> {
                &&& final(self)@.selected_nodes.last() == node
                &&& final(self)@.selected_nodes.drop_last() == old(self)@.selected_nodes.filter(|y: NodeId| y != node)
                &&& final(self)@.selected_nodes.no_duplicates()
            },
    {
        proof {
            if self@.selected_nodes.no_duplicates() {
                lemma_take_out_and_put_last(self@.selected_nodes, node);
            }
        }
        let ghost sel = node_list(self.selected_nodes);
        if reset {
            let s = node_list_as_slice(&self.selected_nodes);
            if s.len() == 1 && s[0] == node {
                assert(sel =~= seq![node]);
                return;
            }
            self.deselect_all_nodes();
        } else {
            match position_node(node_list_as_slice(&self.selected_nodes), node) {
                Some(pos) => {
                    proof {
                        lemma_first_index(sel, node);
                    }
                    if pos == node_list_as_slice(&self.selected_nodes).len() - 1 {
                        assert(remove_first(sel, node).push(node) =~= sel);
                        return;
                    }
                    node_list_remove(&mut self.selected_nodes, pos);
                },
                None => {
                    proof {
                        lemma_first_index(sel, node);
                    }
                },
            }
        }
        node_list_push(&mut self.selected_nodes, node);
        self.dirty = true;
        assert(reset ==> node_list(self.selected_nodes) =~= seq![node]);
    }

    /// Selects the nodes. With `reset`, they replace the selection;
    /// otherwise each is selected in turn as by `select_one_node`.
    pub fn select_many_nodes(&mut self, reset: bool, nodes: &[NodeId])
        ensures
            reset ==> final(self)@ == (SnarlStateView { selected_nodes: nodes@, dirty: true, ..old(self)@ }),
            !reset ==> final(self)@ == (SnarlStateView {
                selected_nodes: select_each(old(self)@.selected_nodes, old(self)@.dirty, nodes@).0,
                dirty: select_each(old(self)@.selected_nodes, old(self)@.dirty, nodes@).1,
                ..old(self)@
            }),
            !reset && old(self)@.selected_nodes.no_duplicates() ==> ({
                let r = final(self)@.selected_nodes;
                let f = old(self)@.selected_nodes.filter(|y: NodeId| !nodes@.contains(y));
                &&& r.no_duplicates()
                &&& forall|y: NodeId| #[trigger] r.contains(y) <==> (old(self)@.selected_nodes.contains(y) || nodes@.contains(y))
                &&& f.len() <= r.len()
                &&& r.take(f.len() as int) == f
                &&& in_last_occurrence_order(r.skip(f.len() as int), nodes@)
                &&& nodes@.len() > 0 ==> r.len() > 0 && r.last() == nodes@.last()
                &&& r != old(self)@.selected_nodes ==> final(self)@.dirty
            }),
    {
        proof {
            if self@.selected_nodes.no_duplicates() {
                lemma_select_each_moves_listed_last(self@.selected_nodes, self@.dirty, nodes@);
            }
        }
        if reset {
            self.deselect_all_nodes();
            node_list_extend_from_slice(&mut self.selected_nodes, nodes);
            self.dirty = true;
            assert(node_list(self.selected_nodes) =~= nodes@);
        } else {
            let ghost start = self@;
            let mut i: usize = 0;
            while i < nodes.len()
                invariant
                    i <= nodes@.len(),
                    self@ == (SnarlStateView {
                        selected_nodes: select_each(start.selected_nodes, start.dirty, nodes@.take(i as int)).0,
                        dirty: select_each(start.selected_nodes, start.dirty, nodes@.take(i as int)).1,
                        ..start
                    }),
                decreases nodes@.len() - i,
            {
                assert(nodes@.take(i as int + 1).drop_last() =~= nodes@.take(i as int));
                self.select_one_node(false, nodes[i]);
                i = i + 1;
            }
            assert(nodes@.take(i as int) =~= nodes@);
        }
    }

    /// Deselects the first occurrence of the node.
    pub fn deselect_one_node(&mut self, node: NodeId)
        ensures
            final(self)@ == (SnarlStateView {
                selected_nodes: remove_first(old(self)@.selected_nodes, node),
                dirty: old(self)@.dirty || old(self)@.selected_nodes.contains(node),
                ..old(self)@
            }),
            old(self)@.selected_nodes.no_duplicates() ==>
                final(self)@.selected_nodes == old(self)@.selected_nodes.filter(|y: NodeId| y != node),
    {
        proof {
            if self@.selected_nodes.no_duplicates() {
                lemma_take_out_and_put_last(self@.selected_nodes, node);
            }
        }
        match position_node(node_list_as_slice(&self.selected_nodes), node) {
            Some(pos) => {
                node_list_remove(&mut self.selected_nodes, pos);
                self.dirty = true;
            },
            None => {},
        }
    }

    /// Deselects each of the nodes in turn.
    pub fn deselect_many_nodes(&mut self, nodes: &[NodeId])
        ensures
            final(self)@ == (SnarlStateView {
                selected_nodes: deselect_each(old(self)@.selected_nodes, old(self)@.dirty, nodes@).0,
                dirty: deselect_each(old(self)@.selected_nodes, old(self)@.dirty, nodes@).1,
                ..old(self)@
            }),
            old(self)@.selected_nodes.no_duplicates() ==> final(self)@.selected_nodes
                == old(self)@.selected_nodes.filter(|y: NodeId| !nodes@.contains(y)),
            old(self)@.selected_nodes.no_duplicates() ==> (final(self)@.dirty
                == (old(self)@.dirty || exists|y: NodeId| nodes@.contains(y) && old(self)@.selected_nodes.contains(y))),
    {
        proof {
            if self@.selected_nodes.no_duplicates() {
                lemma_deselect_each_removes_listed(self@.selected_nodes, self@.dirty, nodes@);
            }
        }
        let ghost start = self@;
        let mut i: usize = 0;
        while i < nodes.len()
            invariant
                i <= nodes@.len(),
                self@ == (SnarlStateView {
                    selected_nodes: deselect_each(start.selected_nodes, start.dirty, nodes@.take(i as int)).0,
                    dirty: deselect_each(start.selected_nodes, start.dirty, nodes@.take(i as int)).1,
                    ..start
                }),
            decreases nodes@.len() - i,
        {
            assert(nodes@.take(i as int + 1).drop_last() =~= nodes@.take(i as int));
            self.deselect_one_node(nodes[i]);
            i = i + 1;
        }
        assert(nodes@.take(i as int) =~= nodes@);
    }

    /// Deselects every node.
    pub fn deselect_all_nodes(&mut self)
        ensures
            final(self)@ == (SnarlStateView {
                selected_nodes: Seq::<NodeId>::empty(),
                dirty: old(self)@.dirty || old(self)@.selected_nodes.len() > 0,
                ..old(self)@
            }),
    {
        if node_list_as_slice(&self.selected_nodes).len() > 0 {
            self.dirty = true;
        }
        node_list_clear(&mut self.selected_nodes);
    }

    /// Drops from the selection the nodes that the graph no longer holds.
    pub fn prune_selected_nodes<T>(&mut self, snarl: &Snarl<T>)
        requires
            snarl.wf(),
        ensures
            final(self)@ == (SnarlStateView {
                selected_nodes: old(self)@.selected_nodes.filter(|id: NodeId| snarl.contains(id)),
                dirty: old(self)@.dirty || old(self)@.selected_nodes.filter(|id: NodeId| snarl.contains(id)).len()
                    != old(self)@.selected_nodes.len(),
                ..old(self)@
            }),
    {
        if prune_selected_nodes(&mut self.selected_nodes, snarl) {
            self.dirty = true;
        }
    }

    /// Starts a rectangle selection at the position.
    pub fn start_rect_selection(&mut self, pos: egui::Pos2)
        ensures
            final(self)@ == (SnarlStateView {
                rect_selection: Some(RectSelect { origin: pos, current: pos }),
                dirty: old(self)@.dirty || old(self)@.rect_selection is None,
                ..old(self)@
            }),
    {
        if self.rect_selection.is_none() {
            self.dirty = true;
        }
        self.rect_selection = Some(RectSelect { origin: pos, current: pos });
    }

    /// Stops the rectangle selection.
    pub fn stop_rect_selection(&mut self)
        ensures
            final(self)@ == (SnarlStateView {
                rect_selection: None,
                dirty: old(self)@.dirty || old(self)@.rect_selection is Some,
                ..old(self)@
            }),
    {
        if self.rect_selection.is_some() {
            self.dirty = true;
        }
        self.rect_selection = None;
    }

    /// Whether a rectangle selection is active.
    pub fn is_rect_selection(&self) -> (r: bool)
        ensures
            r == self@.rect_selection is Some,
    {
        self.rect_selection.is_some()
    }

    /// Moves the free corner of the active rectangle selection.
    pub fn update_rect_selection(&mut self, pos: egui::Pos2)
        ensures
            old(self)@.rect_selection matches Some(rs) ==> final(self)@ == (SnarlStateView {
                rect_selection: Some(RectSelect { origin: rs.origin, current: pos }),
                dirty: true,
                ..old(self)@
            }),
            old(self)@.rect_selection is None ==> final(self)@ == old(self)@,
    {
        match &mut self.rect_selection {
            Some(rect_selection) => {
                rect_selection.current = pos;
                self.dirty = true;
            },
            None => {},
        }
    }

    /// Corners of the active rectangle selection.
    pub fn rect_selection(&self) -> (r: Option<RectSelect>)
        ensures
            r == self@.rect_selection,
    {
        self.rect_selection
    }
}

/// Drops from the selection the nodes that the graph no longer holds;
/// answers whether any was dropped.
fn prune_selected_nodes<T>(selected_nodes: &mut NodeIdList, snarl: &Snarl<T>) -> (r: bool)
    requires
        snarl.wf(),
    ensures
        node_list(*final(selected_nodes)) == node_list(*old(selected_nodes)).filter(|id: NodeId| snarl.contains(id)),
        r == (node_list(*final(selected_nodes)).len() != node_list(*old(selected_nodes)).len()),
{
    let old_size = node_list_as_slice(selected_nodes).len();
    node_list_retain_present(selected_nodes, snarl);
    old_size != node_list_as_slice(selected_nodes).len()
}


} // verus!
