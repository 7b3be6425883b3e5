//! The set of wires of a graph, held as a sequence without repeats.
use vstd::prelude::*;

use crate::{lemma_push_contains, lemma_push_no_dup, lemma_take_push_contains, InPinId, NodeId, OutPinId, Wire};

verus! {

/// Which wires a removal keeps.
pub(crate) enum WireFilter {
    /// Keeps the wires that touch neither end of the node.
    AwayFrom(NodeId),
    /// Keeps the wires that do not end at the input pin.
    NotInto(InPinId),
    /// Keeps the wires that do not start at the output pin.
    NotFrom(OutPinId),
}

impl WireFilter {
    pub(crate) open spec fn keeps(self, w: Wire) -> bool {
        match self {
            WireFilter::AwayFrom(n) => w.out_pin.node != n && w.in_pin.node != n,
            WireFilter::NotInto(p) => w.in_pin != p,
            WireFilter::NotFrom(p) => w.out_pin != p,
        }
    }

    fn keeps_wire(&self, w: &Wire) -> (r: bool)
        ensures
            r == self.keeps(*w),
    {
        match self {
            WireFilter::AwayFrom(n) => w.out_pin.node != *n && w.in_pin.node != *n,
            WireFilter::NotInto(p) => w.in_pin != *p,
            WireFilter::NotFrom(p) => w.out_pin != *p,
        }
    }
}

/// The set of wires of a graph, held as a vector in which no wire occurs
/// twice. A hash set keyed by the wire struct, with egui's randomly seeded
/// hasher, would carry no verified specification here, so the vector and its
/// no-repeat invariant take its place; nothing depends on the order.
#[derive(Debug)]
pub(crate) struct Wires {
    pub(crate) wires: Vec<Wire>,
}

impl View for Wires {
    type V = Seq<Wire>;

    closed spec fn view(&self) -> Seq<Wire> {
        self.wires@
    }
}

impl Clone for Wires {
    fn clone(&self) -> (r: Self)
        ensures
            r@ == self@,
    {
        let mut out: Vec<Wire> = Vec::new();
        let mut i: usize = 0;
        while i < self.wires.len()
            invariant
                i <= self.wires@.len(),
                out@ == self.wires@.take(i as int),
            decreases self.wires@.len() - i,
        {
            out.push(self.wires[i]);
            i = i + 1;
            assert(out@ =~= self.wires@.take(i as int));
        }
        assert(out@ =~= self.wires@);
        Wires { wires: out }
    }
}

impl Wires {
    /// No wire is held twice.
    pub(crate) open spec fn wf(&self) -> bool {
        self@.no_duplicates()
    }

    pub(crate) fn new() -> (r: Self)
        ensures
            r@ == Seq::<Wire>::empty(),
            r.wf(),
    {
        Wires { wires: Vec::new() }
    }

    fn position(&self, wire: &Wire) -> (r: Option<usize>)
        ensures
            match r {
                Some(i) => i < self@.len() && self@[i as int] == *wire,
                None => !self@.contains(*wire),
            },
    {
        let mut i: usize = 0;
        while i < self.wires.len()
            invariant
                i <= self.wires@.len(),
                forall|k: int| 0 <= k < i ==> self.wires@[k] != *wire,
            decreases self.wires@.len() - i,
        {
            if self.wires[i] == *wire {
                return Some(i);
            }
            i = i + 1;
        }
        None
    }

    /// Adds the wire; answers whether it was new.
    pub(crate) fn insert(&mut self, wire: Wire) -> (r: bool)
        requires
            old(self).wf(),
        ensures
            final(self).wf(),
            r == !old(self)@.contains(wire),
            final(self)@ == (if r { old(self)@.push(wire) } else { old(self)@ }),
            final(self)@.to_set() == old(self)@.to_set().insert(wire),
    {
        match self.position(&wire) {
            Some(_) => {
                assert(self@.to_set() =~= self@.to_set().insert(wire));
                false
            },
            None => {
                self.wires.push(wire);
                assert(self@.to_set() =~= old(self)@.to_set().insert(wire)) by {
                    assert forall|w: Wire| self@.contains(w) <==> (old(self)@.contains(w) || w == wire) by {
                        if old(self)@.contains(w) {
                            let k = choose|k: int| 0 <= k < old(self)@.len() && old(self)@[k] == w;
                            assert(self@[k] == w);
                        }
                        if w == wire {
                            assert(self@[self@.len() - 1] == w);
                        }
                    }
                }
                true
            },
        }
    }

    /// Removes the wire; answers whether it was there.
    pub(crate) fn remove(&mut self, wire: &Wire) -> (r: bool)
        requires
            old(self).wf(),
        ensures
            final(self).wf(),
            r == old(self)@.contains(*wire),
            final(self)@.to_set() == old(self)@.to_set().remove(*wire),
    {
        match self.position(wire) {
            Some(i) => {
                let ghost before = self@;
                self.wires.remove(i);
                assert(self@ =~= before.remove(i as int));
                assert forall|a: int, b: int| 0 <= a < b < self@.len() implies self@[a] != self@[b] by {
                    let a2 = if a < i { a } else { a + 1 };
                    let b2 = if b < i { b } else { b + 1 };
                    assert(self@[a] == before[a2]);
                    assert(self@[b] == before[b2]);
                }
                assert(self@.to_set() =~= before.to_set().remove(*wire)) by {
                    assert forall|w: Wire| self@.contains(w) <==> (before.contains(w) && w != *wire) by {
                        if self@.contains(w) {
                            let k = choose|k: int| 0 <= k < self@.len() && self@[k] == w;
                            let k2 = if k < i { k } else { k + 1 };
                            assert(before[k2] == w);
                            assert(k2 != i);
                        }
                        if before.contains(w) && w != *wire {
                            let k = choose|k: int| 0 <= k < before.len() && before[k] == w;
                            assert(k != i);
                            let k2 = if k < i { k } else { k - 1 };
                            assert(self@[k2] == w);
                        }
                    }
                }
                true
            },
            None => {
                assert(self@.to_set() =~= self@.to_set().remove(*wire));
                false
            },
        }
    }

    /// Keeps the wires that the filter keeps; answers how many were removed.
    pub(crate) fn retain_by(&mut self, filter: WireFilter) -> (r: usize)
        requires
            old(self).wf(),
        ensures
            final(self).wf(),
            final(self)@.to_set() == old(self)@.to_set().filter(|w: Wire| filter.keeps(w)),
            r == old(self)@.to_set().len() - final(self)@.to_set().len(),
    {
        let count = self.wires.len();
        let mut kept: Vec<Wire> = Vec::new();
        let mut i: usize = 0;
        while i < self.wires.len()
            invariant
                i <= self.wires@.len(),
                self.wires@.no_duplicates(),
                kept@.no_duplicates(),
                kept@.len() <= i,
                forall|w: Wire| #[trigger] kept@.contains(w) <==> (self.wires@.take(i as int).contains(w) && filter.keeps(w)),
            decreases self.wires@.len() - i,
        {
            let w = self.wires[i];
            let ghost before = kept@;
            proof {
                assert forall|x: Wire| #![auto] self.wires@.take(i as int + 1).contains(x) <==> (self.wires@.take(i as int).contains(x) || x == w) by {
                    lemma_take_push_contains(self.wires@, i as int, x);
                }
            }
            if filter.keeps_wire(&w) {
                assert(!self.wires@.take(i as int).contains(w)) by {
                    if self.wires@.take(i as int).contains(w) {
                        let k = choose|k: int| 0 <= k < i && self.wires@.take(i as int)[k] == w;
                        assert(self.wires@[k] == self.wires@[i as int]);
                    }
                }
                proof { lemma_push_no_dup(before, w); }
                kept.push(w);
                assert forall|x: Wire| #![auto] kept@.contains(x) <==> (before.contains(x) || x == w) by {
                    lemma_push_contains(before, w, x);
                }
            }
            assert(kept@ == (if filter.keeps(w) { before.push(w) } else { before }));
            assert forall|x: Wire| #[trigger] kept@.contains(x) <==> (self.wires@.take(i as int + 1).contains(x) && filter.keeps(x)) by {
                lemma_take_push_contains(self.wires@, i as int, x);
                lemma_push_contains(before, w, x);
                assert(before.contains(x) <==> (self.wires@.take(i as int).contains(x) && filter.keeps(x)));
                if x == w && before.contains(x) {
                    let k = choose|k: int| 0 <= k < i && self.wires@.take(i as int)[k] == w;
                    assert(self.wires@[k] == self.wires@[i as int]);
                }
            }
            i = i + 1;
        }
        assert(self.wires@.take(i as int) =~= self.wires@);
        let ghost old_seq = self.wires@;
        assert forall|x: Wire| #![auto] kept@.contains(x) <==> (old_seq.contains(x) && filter.keeps(x)) by {
            assert(kept@.contains(x) <==> (self.wires@.take(i as int).contains(x) && filter.keeps(x)));
        }
        self.wires = kept;
        assert(self@.to_set() =~= old_seq.to_set().filter(|w: Wire| filter.keeps(w)));
        proof {
            old_seq.unique_seq_to_set();
            self@.unique_seq_to_set();
        }
        count - self.wires.len()
    }

    pub(crate) fn drop_node(&mut self, node: NodeId) -> (r: usize)
        requires
            old(self).wf(),
        ensures
            final(self).wf(),
            final(self)@.to_set() == old(self)@.to_set().filter(|w: Wire| WireFilter::AwayFrom(node).keeps(w)),
            r == old(self)@.to_set().len() - final(self)@.to_set().len(),
    {
        self.retain_by(WireFilter::AwayFrom(node))
    }

    pub(crate) fn drop_inputs(&mut self, pin: InPinId) -> (r: usize)
        requires
            old(self).wf(),
        ensures
            final(self).wf(),
            final(self)@.to_set() == old(self)@.to_set().filter(|w: Wire| WireFilter::NotInto(pin).keeps(w)),
            r == old(self)@.to_set().len() - final(self)@.to_set().len(),
    {
        self.retain_by(WireFilter::NotInto(pin))
    }

    pub(crate) fn drop_outputs(&mut self, pin: OutPinId) -> (r: usize)
        requires
            old(self).wf(),
        ensures
            final(self).wf(),
            final(self)@.to_set() == old(self)@.to_set().filter(|w: Wire| WireFilter::NotFrom(pin).keeps(w)),
            r == old(self)@.to_set().len() - final(self)@.to_set().len(),
    {
        self.retain_by(WireFilter::NotFrom(pin))
    }

    /// Input pins wired to the output pin.
    pub(crate) fn wired_inputs(&self, out_pin: OutPinId) -> (r: Vec<InPinId>)
        requires
            self.wf(),
        ensures
            r@.no_duplicates(),
            forall|p: InPinId| r@.contains(p) <==> self@.contains(Wire { out_pin: out_pin, in_pin: p }),
    {
        let mut out: Vec<InPinId> = Vec::new();
        let mut i: usize = 0;
        while i < self.wires.len()
            invariant
                i <= self.wires@.len(),
                self.wires@.no_duplicates(),
                out@.no_duplicates(),
                forall|p: InPinId| #[trigger] out@.contains(p) <==> self.wires@.take(i as int).contains(Wire { out_pin: out_pin, in_pin: p }),
            decreases self.wires@.len() - i,
        {
            let w = self.wires[i];
            let ghost before = out@;
            proof {
                assert forall|x: Wire| #![auto] self.wires@.take(i as int + 1).contains(x) <==> (self.wires@.take(i as int).contains(x) || x == w) by {
                    lemma_take_push_contains(self.wires@, i as int, x);
                }
            }
            if w.out_pin == out_pin {
                let p = w.in_pin;
                assert(!out@.contains(p)) by {
                    if self.wires@.take(i as int).contains(w) {
                        let k = choose|k: int| 0 <= k < i && self.wires@.take(i as int)[k] == w;
                        assert(self.wires@[k] == self.wires@[i as int]);
                    }
                }
                proof { lemma_push_no_dup(before, p); }
                out.push(p);
                assert forall|q: InPinId| #![auto] out@.contains(q) <==> (before.contains(q) || q == p) by {
                    lemma_push_contains(before, p, q);
                }

            }
            assert(out@ == (if w.out_pin == out_pin { before.push(w.in_pin) } else { before }));
            assert forall|q: InPinId| #[trigger] out@.contains(q) <==> self.wires@.take(i as int + 1).contains(Wire { out_pin: out_pin, in_pin: q }) by {
                lemma_take_push_contains(self.wires@, i as int, Wire { out_pin: out_pin, in_pin: q });
                lemma_push_contains(before, w.in_pin, q);
                assert(before.contains(q) <==> self.wires@.take(i as int).contains(Wire { out_pin: out_pin, in_pin: q }));
            }
            i = i + 1;
        }
        assert(self.wires@.take(i as int) =~= self.wires@);
        out
    }

    /// Output pins wired to the input pin.
    pub(crate) fn wired_outputs(&self, in_pin: InPinId) -> (r: Vec<OutPinId>)
        requires
            self.wf(),
        ensures
            r@.no_duplicates(),
            forall|p: OutPinId| r@.contains(p) <==> self@.contains(Wire { out_pin: p, in_pin: in_pin }),
    {
        let mut out: Vec<OutPinId> = Vec::new();
        let mut i: usize = 0;
        while i < self.wires.len()
            invariant
                i <= self.wires@.len(),
                self.wires@.no_duplicates(),
                out@.no_duplicates(),
                forall|p: OutPinId| #[trigger] out@.contains(p) <==> self.wires@.take(i as int).contains(Wire { out_pin: p, in_pin: in_pin }),
            decreases self.wires@.len() - i,
        {
            let w = self.wires[i];
            let ghost before = out@;
            proof {
                assert forall|x: Wire| #![auto] self.wires@.take(i as int + 1).contains(x) <==> (self.wires@.take(i as int).contains(x) || x == w) by {
                    lemma_take_push_contains(self.wires@, i as int, x);
                }
            }
            if w.in_pin == in_pin {
                let p = w.out_pin;
                assert(!out@.contains(p)) by {
                    if self.wires@.take(i as int).contains(w) {
                        let k = choose|k: int| 0 <= k < i && self.wires@.take(i as int)[k] == w;
                        assert(self.wires@[k] == self.wires@[i as int]);
                    }
                }
                proof { lemma_push_no_dup(before, p); }
                out.push(p);
                assert forall|q: OutPinId| #![auto] out@.contains(q) <==> (before.contains(q) || q == p) by {
                    lemma_push_contains(before, p, q);
                }

            }
            assert(out@ == (if w.in_pin == in_pin { before.push(w.out_pin) } else { before }));
            assert forall|q: OutPinId| #[trigger] out@.contains(q) <==> self.wires@.take(i as int + 1).contains(Wire { out_pin: q, in_pin: in_pin }) by {
                lemma_take_push_contains(self.wires@, i as int, Wire { out_pin: q, in_pin: in_pin });
                lemma_push_contains(before, w.out_pin, q);
                assert(before.contains(q) <==> self.wires@.take(i as int).contains(Wire { out_pin: q, in_pin: in_pin }));
            }
            i = i + 1;
        }
        assert(self.wires@.take(i as int) =~= self.wires@);
        out
    }

    /// Every wire, as (output, input) pairs, in the order held.
    pub(crate) fn iter(&self) -> (r: Vec<(OutPinId, InPinId)>)
        ensures
            r@.len() == self@.len(),
            forall|k: int| 0 <= k < r@.len() ==> r@[k] == (self@[k].out_pin, self@[k].in_pin),
    {
        let mut out: Vec<(OutPinId, InPinId)> = Vec::new();
        let mut i: usize = 0;
        while i < self.wires.len()
            invariant
                i <= self.wires@.len(),
                out@.len() == i,
                forall|k: int| 0 <= k < i ==> out@[k] == (self.wires@[k].out_pin, self.wires@[k].in_pin),
            decreases self.wires@.len() - i,
        {
            let w = self.wires[i];
            out.push((w.out_pin, w.in_pin));
            i = i + 1;
        }
        out
    }
}

} // verus!
