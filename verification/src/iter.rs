//! Views over the nodes of a graph, in increasing identifier order.
//!
//! Each view walks the same entries (identifier and node) and hands out a
//! different projection of them.
use vstd::prelude::*;

use crate::{Node, NodeId};

verus! {

/// Remaining entries of a walk over the nodes.
pub(crate) struct Entries<'a, T> {
    pub(crate) items: Vec<(NodeId, &'a Node<T>)>,
    pub(crate) pos: usize,
}

impl<'a, T> Entries<'a, T> {
    pub(crate) fn new(items: Vec<(NodeId, &'a Node<T>)>) -> (r: Self)
        ensures
            r.rest() == items@.map_values(|e: (NodeId, &'a Node<T>)| (e.0, *e.1)),
    {
        let r = Entries { items, pos: 0 };
        assert(r.items@.skip(0) =~= r.items@);
        r
    }

    /// The entries not yet handed out.
    pub(crate) closed spec fn rest(&self) -> Seq<(NodeId, Node<T>)> {
        if self.pos <= self.items@.len() {
            self.items@.skip(self.pos as int).map_values(|e: (NodeId, &'a Node<T>)| (e.0, *e.1))
        } else {
            Seq::empty()
        }
    }

    fn next(&mut self) -> (r: Option<(NodeId, &'a Node<T>)>)
        ensures
            old(self).rest().len() == 0 ==> r is None && final(self).rest() == old(self).rest(),
            old(self).rest().len() > 0 ==> (r matches Some(e) && (e.0, *e.1) == old(self).rest()[0]
                && final(self).rest() == old(self).rest().drop_first()),
    {
        if self.pos < self.items.len() {
            let e = self.items[self.pos];
            self.pos = self.pos + 1;
            assert(self.rest() =~= old(self).rest().drop_first());
            Some(e)
        } else {
            assert(self.rest() =~= Seq::<(NodeId, Node<T>)>::empty());
            None
        }
    }

    fn nth(&mut self, n: usize) -> (r: Option<(NodeId, &'a Node<T>)>)
        ensures
            n >= old(self).rest().len() ==> r is None && final(self).rest().len() == 0,
            n < old(self).rest().len() ==> (r matches Some(e) && (e.0, *e.1) == old(self).rest()[n as int]
                && final(self).rest() == old(self).rest().skip(n + 1)),
    {
        if self.pos < self.items.len() && n < self.items.len() - self.pos {
            let e = self.items[self.pos + n];
            self.pos = self.pos + n + 1;
            assert(self.rest() =~= old(self).rest().skip(n + 1));
            Some(e)
        } else {
            self.pos = self.items.len();
            assert(self.rest() =~= Seq::<(NodeId, Node<T>)>::empty());
            None
        }
    }

    fn remaining(&self) -> (r: usize)
        ensures
            r == self.rest().len(),
    {
        if self.pos < self.items.len() {
            self.items.len() - self.pos
        } else {
            0
        }
    }
}

/// Walk over shared references to node values.
pub struct NodesIter<'a, T> {
    pub(crate) nodes: Entries<'a, T>,
}

impl<'a, T> NodesIter<'a, T> {
    pub(crate) fn new(nodes: Entries<'a, T>) -> (r: Self)
        ensures
            r.rest() == nodes.rest(),
    {
        NodesIter { nodes }
    }

    /// The entries (identifier and node) that the walk has yet to reach.
    pub closed spec fn rest(&self) -> Seq<(NodeId, Node<T>)> {
        self.nodes.rest()
    }

    /// Lower and upper bound on the number of items left: both exact.
    pub fn size_hint(&self) -> (r: (usize, Option<usize>))
        ensures
            r.0 == self.rest().len(),
            r.1 == Some(r.0),
    {
        let n = self.nodes.remaining();
        (n, Some(n))
    }

    /// The value of the next node.
    pub fn next(&mut self) -> (r: Option<&'a T>)
        ensures
            old(self).rest().len() == 0 ==> r is None && final(self).rest() == old(self).rest(),
            old(self).rest().len() > 0 ==> (r matches Some(v) && *v == old(self).rest()[0].1.value
                && final(self).rest() == old(self).rest().drop_first()),
    {
        match self.nodes.next() {
            Some(e) => Some(&e.1.value),
            None => None,
        }
    }

    /// Skips `n` nodes and gives the value of the one after.
    pub fn nth(&mut self, n: usize) -> (r: Option<&'a T>)
        ensures
            n >= old(self).rest().len() ==> r is None && final(self).rest().len() == 0,
            n < old(self).rest().len() ==> (r matches Some(v) && *v == old(self).rest()[n as int].1.value
                && final(self).rest() == old(self).rest().skip(n + 1)),
    {
        match self.nodes.nth(n) {
            Some(e) => Some(&e.1.value),
            None => None,
        }
    }
}

/// Walk over node positions and shared references to node values.
pub struct NodesPosIter<'a, T> {
    pub(crate) nodes: Entries<'a, T>,
}

impl<'a, T> NodesPosIter<'a, T> {
    pub(crate) fn new(nodes: Entries<'a, T>) -> (r: Self)
        ensures
            r.rest() == nodes.rest(),
    {
        NodesPosIter { nodes }
    }

    /// The entries (identifier and node) that the walk has yet to reach.
    pub closed spec fn rest(&self) -> Seq<(NodeId, Node<T>)> {
        self.nodes.rest()
    }

    /// Lower and upper bound on the number of items left: both exact.
    pub fn size_hint(&self) -> (r: (usize, Option<usize>))
        ensures
            r.0 == self.rest().len(),
            r.1 == Some(r.0),
    {
        let n = self.nodes.remaining();
        (n, Some(n))
    }

    /// Position and value of the next node.
    pub fn next(&mut self) -> (r: Option<(egui::Pos2, &'a T)>)
        ensures
            old(self).rest().len() == 0 ==> r is None && final(self).rest() == old(self).rest(),
            old(self).rest().len() > 0 ==> (r matches Some(x) && x.0 == old(self).rest()[0].1.pos
                && *x.1 == old(self).rest()[0].1.value
                && final(self).rest() == old(self).rest().drop_first()),
    {
        match self.nodes.next() {
            Some(e) => Some((e.1.pos, &e.1.value)),
            None => None,
        }
    }

    /// Skips `n` nodes and gives position and value of the one after.
    pub fn nth(&mut self, n: usize) -> (r: Option<(egui::Pos2, &'a T)>)
        ensures
            n >= old(self).rest().len() ==> r is None && final(self).rest().len() == 0,
            n < old(self).rest().len() ==> (r matches Some(x) && x.0 == old(self).rest()[n as int].1.pos
                && *x.1 == old(self).rest()[n as int].1.value
                && final(self).rest() == old(self).rest().skip(n + 1)),
    {
        match self.nodes.nth(n) {
            Some(e) => Some((e.1.pos, &e.1.value)),
            None => None,
        }
    }
}

/// Walk over node identifiers and shared references to node values.
pub struct NodesIdsIter<'a, T> {
    pub(crate) nodes: Entries<'a, T>,
}

impl<'a, T> NodesIdsIter<'a, T> {
    pub(crate) fn new(nodes: Entries<'a, T>) -> (r: Self)
        ensures
            r.rest() == nodes.rest(),
    {
        NodesIdsIter { nodes }
    }

    /// The entries (identifier and node) that the walk has yet to reach.
    pub closed spec fn rest(&self) -> Seq<(NodeId, Node<T>)> {
        self.nodes.rest()
    }

    /// Lower and upper bound on the number of items left: both exact.
    pub fn size_hint(&self) -> (r: (usize, Option<usize>))
        ensures
            r.0 == self.rest().len(),
            r.1 == Some(r.0),
    {
        let n = self.nodes.remaining();
        (n, Some(n))
    }

    /// Identifier and value of the next node.
    pub fn next(&mut self) -> (r: Option<(NodeId, &'a T)>)
        ensures
            old(self).rest().len() == 0 ==> r is None && final(self).rest() == old(self).rest(),
            old(self).rest().len() > 0 ==> (r matches Some(x) && x.0 == old(self).rest()[0].0
                && *x.1 == old(self).rest()[0].1.value
                && final(self).rest() == old(self).rest().drop_first()),
    {
        match self.nodes.next() {
            Some(e) => Some((e.0, &e.1.value)),
            None => None,
        }
    }

    /// Skips `n` nodes and gives identifier and value of the one after.
    pub fn nth(&mut self, n: usize) -> (r: Option<(NodeId, &'a T)>)
        ensures
            n >= old(self).rest().len() ==> r is None && final(self).rest().len() == 0,
            n < old(self).rest().len() ==> (r matches Some(x) && x.0 == old(self).rest()[n as int].0
                && *x.1 == old(self).rest()[n as int].1.value
                && final(self).rest() == old(self).rest().skip(n + 1)),
    {
        match self.nodes.nth(n) {
            Some(e) => Some((e.0, &e.1.value)),
            None => None,
        }
    }
}

/// Walk over node identifiers, positions and shared references to node values.
pub struct NodesPosIdsIter<'a, T> {
    pub(crate) nodes: Entries<'a, T>,
}

impl<'a, T> NodesPosIdsIter<'a, T> {
    pub(crate) fn new(nodes: Entries<'a, T>) -> (r: Self)
        ensures
            r.rest() == nodes.rest(),
    {
        NodesPosIdsIter { nodes }
    }

    /// The entries (identifier and node) that the walk has yet to reach.
    pub closed spec fn rest(&self) -> Seq<(NodeId, Node<T>)> {
        self.nodes.rest()
    }

    /// Lower and upper bound on the number of items left: both exact.
    pub fn size_hint(&self) -> (r: (usize, Option<usize>))
        ensures
            r.0 == self.rest().len(),
            r.1 == Some(r.0),
    {
        let n = self.nodes.remaining();
        (n, Some(n))
    }

    /// Identifier, position and value of the next node.
    pub fn next(&mut self) -> (r: Option<(NodeId, egui::Pos2, &'a T)>)
        ensures
            old(self).rest().len() == 0 ==> r is None && final(self).rest() == old(self).rest(),
            old(self).rest().len() > 0 ==> (r matches Some(x) && x.0 == old(self).rest()[0].0
                && x.1 == old(self).rest()[0].1.pos && *x.2 == old(self).rest()[0].1.value
                && final(self).rest() == old(self).rest().drop_first()),
    {
        match self.nodes.next() {
            Some(e) => Some((e.0, e.1.pos, &e.1.value)),
            None => None,
        }
    }

    /// Skips `n` nodes and gives identifier, position and value of the one after.
    pub fn nth(&mut self, n: usize) -> (r: Option<(NodeId, egui::Pos2, &'a T)>)
        ensures
            n >= old(self).rest().len() ==> r is None && final(self).rest().len() == 0,
            n < old(self).rest().len() ==> (r matches Some(x) && x.0 == old(self).rest()[n as int].0
                && x.1 == old(self).rest()[n as int].1.pos && *x.2 == old(self).rest()[n as int].1.value
                && final(self).rest() == old(self).rest().skip(n + 1)),
    {
        match self.nodes.nth(n) {
            Some(e) => Some((e.0, e.1.pos, &e.1.value)),
            None => None,
        }
    }
}

/// Walk over shared references to node data.
pub struct NodeInfoIter<'a, T> {
    pub(crate) nodes: Entries<'a, T>,
}

impl<'a, T> NodeInfoIter<'a, T> {
    pub(crate) fn new(nodes: Entries<'a, T>) -> (r: Self)
        ensures
            r.rest() == nodes.rest(),
    {
        NodeInfoIter { nodes }
    }

    /// The entries (identifier and node) that the walk has yet to reach.
    pub closed spec fn rest(&self) -> Seq<(NodeId, Node<T>)> {
        self.nodes.rest()
    }

    /// Lower and upper bound on the number of items left: both exact.
    pub fn size_hint(&self) -> (r: (usize, Option<usize>))
        ensures
            r.0 == self.rest().len(),
            r.1 == Some(r.0),
    {
        let n = self.nodes.remaining();
        (n, Some(n))
    }

    /// Data of the next node.
    pub fn next(&mut self) -> (r: Option<&'a Node<T>>)
        ensures
            old(self).rest().len() == 0 ==> r is None && final(self).rest() == old(self).rest(),
            old(self).rest().len() > 0 ==> (r matches Some(x) && *x == old(self).rest()[0].1
                && final(self).rest() == old(self).rest().drop_first()),
    {
        match self.nodes.next() {
            Some(e) => Some(e.1),
            None => None,
        }
    }

    /// Skips `n` nodes and gives the data of the one after.
    pub fn nth(&mut self, n: usize) -> (r: Option<&'a Node<T>>)
        ensures
            n >= old(self).rest().len() ==> r is None && final(self).rest().len() == 0,
            n < old(self).rest().len() ==> (r matches Some(x) && *x == old(self).rest()[n as int].1
                && final(self).rest() == old(self).rest().skip(n + 1)),
    {
        match self.nodes.nth(n) {
            Some(e) => Some(e.1),
            None => None,
        }
    }
}

/// Walk over node identifiers and shared references to node data.
pub struct NodeIdsDataIter<'a, T> {
    pub(crate) nodes: Entries<'a, T>,
}

impl<'a, T> NodeIdsDataIter<'a, T> {
    pub(crate) fn new(nodes: Entries<'a, T>) -> (r: Self)
        ensures
            r.rest() == nodes.rest(),
    {
        NodeIdsDataIter { nodes }
    }

    /// The entries (identifier and node) that the walk has yet to reach.
    pub closed spec fn rest(&self) -> Seq<(NodeId, Node<T>)> {
        self.nodes.rest()
    }

    /// Lower and upper bound on the number of items left: both exact.
    pub fn size_hint(&self) -> (r: (usize, Option<usize>))
        ensures
            r.0 == self.rest().len(),
            r.1 == Some(r.0),
    {
        let n = self.nodes.remaining();
        (n, Some(n))
    }

    /// Identifier and data of the next node.
    pub fn next(&mut self) -> (r: Option<(NodeId, &'a Node<T>)>)
        ensures
            old(self).rest().len() == 0 ==> r is None && final(self).rest() == old(self).rest(),
            old(self).rest().len() > 0 ==> (r matches Some(x) && (x.0, *x.1) == old(self).rest()[0]
                && final(self).rest() == old(self).rest().drop_first()),
    {
        self.nodes.next()
    }

    /// Skips `n` nodes and gives identifier and data of the one after.
    pub fn nth(&mut self, n: usize) -> (r: Option<(NodeId, &'a Node<T>)>)
        ensures
            n >= old(self).rest().len() ==> r is None && final(self).rest().len() == 0,
            n < old(self).rest().len() ==> (r matches Some(x) && (x.0, *x.1) == old(self).rest()[n as int]
                && final(self).rest() == old(self).rest().skip(n + 1)),
    {
        self.nodes.nth(n)
    }
}

} // verus!
