//! Pins of nodes: identifiers with their wired remotes, and pin descriptors.
use vstd::prelude::*;

use crate::{InPinId, OutPinId};

verus! {

/// Output pin with the input pins wired to it.
#[derive(Clone, Debug)]
pub struct OutPin {
    /// Output pin identifier.
    pub id: OutPinId,
    /// Input pins connected to this output pin.
    pub remotes: Vec<InPinId>,
}

/// Input pin with the output pins wired to it.
#[derive(Clone, Debug)]
pub struct InPin {
    /// Input pin identifier.
    pub id: InPinId,
    /// Output pins connected to this input pin.
    pub remotes: Vec<OutPinId>,
}

/// Either an output pin or an input pin.
#[derive(Clone, Copy, Debug, PartialEq, Eq, Hash, Structural)]
pub enum AnyPin {
    /// Output pin.
    Out(OutPinId),
    /// Input pin.
    In(InPinId),
}

/// The pins of a source node that the pins of a newly created node will
/// connect to.
#[derive(Debug)]
pub enum AnyPins<'a> {
    /// Output pins.
    Out(&'a [OutPinId]),
    /// Input pins.
    In(&'a [InPinId]),
}

/// How header, pins, body and footer are placed in a node.
#[derive(Clone, Copy, Debug, PartialEq, Eq, Structural)]
pub enum NodeLayoutKind {
    /// Input pins, body and output pins side by side, with header on top and
    /// footer at the bottom.
    Coil,
    /// Vertical stack: header, input pins, body, output pins, footer.
    Sandwich,
    /// Vertical stack: header, output pins, body, input pins, footer.
    FlippedSandwich,
}

impl Default for NodeLayoutKind {
    fn default() -> (r: Self)
        ensures
            r == NodeLayoutKind::Coil,
    {
        NodeLayoutKind::Coil
    }
}

/// Shape of a pin.
#[derive(Clone, Copy, Debug, PartialEq, Eq, Hash, Structural)]
pub enum PinShape {
    /// Circle shape.
    Circle,
    /// Triangle shape.
    Triangle,
    /// Square shape.
    Square,
    /// Star shape.
    Star,
}

impl Default for PinShape {
    fn default() -> (r: Self)
        ensures
            r == PinShape::Circle,
    {
        PinShape::Circle
    }
}

/// Layer where wires are rendered.
#[derive(Clone, Copy, Debug, PartialEq, Eq, Structural)]
pub enum WireLayer {
    /// Wires are rendered behind nodes.
    BehindNodes,
    /// Wires are rendered above nodes.
    AboveNodes,
}

impl Default for WireLayer {
    fn default() -> (r: Self)
        ensures
            r == WireLayer::BehindNodes,
    {
        WireLayer::BehindNodes
    }
}

} // verus!
