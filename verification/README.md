# egui_snarl

A node-graph container and the interaction state of its view, verified with
Verus.

- `src/` is the verified library: the graph (`Snarl`: nodes in slots keyed by
  a slab, and the wires between their pins), its node iterators, deferred
  effects, and the interaction state of a graph view (wires being dragged,
  what dropping them or acting on a pin does, node selection, draw order),
  and the mixing of two pins' colours for the wire between them.
  `src/laws.rs` states the laws that relate several operations.
  `src/outside.rs` holds the trusted specifications of the calls into `slab`
  and `smallvec`.
- `app/` is the egui widget that draws a graph and feeds user input to the
  library. It works in floating point and is not verified.
- `tests/` runs the library on concrete values.
