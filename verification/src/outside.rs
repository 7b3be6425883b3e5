//! Outside types that the library carries, and the calls it makes into
//! the `slab` and `smallvec` crates.
use vstd::prelude::*;

verus! {

#[verifier::external_type_specification]
#[verifier::external_body]
pub struct ExPos2(egui::Pos2);

/// `egui::Pos2` is `Copy` and derives `Clone`: a clone equals the value it was taken from.
pub assume_specification[ <egui::Pos2 as core::clone::Clone>::clone ](p: &egui::Pos2) -> (r: egui::Pos2)
    ensures
        r == *p,
;

#[verifier::external_type_specification]
#[verifier::external_body]
#[verifier::reject_recursive_types(T)]
pub struct ExSlab<T>(slab::Slab<T>);

/// The keys that are occupied in a slab of unit entries.
pub uninterp spec fn slab_keys(s: slab::Slab<()>) -> Set<usize>;

/// The key of the slab's next vacant entry, the one its next insert takes
/// (what `Slab::vacant_key` returns). It is never occupied.
pub uninterp spec fn slab_vacant_key(s: slab::Slab<()>) -> usize;

/// `Slab::new`: a slab with no occupied key, whose next vacant key is 0.
#[verifier::external_body]
pub(crate) fn slab_new() -> (s: slab::Slab<()>)
    ensures
        slab_keys(s) == Set::<usize>::empty(),
        slab_vacant_key(s) == 0,
{
    slab::Slab::new()
}

/// `Slab::insert`: occupies the slab's next vacant key and returns it; that
/// key was not occupied before and every other key keeps its state. The new
/// next vacant key is again unoccupied; which one it is (the end of the
/// entries, or the link that the freed entry holds) is left unsaid, as is
/// running out of memory, where `Vec` aborts.
#[verifier::external_body]
pub(crate) fn slab_insert(s: &mut slab::Slab<()>) -> (key: usize)
    ensures
        key == slab_vacant_key(*old(s)),
        !slab_keys(*old(s)).contains(key),
        slab_keys(*final(s)) == slab_keys(*old(s)).insert(key),
        !slab_keys(*final(s)).contains(slab_vacant_key(*final(s))),
{
    s.insert(())
}

/// `Slab::contains`: whether the key is occupied.
#[verifier::external_body]
pub(crate) fn slab_contains(s: &slab::Slab<()>, key: usize) -> (r: bool)
    ensures
        r == slab_keys(*s).contains(key),
{
    s.contains(key)
}

/// `Slab::remove`: frees an occupied key (it panics on a vacant one), which
/// becomes the next vacant key.
#[verifier::external_body]
pub(crate) fn slab_remove(s: &mut slab::Slab<()>, key: usize)
    requires
        slab_keys(*old(s)).contains(key),
    ensures
        slab_keys(*final(s)) == slab_keys(*old(s)).remove(key),
        slab_vacant_key(*final(s)) == key,
{
    s.remove(key)
}

/// `Slab::clone`: the clone occupies the same keys and has the same next
/// vacant key.
#[verifier::external_body]
pub(crate) fn slab_clone(s: &slab::Slab<()>) -> (r: slab::Slab<()>)
    ensures
        slab_keys(r) == slab_keys(*s),
        slab_vacant_key(r) == slab_vacant_key(*s),
{
    s.clone()
}

} // verus!

verus! {

#[verifier::external_type_specification]
#[verifier::external_body]
pub struct ExId(egui::Id);

#[verifier::external_type_specification]
#[verifier::external_body]
pub struct ExTSTransform(egui::emath::TSTransform);

/// Small vector of node identifiers (inline room for eight).
#[verifier::external_body]
pub struct NodeIdList {
    inner: smallvec::SmallVec<[crate::NodeId; 8]>,
}

/// Small vector of input pin identifiers (inline room for four).
#[verifier::external_body]
pub struct InPinList {
    inner: smallvec::SmallVec<[crate::InPinId; 4]>,
}

/// Small vector of output pin identifiers (inline room for four).
#[verifier::external_body]
pub struct OutPinList {
    inner: smallvec::SmallVec<[crate::OutPinId; 4]>,
}

/// The elements that a `NodeIdList` holds, in order.
pub uninterp spec fn node_list(v: NodeIdList) -> Seq<crate::NodeId>;

/// The elements that an `InPinList` holds, in order.
pub uninterp spec fn in_pin_list(v: InPinList) -> Seq<crate::InPinId>;

/// The elements that an `OutPinList` holds, in order.
pub uninterp spec fn out_pin_list(v: OutPinList) -> Seq<crate::OutPinId>;

/// `SmallVec::new`: empty.
#[verifier::external_body]
pub(crate) fn node_list_new() -> (v: NodeIdList)
    ensures
        node_list(v) == Seq::<crate::NodeId>::empty(),
{
    NodeIdList { inner: smallvec::SmallVec::new() }
}

/// `SmallVec::from_vec`: holds the vector's elements in order.
#[verifier::external_body]
pub(crate) fn node_list_from_vec(v: Vec<crate::NodeId>) -> (r: NodeIdList)
    ensures
        node_list(r) == v@,
{
    NodeIdList { inner: smallvec::SmallVec::from_vec(v) }
}

/// `SmallVec::into_vec`: a vector of the same elements in order.
#[verifier::external_body]
pub(crate) fn node_list_into_vec(v: NodeIdList) -> (r: Vec<crate::NodeId>)
    ensures
        r@ == node_list(v),
{
    v.inner.into_vec()
}

/// `SmallVec::as_slice`: the elements in order.
#[verifier::external_body]
pub(crate) fn node_list_as_slice(v: &NodeIdList) -> (r: &[crate::NodeId])
    ensures
        r@ == node_list(*v),
{
    v.inner.as_slice()
}

/// `SmallVec::push`: appends the element.
#[verifier::external_body]
pub(crate) fn node_list_push(v: &mut NodeIdList, x: crate::NodeId)
    ensures
        node_list(*final(v)) == node_list(*old(v)).push(x),
{
    v.inner.push(x)
}

/// `SmallVec::remove`: removes and returns the element at the index, shifting
/// the later ones down (it panics on an index out of bounds).
#[verifier::external_body]
pub(crate) fn node_list_remove(v: &mut NodeIdList, i: usize) -> (r: crate::NodeId)
    requires
        i < node_list(*old(v)).len(),
    ensures
        r == node_list(*old(v))[i as int],
        node_list(*final(v)) == node_list(*old(v)).remove(i as int),
{
    v.inner.remove(i)
}

/// `SmallVec::clear`: removes every element.
#[verifier::external_body]
pub(crate) fn node_list_clear(v: &mut NodeIdList)
    ensures
        node_list(*final(v)) == Seq::<crate::NodeId>::empty(),
{
    v.inner.clear()
}

/// `SmallVec::extend_from_slice`: appends the slice's elements in order.
#[verifier::external_body]
pub(crate) fn node_list_extend_from_slice(v: &mut NodeIdList, s: &[crate::NodeId])
    ensures
        node_list(*final(v)) == node_list(*old(v)) + s@,
{
    v.inner.extend_from_slice(s)
}

/// `SmallVec::retain` with a predicate that keeps the identifiers of the
/// nodes that the graph holds: keeps those, in order.
#[verifier::external_body]
pub(crate) fn node_list_retain_present<T>(v: &mut NodeIdList, snarl: &crate::snarl::Snarl<T>)
    requires
        snarl.wf(),
    ensures
        node_list(*final(v)) == node_list(*old(v)).filter(|id: crate::NodeId| snarl.contains(id)),
{
    v.inner.retain(|id| snarl.contains_node(*id))
}

/// `SmallVec::from_slice`: holds the slice's elements in order.
#[verifier::external_body]
pub(crate) fn in_pin_list_from_slice(s: &[crate::InPinId]) -> (r: InPinList)
    ensures
        in_pin_list(r) == s@,
{
    InPinList { inner: smallvec::SmallVec::from_slice(s) }
}

/// `SmallVec::as_slice`: the elements in order.
#[verifier::external_body]
pub(crate) fn in_pin_list_as_slice(v: &InPinList) -> (r: &[crate::InPinId])
    ensures
        r@ == in_pin_list(*v),
{
    v.inner.as_slice()
}

/// `SmallVec::push`: appends the element.
#[verifier::external_body]
pub(crate) fn in_pin_list_push(v: &mut InPinList, x: crate::InPinId)
    ensures
        in_pin_list(*final(v)) == in_pin_list(*old(v)).push(x),
{
    v.inner.push(x)
}

/// `SmallVec::swap_remove`: replaces the element at the index by the last
/// one and drops the last place (it panics on an index out of bounds).
#[verifier::external_body]
pub(crate) fn in_pin_list_swap_remove(v: &mut InPinList, i: usize) -> (r: crate::InPinId)
    requires
        i < in_pin_list(*old(v)).len(),
    ensures
        r == in_pin_list(*old(v))[i as int],
        in_pin_list(*final(v)) == in_pin_list(*old(v)).update(i as int, in_pin_list(*old(v)).last()).drop_last(),
{
    v.inner.swap_remove(i)
}

/// `SmallVec::from_slice`: holds the slice's elements in order.
#[verifier::external_body]
pub(crate) fn out_pin_list_from_slice(s: &[crate::OutPinId]) -> (r: OutPinList)
    ensures
        out_pin_list(r) == s@,
{
    OutPinList { inner: smallvec::SmallVec::from_slice(s) }
}

/// `SmallVec::as_slice`: the elements in order.
#[verifier::external_body]
pub(crate) fn out_pin_list_as_slice(v: &OutPinList) -> (r: &[crate::OutPinId])
    ensures
        r@ == out_pin_list(*v),
{
    v.inner.as_slice()
}

/// `SmallVec::push`: appends the element.
#[verifier::external_body]
pub(crate) fn out_pin_list_push(v: &mut OutPinList, x: crate::OutPinId)
    ensures
        out_pin_list(*final(v)) == out_pin_list(*old(v)).push(x),
{
    v.inner.push(x)
}

/// `SmallVec::swap_remove`: replaces the element at the index by the last
/// one and drops the last place (it panics on an index out of bounds).
#[verifier::external_body]
pub(crate) fn out_pin_list_swap_remove(v: &mut OutPinList, i: usize) -> (r: crate::OutPinId)
    requires
        i < out_pin_list(*old(v)).len(),
    ensures
        r == out_pin_list(*old(v))[i as int],
        out_pin_list(*final(v)) == out_pin_list(*old(v)).update(i as int, out_pin_list(*old(v)).last()).drop_last(),
{
    v.inner.swap_remove(i)
}

} // verus!
