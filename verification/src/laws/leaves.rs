//! Leaf opacity: the descriptor of a leaf is never consulted.

use vstd::prelude::*;
use crate::de::{de, de_at, de_data, de_entries, de_slots};
use crate::ident::{arm_named, field_names, resolve};
use crate::location::{
    array_slots, named_slots, read_tag, read_word, tag_bytes, tuple_slots, write_bytes, Slot,
};
use crate::metadata::{arm_position, DataShape, ReflectedType, TypeKey, VariantData};
use crate::registry::Registry;
use crate::ser::{ser, ser_array, ser_at, ser_data, ser_slots};
use crate::wire::{IdentView, WireView};


verus! {

/// Leaf opacity: for a type registered as a leaf, nothing in the shape of
/// its descriptor is consulted. Two descriptors of the same identity and
/// layout serialize and deserialize alike, whatever their shapes.
pub proof fn lemma_leaf_shape_is_never_consulted(
    reg: Registry,
    mem: Seq<u8>,
    typ: ReflectedType,
    other: ReflectedType,
    addr: int,
    wire: WireView,
    fuel: nat,
)
    requires
        reg.leaves.contains(typ.id),
        other.id == typ.id,
        other.layout == typ.layout,
    ensures
        ser(reg, mem, other, addr, fuel) == ser(reg, mem, typ, addr, fuel),
        de(reg, mem, other, addr, wire, fuel) == de(reg, mem, typ, addr, wire, fuel),
{
}

/// Whether two descriptors differ at most in what a leaf routine hides: for
/// a type registered as a leaf, in anything but identity and layout.
pub open spec fn alike_but_for_leaf(reg: Registry, typ: ReflectedType, other: ReflectedType) -> bool {
    if reg.leaves.contains(typ.id) {
        other.id == typ.id && other.layout == typ.layout
    } else {
        other == typ
    }
}

/// Whether two registries hold the same leaves and the same types, and differ
/// at most in the descriptors of types registered as leaves, there in
/// anything but identity and layout.
pub open spec fn alike_but_for_leaves(reg: Registry, other: Registry) -> bool {
    &&& other.leaves == reg.leaves
    &&& forall|id: TypeKey| reg.types.contains_key(id) == other.types.contains_key(id)
    &&& forall|id: TypeKey|
        reg.types.contains_key(id) ==> alike_but_for_leaf(reg, #[trigger] reg.types[id], other.types[id])
}

/// Serializing a value goes alike in two registries that are alike but for
/// their leaves.
proof fn lemma_opaque_ser(
    reg: Registry,
    other: Registry,
    mem: Seq<u8>,
    typ: ReflectedType,
    changed: ReflectedType,
    addr: int,
    fuel: nat,
)
    requires
        alike_but_for_leaves(reg, other),
        alike_but_for_leaf(reg, typ, changed),
    ensures
        ser(other, mem, changed, addr, fuel) == ser(reg, mem, typ, addr, fuel),
    decreases fuel, 3nat, 0nat,
{
    if !reg.leaves.contains(typ.id) {
        match typ.shape {
            DataShape::FixedArray(elem, len) => {
                lemma_opaque_ser_array(reg, other, mem, elem, len as nat, addr, fuel);
            },
            DataShape::Slice(elem) => {
                match (read_word(mem, addr), read_word(mem, addr + 8)) {
                    (Some(first), Some(len)) => {
                        lemma_opaque_ser_array(reg, other, mem, elem, len as nat, first as int, fuel);
                    },
                    _ => {},
                }
            },
            DataShape::Ref(inner) => {
                match read_word(mem, addr) {
                    Some(target) => {
                        lemma_opaque_ser_at(reg, other, mem, Slot { type_id: inner, addr: target as int }, fuel);
                    },
                    None => {},
                }
            },
            DataShape::Tuple(fields) => {
                lemma_opaque_ser_slots(reg, other, mem, tuple_slots(fields@, addr), fields@.len(), fuel);
            },
            DataShape::Newtype(inner) => {
                lemma_opaque_ser_at(reg, other, mem, Slot { type_id: inner, addr }, fuel);
            },
            DataShape::Struct(data) => {
                lemma_opaque_ser_data(reg, other, mem, data, addr, fuel);
            },
            DataShape::Enum { variants, .. } => {
                match read_tag(mem, addr) {
                    Some(tag) => match arm_position(variants@, tag) {
                        Some(i) => {
                            lemma_opaque_ser_data(reg, other, mem, variants@[i].variant, addr, fuel);
                        },
                        None => {},
                    },
                    None => {},
                }
            },
            _ => {},
        }
    }
}

/// Serializing an array goes alike in two registries that are alike but for
/// their leaves.
proof fn lemma_opaque_ser_array(
    reg: Registry,
    other: Registry,
    mem: Seq<u8>,
    elem: TypeKey,
    len: nat,
    base: int,
    fuel: nat,
)
    requires
        alike_but_for_leaves(reg, other),
    ensures
        ser_array(other, mem, elem, len, base, fuel) == ser_array(reg, mem, elem, len, base, fuel),
    decreases fuel, 2nat, 0nat,
{
    if reg.types.contains_key(elem) {
        assert(other.types[elem].layout == reg.types[elem].layout);
        lemma_opaque_ser_slots(
            reg,
            other,
            mem,
            array_slots(elem, len, reg.types[elem].layout.stride(), base),
            len,
            fuel,
        );
    }
}

/// Serializing fields goes alike in two registries that are alike but for
/// their leaves.
proof fn lemma_opaque_ser_data(
    reg: Registry,
    other: Registry,
    mem: Seq<u8>,
    data: VariantData,
    base: int,
    fuel: nat,
)
    requires
        alike_but_for_leaves(reg, other),
    ensures
        ser_data(other, mem, data, base, fuel) == ser_data(reg, mem, data, base, fuel),
    decreases fuel, 2nat, 0nat,
{
    match data {
        VariantData::Unit => {},
        VariantData::Tuple(fields) => {
            lemma_opaque_ser_slots(reg, other, mem, tuple_slots(fields@, base), fields@.len(), fuel);
        },
        VariantData::Fields { fields, .. } => {
            lemma_opaque_ser_slots(reg, other, mem, named_slots(fields@, base), fields@.len(), fuel);
        },
    }
}

/// Serializing a run of slots goes alike in two registries that are alike
/// but for their leaves.
proof fn lemma_opaque_ser_slots(
    reg: Registry,
    other: Registry,
    mem: Seq<u8>,
    slots: Seq<Slot>,
    n: nat,
    fuel: nat,
)
    requires
        alike_but_for_leaves(reg, other),
    ensures
        ser_slots(other, mem, slots, n, fuel) == ser_slots(reg, mem, slots, n, fuel),
    decreases fuel, 1nat, n,
{
    if n > 0 {
        lemma_opaque_ser_slots(reg, other, mem, slots, (n - 1) as nat, fuel);
        lemma_opaque_ser_at(reg, other, mem, slots[n - 1], fuel);
    }
}

/// Serializing the value at a slot goes alike in two registries that are
/// alike but for their leaves.
proof fn lemma_opaque_ser_at(reg: Registry, other: Registry, mem: Seq<u8>, slot: Slot, fuel: nat)
    requires
        alike_but_for_leaves(reg, other),
    ensures
        ser_at(other, mem, slot, fuel) == ser_at(reg, mem, slot, fuel),
    decreases fuel, 0nat, 0nat,
{
    if reg.types.contains_key(slot.type_id) && fuel > 0 {
        lemma_opaque_ser(
            reg,
            other,
            mem,
            reg.types[slot.type_id],
            other.types[slot.type_id],
            slot.addr,
            (fuel - 1) as nat,
        );
    }
}

/// Filling a value goes alike in two registries that are alike but for their
/// leaves.
proof fn lemma_opaque_de(
    reg: Registry,
    other: Registry,
    mem: Seq<u8>,
    typ: ReflectedType,
    changed: ReflectedType,
    addr: int,
    wire: WireView,
    fuel: nat,
)
    requires
        alike_but_for_leaves(reg, other),
        alike_but_for_leaf(reg, typ, changed),
    ensures
        de(other, mem, changed, addr, wire, fuel) == de(reg, mem, typ, addr, wire, fuel),
    decreases fuel, 4nat, 0nat,
{
    if !reg.leaves.contains(typ.id) {
        match typ.shape {
            DataShape::FixedArray(elem, len) => {
                match wire {
                    WireView::Sequence(items) => {
                        if reg.types.contains_key(elem) {
                            assert(other.types[elem].layout == reg.types[elem].layout);
                            lemma_opaque_de_slots(
                                reg,
                                other,
                                mem,
                                array_slots(elem, len as nat, reg.types[elem].layout.stride(), addr),
                                items,
                                len as nat,
                                fuel,
                            );
                        }
                    },
                    _ => {},
                }
            },
            DataShape::Tuple(fields) => {
                match wire {
                    WireView::Sequence(items) => {
                        lemma_opaque_de_slots(
                            reg,
                            other,
                            mem,
                            tuple_slots(fields@, addr),
                            items,
                            fields@.len(),
                            fuel,
                        );
                    },
                    _ => {},
                }
            },
            DataShape::Newtype(inner) => {
                match wire {
                    WireView::Newtype(w) => {
                        lemma_opaque_de_at(reg, other, mem, Slot { type_id: inner, addr }, *w, fuel);
                    },
                    _ => {},
                }
            },
            DataShape::Struct(data) => {
                lemma_opaque_de_data(reg, other, mem, data, addr, wire, fuel);
            },
            DataShape::Enum { variants, .. } => {
                match wire {
                    WireView::Variant { ident, payload } => {
                        match arm_named(variants@, ident) {
                            Some(ix) => {
                                lemma_opaque_de_data(
                                    reg,
                                    other,
                                    write_bytes(mem, addr, tag_bytes(variants@[ix].discriminant)),
                                    variants@[ix].variant,
                                    addr,
                                    *payload,
                                    fuel,
                                );
                            },
                            None => {},
                        }
                    },
                    _ => {},
                }
            },
            _ => {},
        }
    }
}

/// Filling fields goes alike in two registries that are alike but for their
/// leaves.
proof fn lemma_opaque_de_data(
    reg: Registry,
    other: Registry,
    mem: Seq<u8>,
    data: VariantData,
    base: int,
    wire: WireView,
    fuel: nat,
)
    requires
        alike_but_for_leaves(reg, other),
    ensures
        de_data(other, mem, data, base, wire, fuel) == de_data(reg, mem, data, base, wire, fuel),
    decreases fuel, 3nat, 0nat,
{
    match data {
        VariantData::Unit => {},
        VariantData::Tuple(fields) => {
            match wire {
                WireView::Sequence(items) => {
                    lemma_opaque_de_slots(reg, other, mem, tuple_slots(fields@, base), items, fields@.len(), fuel);
                },
                _ => {},
            }
        },
        VariantData::Fields { fields, .. } => {
            match wire {
                WireView::Mapping(entries) => {
                    lemma_opaque_de_entries(
                        reg,
                        other,
                        mem,
                        field_names(fields@),
                        named_slots(fields@, base),
                        entries,
                        entries.len(),
                        fuel,
                    );
                },
                WireView::Sequence(items) => {
                    lemma_opaque_de_slots(reg, other, mem, named_slots(fields@, base), items, fields@.len(), fuel);
                },
                _ => {},
            }
        },
    }
}

/// Filling a run of slots goes alike in two registries that are alike but
/// for their leaves.
proof fn lemma_opaque_de_slots(
    reg: Registry,
    other: Registry,
    mem: Seq<u8>,
    slots: Seq<Slot>,
    items: Seq<WireView>,
    n: nat,
    fuel: nat,
)
    requires
        alike_but_for_leaves(reg, other),
    ensures
        de_slots(other, mem, slots, items, n, fuel) == de_slots(reg, mem, slots, items, n, fuel),
    decreases fuel, 1nat, n,
{
    if n > 0 {
        lemma_opaque_de_slots(reg, other, mem, slots, items, (n - 1) as nat, fuel);
        let before = de_slots(reg, mem, slots, items, (n - 1) as nat, fuel);
        lemma_opaque_de_at(reg, other, before.mem, slots[n - 1], items[n - 1], fuel);
    }
}

/// Filling from map entries goes alike in two registries that are alike but
/// for their leaves.
proof fn lemma_opaque_de_entries(
    reg: Registry,
    other: Registry,
    mem: Seq<u8>,
    names: Seq<String>,
    slots: Seq<Slot>,
    entries: Seq<(IdentView, WireView)>,
    n: nat,
    fuel: nat,
)
    requires
        alike_but_for_leaves(reg, other),
    ensures
        de_entries(other, mem, names, slots, entries, n, fuel) == de_entries(
            reg,
            mem,
            names,
            slots,
            entries,
            n,
            fuel,
        ),
    decreases fuel, 1nat, n,
{
    if n > 0 {
        lemma_opaque_de_entries(reg, other, mem, names, slots, entries, (n - 1) as nat, fuel);
        let before = de_entries(reg, mem, names, slots, entries, (n - 1) as nat, fuel);
        match resolve(names, slots.len(), entries[n - 1].0) {
            Some(ix) => {
                lemma_opaque_de_at(reg, other, before.mem, slots[ix], entries[n - 1].1, fuel);
            },
            None => {},
        }
    }
}

/// Filling the value at a slot goes alike in two registries that are alike
/// but for their leaves.
proof fn lemma_opaque_de_at(
    reg: Registry,
    other: Registry,
    mem: Seq<u8>,
    slot: Slot,
    wire: WireView,
    fuel: nat,
)
    requires
        alike_but_for_leaves(reg, other),
    ensures
        de_at(other, mem, slot, wire, fuel) == de_at(reg, mem, slot, wire, fuel),
    decreases fuel, 0nat, 0nat,
{
    if reg.types.contains_key(slot.type_id) && fuel > 0 {
        lemma_opaque_de(
            reg,
            other,
            mem,
            reg.types[slot.type_id],
            other.types[slot.type_id],
            slot.addr,
            wire,
            (fuel - 1) as nat,
        );
    }
}

/// Leaf opacity, throughout a registry: whatever is changed in the
/// descriptors of types registered as leaves, but for their identity and
/// layout, every value of every type serializes and deserializes as before,
/// however deep the leaves lie in it.
pub proof fn lemma_leaf_descriptors_are_never_consulted(
    reg: Registry,
    other: Registry,
    mem: Seq<u8>,
    typ: ReflectedType,
    changed: ReflectedType,
    addr: int,
    wire: WireView,
    fuel: nat,
)
    requires
        alike_but_for_leaves(reg, other),
        alike_but_for_leaf(reg, typ, changed),
    ensures
        ser(other, mem, changed, addr, fuel) == ser(reg, mem, typ, addr, fuel),
        de(other, mem, changed, addr, wire, fuel) == de(reg, mem, typ, addr, wire, fuel),
{
    lemma_opaque_ser(reg, other, mem, typ, changed, addr, fuel);
    lemma_opaque_de(reg, other, mem, typ, changed, addr, wire, fuel);
}

} // verus!
