//! The depth that a walk is allowed matters only to walks that exceed it.

use vstd::prelude::*;
use crate::de::{de, de_at, de_data, de_entries, de_enum, de_seq, de_slots, Outcome};
use crate::ident::{arm_named, field_names, resolve};
use crate::location::{array_slots, named_slots, read_tag, read_word, tag_bytes, tuple_slots, write_bytes, Slot};
use crate::metadata::{arm_position, DataShape, EnumArms, ReflectedType, TypeKey, VariantData};
use crate::registry::Registry;
use crate::ser::{ser, ser_array, ser_at, ser_data, ser_slots};
use crate::wire::{Error, IdentView, WireView};

verus! {

/// Whether a serialization ended because it was not allowed to go deeper.
pub open spec fn too_deep<T>(r: Result<T, Error>) -> bool {
    r matches Err(Error::DepthExceeded)
}

/// Whether a deserialization ended because it was not allowed to go deeper.
pub open spec fn stopped_too_deep(r: Outcome) -> bool {
    r.error == Some(Error::DepthExceeded)
}

/// A serialization that did not end for want of depth ends alike at any
/// greater depth.
pub proof fn lemma_ser_does_not_turn_on_depth(
    reg: Registry,
    mem: Seq<u8>,
    typ: ReflectedType,
    addr: int,
    fuel: nat,
    more: nat,
)
    requires
        fuel <= more,
        !too_deep(ser(reg, mem, typ, addr, fuel)),
    ensures
        ser(reg, mem, typ, addr, more) == ser(reg, mem, typ, addr, fuel),
    decreases fuel, 3nat, 0nat,
{
    if !(addr < 0 || addr > mem.len()) && !reg.leaves.contains(typ.id) {
        match typ.shape {
            DataShape::FixedArray(elem, len) => {
                lemma_ser_array_deeper(reg, mem, elem, len as nat, addr, fuel, more);
            },
            DataShape::Slice(elem) => {
                match (read_word(mem, addr), read_word(mem, addr + 8)) {
                    (Some(first), Some(len)) => {
                        if !(first > usize::MAX || len > usize::MAX) {
                            lemma_ser_array_deeper(reg, mem, elem, len as nat, first as int, fuel, more);
                        }
                    },
                    _ => {},
                }
            },
            DataShape::Ref(inner) => {
                match read_word(mem, addr) {
                    Some(target) => {
                        lemma_ser_at_deeper(reg, mem, Slot { type_id: inner, addr: target as int }, fuel, more);
                    },
                    None => {},
                }
            },
            DataShape::Tuple(fields) => {
                lemma_ser_slots_deeper(reg, mem, tuple_slots(fields@, addr), fields@.len(), fuel, more);
            },
            DataShape::Newtype(inner) => {
                lemma_ser_at_deeper(reg, mem, Slot { type_id: inner, addr }, fuel, more);
            },
            DataShape::Struct(data) => {
                lemma_ser_data_deeper(reg, mem, data, addr, fuel, more);
            },
            DataShape::Enum { variants, .. } => {
                match read_tag(mem, addr) {
                    Some(tag) => {
                        match arm_position(variants@, tag) {
                            Some(i) => {
                                lemma_ser_data_deeper(reg, mem, variants@[i].variant, addr, fuel, more);
                            },
                            None => {},
                        }
                    },
                    None => {},
                }
            },
            _ => {},
        }
    }
}

/// The same of a run of elements.
proof fn lemma_ser_array_deeper(
    reg: Registry,
    mem: Seq<u8>,
    elem: TypeKey,
    len: nat,
    base: int,
    fuel: nat,
    more: nat,
)
    requires
        fuel <= more,
        !too_deep(ser_array(reg, mem, elem, len, base, fuel)),
    ensures
        ser_array(reg, mem, elem, len, base, more) == ser_array(reg, mem, elem, len, base, fuel),
    decreases fuel, 2nat, 0nat,
{
    if reg.types.contains_key(elem) {
        lemma_ser_slots_deeper(
            reg,
            mem,
            array_slots(elem, len, reg.types[elem].layout.stride(), base),
            len,
            fuel,
            more,
        );
    }
}

/// The same of the fields of a struct or of a variant.
proof fn lemma_ser_data_deeper(reg: Registry, mem: Seq<u8>, data: VariantData, base: int, fuel: nat, more: nat)
    requires
        fuel <= more,
        !too_deep(ser_data(reg, mem, data, base, fuel)),
    ensures
        ser_data(reg, mem, data, base, more) == ser_data(reg, mem, data, base, fuel),
    decreases fuel, 2nat, 0nat,
{
    match data {
        VariantData::Unit => {},
        VariantData::Tuple(fields) => {
            lemma_ser_slots_deeper(reg, mem, tuple_slots(fields@, base), fields@.len(), fuel, more);
        },
        VariantData::Fields { fields, .. } => {
            lemma_ser_slots_deeper(reg, mem, named_slots(fields@, base), fields@.len(), fuel, more);
        },
    }
}

/// The same of the first `n` of the slots.
proof fn lemma_ser_slots_deeper(reg: Registry, mem: Seq<u8>, slots: Seq<Slot>, n: nat, fuel: nat, more: nat)
    requires
        fuel <= more,
        !too_deep(ser_slots(reg, mem, slots, n, fuel)),
    ensures
        ser_slots(reg, mem, slots, n, more) == ser_slots(reg, mem, slots, n, fuel),
    decreases fuel, 1nat, n,
{
    if n > 0 {
        lemma_ser_slots_deeper(reg, mem, slots, (n - 1) as nat, fuel, more);
        if ser_slots(reg, mem, slots, (n - 1) as nat, fuel) is Ok {
            lemma_ser_at_deeper(reg, mem, slots[n - 1], fuel, more);
        }
    }
}

/// The same of the value at a slot.
proof fn lemma_ser_at_deeper(reg: Registry, mem: Seq<u8>, slot: Slot, fuel: nat, more: nat)
    requires
        fuel <= more,
        !too_deep(ser_at(reg, mem, slot, fuel)),
    ensures
        ser_at(reg, mem, slot, more) == ser_at(reg, mem, slot, fuel),
    decreases fuel, 0nat, 0nat,
{
    if !(slot.addr < 0 || slot.addr > mem.len()) && reg.types.contains_key(slot.type_id) {
        lemma_ser_does_not_turn_on_depth(
            reg,
            mem,
            reg.types[slot.type_id],
            slot.addr,
            (fuel - 1) as nat,
            (more - 1) as nat,
        );
    }
}

/// A deserialization that did not end for want of depth ends alike, and
/// leaves the same image, at any greater depth.
pub proof fn lemma_de_does_not_turn_on_depth(
    reg: Registry,
    mem: Seq<u8>,
    typ: ReflectedType,
    addr: int,
    wire: WireView,
    fuel: nat,
    more: nat,
)
    requires
        fuel <= more,
        !stopped_too_deep(de(reg, mem, typ, addr, wire, fuel)),
    ensures
        de(reg, mem, typ, addr, wire, more) == de(reg, mem, typ, addr, wire, fuel),
    decreases fuel, 4nat, 0nat,
{
    if !(addr < 0 || addr > mem.len()) && !reg.leaves.contains(typ.id) {
        match typ.shape {
            DataShape::FixedArray(elem, len) => {
                match wire {
                    WireView::Sequence(items) => {
                        if reg.types.contains_key(elem) {
                            lemma_de_seq_deeper(
                                reg,
                                mem,
                                array_slots(elem, len as nat, reg.types[elem].layout.stride(), addr),
                                items,
                                fuel,
                                more,
                            );
                        }
                    },
                    _ => {},
                }
            },
            DataShape::Tuple(fields) => {
                match wire {
                    WireView::Sequence(items) => {
                        lemma_de_seq_deeper(reg, mem, tuple_slots(fields@, addr), items, fuel, more);
                    },
                    _ => {},
                }
            },
            DataShape::Newtype(inner) => {
                match wire {
                    WireView::Newtype(w) => {
                        lemma_de_at_deeper(reg, mem, Slot { type_id: inner, addr }, *w, fuel, more);
                    },
                    _ => {},
                }
            },
            DataShape::Struct(data) => {
                lemma_de_data_deeper(reg, mem, data, addr, wire, fuel, more);
            },
            DataShape::Enum { variants, .. } => {
                match wire {
                    WireView::Variant { ident, payload } => {
                        lemma_de_enum_deeper(reg, mem, variants, addr, ident, *payload, fuel, more);
                    },
                    _ => {},
                }
            },
            _ => {},
        }
    }
}

/// The same of an enum.
proof fn lemma_de_enum_deeper(
    reg: Registry,
    mem: Seq<u8>,
    variants: EnumArms,
    addr: int,
    ident: IdentView,
    payload: WireView,
    fuel: nat,
    more: nat,
)
    requires
        fuel <= more,
        !stopped_too_deep(de_enum(reg, mem, variants, addr, ident, payload, fuel)),
    ensures
        de_enum(reg, mem, variants, addr, ident, payload, more) == de_enum(
            reg,
            mem,
            variants,
            addr,
            ident,
            payload,
            fuel,
        ),
    decreases fuel, 3nat, 1nat,
{
    match arm_named(variants@, ident) {
        Some(ix) => {
            if !(addr + 2 > mem.len()) {
                lemma_de_data_deeper(
                    reg,
                    write_bytes(mem, addr, tag_bytes(variants@[ix].discriminant)),
                    variants@[ix].variant,
                    addr,
                    payload,
                    fuel,
                    more,
                );
            }
        },
        None => {},
    }
}

/// The same of the fields of a struct or of a variant.
proof fn lemma_de_data_deeper(
    reg: Registry,
    mem: Seq<u8>,
    data: VariantData,
    base: int,
    wire: WireView,
    fuel: nat,
    more: nat,
)
    requires
        fuel <= more,
        !stopped_too_deep(de_data(reg, mem, data, base, wire, fuel)),
    ensures
        de_data(reg, mem, data, base, wire, more) == de_data(reg, mem, data, base, wire, fuel),
    decreases fuel, 3nat, 0nat,
{
    match data {
        VariantData::Unit => {},
        VariantData::Tuple(fields) => {
            match wire {
                WireView::Sequence(items) => {
                    lemma_de_seq_deeper(reg, mem, tuple_slots(fields@, base), items, fuel, more);
                },
                _ => {},
            }
        },
        VariantData::Fields { fields, .. } => {
            match wire {
                WireView::Mapping(entries) => {
                    lemma_de_entries_deeper(
                        reg,
                        mem,
                        field_names(fields@),
                        named_slots(fields@, base),
                        entries,
                        entries.len(),
                        fuel,
                        more,
                    );
                },
                WireView::Sequence(items) => {
                    lemma_de_seq_deeper(reg, mem, named_slots(fields@, base), items, fuel, more);
                },
                _ => {},
            }
        },
    }
}

/// The same of a sequence.
proof fn lemma_de_seq_deeper(
    reg: Registry,
    mem: Seq<u8>,
    slots: Seq<Slot>,
    items: Seq<WireView>,
    fuel: nat,
    more: nat,
)
    requires
        fuel <= more,
        !stopped_too_deep(de_seq(reg, mem, slots, items, fuel)),
    ensures
        de_seq(reg, mem, slots, items, more) == de_seq(reg, mem, slots, items, fuel),
    decreases fuel, 2nat, 0nat,
{
    if items.len() == slots.len() {
        lemma_de_slots_deeper(reg, mem, slots, items, slots.len(), fuel, more);
    }
}

/// The same of the first `n` of the slots.
proof fn lemma_de_slots_deeper(
    reg: Registry,
    mem: Seq<u8>,
    slots: Seq<Slot>,
    items: Seq<WireView>,
    n: nat,
    fuel: nat,
    more: nat,
)
    requires
        fuel <= more,
        !stopped_too_deep(de_slots(reg, mem, slots, items, n, fuel)),
    ensures
        de_slots(reg, mem, slots, items, n, more) == de_slots(reg, mem, slots, items, n, fuel),
    decreases fuel, 1nat, n,
{
    if n > 0 {
        lemma_de_slots_deeper(reg, mem, slots, items, (n - 1) as nat, fuel, more);
        let before = de_slots(reg, mem, slots, items, (n - 1) as nat, fuel);
        if before.error is None {
            lemma_de_at_deeper(reg, before.mem, slots[n - 1], items[n - 1], fuel, more);
        }
    }
}

/// The same of the first `n` entries of a map.
proof fn lemma_de_entries_deeper(
    reg: Registry,
    mem: Seq<u8>,
    names: Seq<String>,
    slots: Seq<Slot>,
    entries: Seq<(IdentView, WireView)>,
    n: nat,
    fuel: nat,
    more: nat,
)
    requires
        fuel <= more,
        !stopped_too_deep(de_entries(reg, mem, names, slots, entries, n, fuel)),
    ensures
        de_entries(reg, mem, names, slots, entries, n, more) == de_entries(reg, mem, names, slots, entries, n, fuel),
    decreases fuel, 1nat, n,
{
    if n > 0 {
        lemma_de_entries_deeper(reg, mem, names, slots, entries, (n - 1) as nat, fuel, more);
        let before = de_entries(reg, mem, names, slots, entries, (n - 1) as nat, fuel);
        if before.error is None {
            match resolve(names, slots.len(), entries[n - 1].0) {
                Some(ix) => {
                    lemma_de_at_deeper(reg, before.mem, slots[ix], entries[n - 1].1, fuel, more);
                },
                None => {},
            }
        }
    }
}

/// The same of the value at a slot.
proof fn lemma_de_at_deeper(reg: Registry, mem: Seq<u8>, slot: Slot, wire: WireView, fuel: nat, more: nat)
    requires
        fuel <= more,
        !stopped_too_deep(de_at(reg, mem, slot, wire, fuel)),
    ensures
        de_at(reg, mem, slot, wire, more) == de_at(reg, mem, slot, wire, fuel),
    decreases fuel, 0nat, 0nat,
{
    if !(slot.addr < 0 || slot.addr > mem.len()) && reg.types.contains_key(slot.type_id) {
        lemma_de_does_not_turn_on_depth(
            reg,
            mem,
            reg.types[slot.type_id],
            slot.addr,
            wire,
            (fuel - 1) as nat,
            (more - 1) as nat,
        );
    }
}

} // verus!
