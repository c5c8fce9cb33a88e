//! The engines go by what the descriptors say: descriptors that are the same
//! as mathematical values serialize and fill alike.

use vstd::prelude::*;
use crate::de::{all_arrive, arrives, de, de_at, de_data, de_entries, de_enum, de_map, de_seq, de_slots};
use crate::ident::{
    arm_named, bytes_hits, field_names, index_hits, label_bytes_hits, label_hits,
    lemma_arm_named_in_range, name_hits, resolve,
};
use crate::location::{array_slots, named_slots, read_tag, read_word, tag_bytes, tuple_slots, write_bytes, Slot};
use crate::metadata::{
    arm_hits, arm_position, arm_views, field_views, label_views, lemma_first_true,
    tuple_field_views, DataShape, EnumArm, EnumArms, Field, ReflectedType, TupleField, TypeKey,
    VariantData,
};
use crate::registry::{described, Registry};
use crate::ser::{lemma_ser_slots_len, ser, ser_array, ser_at, ser_data, ser_slots, with_names};
use crate::wire::{IdentView, WireView};

verus! {

/// Whether two registries say the same: they know the same types, say the
/// same of each, and hold the same leaves.
pub open spec fn say_the_same(one: Registry, other: Registry) -> bool {
    &&& described(one) == described(other)
    &&& one.leaves == other.leaves
}

/// Registries that say the same know the same types and say the same of
/// each.
proof fn lemma_described_at(one: Registry, other: Registry, id: TypeKey)
    requires
        say_the_same(one, other),
    ensures
        one.types.contains_key(id) == other.types.contains_key(id),
        one.types.contains_key(id) ==> one.types[id]@ == other.types[id]@,
{
    assert(described(one).contains_key(id) == one.types.contains_key(id));
    assert(described(other).contains_key(id) == other.types.contains_key(id));
    if one.types.contains_key(id) {
        assert(described(one)[id] == one.types[id]@);
        assert(described(other)[id] == other.types[id]@);
    }
}

/// Unnamed fields that say the same lie at the same places.
proof fn lemma_tuple_slots_alike(one: Seq<TupleField>, other: Seq<TupleField>, base: int)
    requires
        tuple_field_views(one) == tuple_field_views(other),
    ensures
        one.len() == other.len(),
        tuple_slots(one, base) == tuple_slots(other, base),
{
    assert(tuple_field_views(one).len() == one.len());
    assert(tuple_field_views(other).len() == other.len());
    assert forall|i: int| 0 <= i < one.len() implies (#[trigger] one[i])@ == other[i]@ by {
        assert(tuple_field_views(one)[i] == one[i]@);
        assert(tuple_field_views(other)[i] == other[i]@);
    }
    assert(tuple_slots(one, base) =~= tuple_slots(other, base));
}

/// Named fields that say the same lie at the same places and have the same
/// names.
proof fn lemma_named_slots_alike(one: Seq<Field>, other: Seq<Field>, base: int)
    requires
        field_views(one) == field_views(other),
    ensures
        one.len() == other.len(),
        named_slots(one, base) == named_slots(other, base),
        label_views(field_names(one)) == label_views(field_names(other)),
        forall|i: int| 0 <= i < one.len() ==> (#[trigger] one[i]).name@ == other[i].name@,
{
    assert(field_views(one).len() == one.len());
    assert(field_views(other).len() == other.len());
    assert forall|i: int| 0 <= i < one.len() implies (#[trigger] one[i])@ == other[i]@ by {
        assert(field_views(one)[i] == one[i]@);
        assert(field_views(other)[i] == other[i]@);
    }
    assert(named_slots(one, base) =~= named_slots(other, base));
    assert(label_views(field_names(one)) =~= label_views(field_names(other)));
}

/// Names of the same texts stand for the same places.
proof fn lemma_resolve_alike(one: Seq<String>, other: Seq<String>, count: nat, ident: IdentView)
    requires
        label_views(one) == label_views(other),
    ensures
        resolve(one, count, ident) == resolve(other, count, ident),
{
    assert(label_views(one).len() == one.len());
    assert(label_views(other).len() == other.len());
    assert forall|i: int| 0 <= i < one.len() implies (#[trigger] one[i])@ == other[i]@ by {
        assert(label_views(one)[i] == one[i]@);
        assert(label_views(other)[i] == other[i]@);
    }
    match ident {
        IdentView::Index(_) => {},
        IdentView::Name(name) => {
            assert(name_hits(one, name) =~= name_hits(other, name));
        },
        IdentView::Bytes(bytes) => {
            assert(bytes_hits(one, bytes) =~= bytes_hits(other, bytes));
        },
    }
}

/// Arms that say the same are as many and say the same one by one.
proof fn lemma_arms_alike(one: Seq<EnumArm>, other: Seq<EnumArm>)
    requires
        arm_views(one) == arm_views(other),
    ensures
        one.len() == other.len(),
        forall|i: int| 0 <= i < one.len() ==> (#[trigger] one[i])@ == other[i]@,
{
    assert(arm_views(one).len() == one.len());
    assert(arm_views(other).len() == other.len());
    assert forall|i: int| 0 <= i < one.len() implies (#[trigger] one[i])@ == other[i]@ by {
        assert(arm_views(one)[i] == one[i]@);
        assert(arm_views(other)[i] == other[i]@);
    }
}

/// Arms that say the same answer to the same tags.
proof fn lemma_arm_position_alike(one: Seq<EnumArm>, other: Seq<EnumArm>, tag: u16)
    requires
        arm_views(one) == arm_views(other),
    ensures
        arm_position(one, tag) == arm_position(other, tag),
{
    lemma_arms_alike(one, other);
    assert forall|i: int| 0 <= i < one.len() implies one[i].discriminant == other[i].discriminant by {
        assert(one[i]@ == other[i]@);
    }
    assert(arm_hits(one, tag) =~= arm_hits(other, tag));
}

/// Arms that say the same answer to the same identifiers.
proof fn lemma_arm_named_alike(one: Seq<EnumArm>, other: Seq<EnumArm>, ident: IdentView)
    requires
        arm_views(one) == arm_views(other),
    ensures
        arm_named(one, ident) == arm_named(other, ident),
{
    lemma_arms_alike(one, other);
    assert forall|i: int| 0 <= i < one.len() implies one[i].variant_index == other[i].variant_index && one[i].label@
        == other[i].label@ by {
        assert(one[i]@ == other[i]@);
    }
    match ident {
        IdentView::Index(v) => {
            assert(index_hits(one, v) =~= index_hits(other, v));
        },
        IdentView::Name(name) => {
            assert(label_hits(one, name) =~= label_hits(other, name));
        },
        IdentView::Bytes(bytes) => {
            assert(label_bytes_hits(one, bytes) =~= label_bytes_hits(other, bytes));
        },
    }
}

/// Serialization goes by what the descriptors say: under registries that say
/// the same, two descriptors that say the same emit the same for the same
/// memory.
pub proof fn lemma_ser_goes_by_what_is_said(
    one: Registry,
    other: Registry,
    mem: Seq<u8>,
    typ: ReflectedType,
    like: ReflectedType,
    addr: int,
    fuel: nat,
)
    requires
        say_the_same(one, other),
        typ@ == like@,
    ensures
        ser(one, mem, typ, addr, fuel) == ser(other, mem, like, addr, fuel),
    decreases fuel, 3nat, 0nat,
{
    assert(typ.shape@ == like.shape@);
    if !(addr < 0 || addr > mem.len()) && !one.leaves.contains(typ.id) {
        match typ.shape {
            DataShape::FixedArray(elem, len) => {
                lemma_ser_array_alike(one, other, mem, elem, len as nat, addr, fuel);
            },
            DataShape::Slice(elem) => {
                match (read_word(mem, addr), read_word(mem, addr + 8)) {
                    (Some(first), Some(len)) => {
                        lemma_ser_array_alike(one, other, mem, elem, len as nat, first as int, fuel);
                    },
                    _ => {},
                }
            },
            DataShape::Ref(inner) => {
                match read_word(mem, addr) {
                    Some(target) => {
                        lemma_ser_at_alike(one, other, mem, Slot { type_id: inner, addr: target as int }, fuel);
                    },
                    None => {},
                }
            },
            DataShape::Tuple(fields) => {
                lemma_tuple_slots_alike(fields@, like.shape->Tuple_0@, addr);
                lemma_ser_slots_alike(one, other, mem, tuple_slots(fields@, addr), fields@.len(), fuel);
            },
            DataShape::Newtype(inner) => {
                lemma_ser_at_alike(one, other, mem, Slot { type_id: inner, addr }, fuel);
            },
            DataShape::Struct(data) => {
                lemma_ser_data_alike(one, other, mem, data, like.shape->Struct_0, addr, fuel);
            },
            DataShape::Enum { variants, .. } => {
                let arms = like.shape->variants;
                lemma_arms_alike(variants@, arms@);
                match read_tag(mem, addr) {
                    Some(tag) => {
                        lemma_arm_position_alike(variants@, arms@, tag);
                        match arm_position(variants@, tag) {
                            Some(i) => {
                                lemma_first_true(arm_hits(variants@, tag));
                                assert(variants@[i]@ == arms@[i]@);
                                lemma_ser_data_alike(one, other, mem, variants@[i].variant, arms@[i].variant, addr, fuel);
                            },
                            None => {},
                        }
                    },
                    None => {},
                }
            },
            _ => {},
        }
    }
}

/// The same of a run of elements.
proof fn lemma_ser_array_alike(
    one: Registry,
    other: Registry,
    mem: Seq<u8>,
    elem: TypeKey,
    len: nat,
    base: int,
    fuel: nat,
)
    requires
        say_the_same(one, other),
    ensures
        ser_array(one, mem, elem, len, base, fuel) == ser_array(other, mem, elem, len, base, fuel),
    decreases fuel, 2nat, 0nat,
{
    lemma_described_at(one, other, elem);
    if one.types.contains_key(elem) {
        lemma_ser_slots_alike(
            one,
            other,
            mem,
            array_slots(elem, len, one.types[elem].layout.stride(), base),
            len,
            fuel,
        );
    }
}

/// The same of the fields of a struct or of a variant.
proof fn lemma_ser_data_alike(
    one: Registry,
    other: Registry,
    mem: Seq<u8>,
    data: VariantData,
    like: VariantData,
    base: int,
    fuel: nat,
)
    requires
        say_the_same(one, other),
        data@ == like@,
    ensures
        ser_data(one, mem, data, base, fuel) == ser_data(other, mem, like, base, fuel),
    decreases fuel, 2nat, 0nat,
{
    match data {
        VariantData::Unit => {},
        VariantData::Tuple(fields) => {
            lemma_tuple_slots_alike(fields@, like->Tuple_0@, base);
            lemma_ser_slots_alike(one, other, mem, tuple_slots(fields@, base), fields@.len(), fuel);
        },
        VariantData::Fields { fields, .. } => {
            let others = like->fields;
            lemma_named_slots_alike(fields@, others@, base);
            lemma_ser_slots_alike(one, other, mem, named_slots(fields@, base), fields@.len(), fuel);
            lemma_ser_slots_len(one, mem, named_slots(fields@, base), fields@.len(), fuel);
            match ser_slots(one, mem, named_slots(fields@, base), fields@.len(), fuel) {
                Ok(items) => {
                    assert(with_names(fields@, items) =~= with_names(others@, items));
                },
                Err(_) => {},
            }
        },
    }
}

/// The same of the first `n` of the slots.
proof fn lemma_ser_slots_alike(one: Registry, other: Registry, mem: Seq<u8>, slots: Seq<Slot>, n: nat, fuel: nat)
    requires
        say_the_same(one, other),
    ensures
        ser_slots(one, mem, slots, n, fuel) == ser_slots(other, mem, slots, n, fuel),
    decreases fuel, 1nat, n,
{
    if n > 0 {
        lemma_ser_slots_alike(one, other, mem, slots, (n - 1) as nat, fuel);
        lemma_ser_at_alike(one, other, mem, slots[n - 1], fuel);
    }
}

/// The same of the value at a slot.
proof fn lemma_ser_at_alike(one: Registry, other: Registry, mem: Seq<u8>, slot: Slot, fuel: nat)
    requires
        say_the_same(one, other),
    ensures
        ser_at(one, mem, slot, fuel) == ser_at(other, mem, slot, fuel),
    decreases fuel, 0nat, 0nat,
{
    lemma_described_at(one, other, slot.type_id);
    if !(slot.addr < 0 || slot.addr > mem.len()) && one.types.contains_key(slot.type_id) && fuel > 0 {
        lemma_ser_goes_by_what_is_said(
            one,
            other,
            mem,
            one.types[slot.type_id],
            other.types[slot.type_id],
            slot.addr,
            (fuel - 1) as nat,
        );
    }
}

/// Deserialization goes by what the descriptors say: under registries that
/// say the same, two descriptors that say the same are filled alike from the
/// same input.
pub proof fn lemma_de_goes_by_what_is_said(
    one: Registry,
    other: Registry,
    mem: Seq<u8>,
    typ: ReflectedType,
    like: ReflectedType,
    addr: int,
    wire: WireView,
    fuel: nat,
)
    requires
        say_the_same(one, other),
        typ@ == like@,
    ensures
        de(one, mem, typ, addr, wire, fuel) == de(other, mem, like, addr, wire, fuel),
    decreases fuel, 4nat, 0nat,
{
    assert(typ.shape@ == like.shape@);
    if !(addr < 0 || addr > mem.len()) && !one.leaves.contains(typ.id) {
        match typ.shape {
            DataShape::FixedArray(elem, len) => {
                lemma_described_at(one, other, elem);
                match wire {
                    WireView::Sequence(items) => {
                        if one.types.contains_key(elem) {
                            lemma_de_seq_alike(
                                one,
                                other,
                                mem,
                                array_slots(elem, len as nat, one.types[elem].layout.stride(), addr),
                                items,
                                fuel,
                            );
                        }
                    },
                    _ => {},
                }
            },
            DataShape::Tuple(fields) => {
                lemma_tuple_slots_alike(fields@, like.shape->Tuple_0@, addr);
                match wire {
                    WireView::Sequence(items) => {
                        lemma_de_seq_alike(one, other, mem, tuple_slots(fields@, addr), items, fuel);
                    },
                    _ => {},
                }
            },
            DataShape::Newtype(inner) => {
                match wire {
                    WireView::Newtype(w) => {
                        lemma_de_at_alike(one, other, mem, Slot { type_id: inner, addr }, *w, fuel);
                    },
                    _ => {},
                }
            },
            DataShape::Struct(data) => {
                lemma_de_data_alike(one, other, mem, data, like.shape->Struct_0, addr, wire, fuel);
            },
            DataShape::Enum { variants, .. } => {
                match wire {
                    WireView::Variant { ident, payload } => {
                        lemma_de_enum_alike(one, other, mem, variants, like.shape->variants, addr, ident, *payload, fuel);
                    },
                    _ => {},
                }
            },
            _ => {},
        }
    }
}

/// The same of an enum.
proof fn lemma_de_enum_alike(
    one: Registry,
    other: Registry,
    mem: Seq<u8>,
    variants: EnumArms,
    like: EnumArms,
    addr: int,
    ident: IdentView,
    payload: WireView,
    fuel: nat,
)
    requires
        say_the_same(one, other),
        arm_views(variants@) == arm_views(like@),
    ensures
        de_enum(one, mem, variants, addr, ident, payload, fuel) == de_enum(
            other,
            mem,
            like,
            addr,
            ident,
            payload,
            fuel,
        ),
    decreases fuel, 3nat, 1nat,
{
    lemma_arms_alike(variants@, like@);
    lemma_arm_named_alike(variants@, like@, ident);
    match arm_named(variants@, ident) {
        Some(ix) => {
            lemma_arm_named_in_range(variants@, ident);
            assert(variants@[ix]@ == like@[ix]@);
            if !(addr + 2 > mem.len()) {
                lemma_de_data_alike(
                    one,
                    other,
                    write_bytes(mem, addr, tag_bytes(variants@[ix].discriminant)),
                    variants@[ix].variant,
                    like@[ix].variant,
                    addr,
                    payload,
                    fuel,
                );
            }
        },
        None => {},
    }
}

/// The same of the fields of a struct or of a variant.
proof fn lemma_de_data_alike(
    one: Registry,
    other: Registry,
    mem: Seq<u8>,
    data: VariantData,
    like: VariantData,
    base: int,
    wire: WireView,
    fuel: nat,
)
    requires
        say_the_same(one, other),
        data@ == like@,
    ensures
        de_data(one, mem, data, base, wire, fuel) == de_data(other, mem, like, base, wire, fuel),
    decreases fuel, 3nat, 0nat,
{
    match data {
        VariantData::Unit => {},
        VariantData::Tuple(fields) => {
            lemma_tuple_slots_alike(fields@, like->Tuple_0@, base);
            match wire {
                WireView::Sequence(items) => {
                    lemma_de_seq_alike(one, other, mem, tuple_slots(fields@, base), items, fuel);
                },
                _ => {},
            }
        },
        VariantData::Fields { fields, .. } => {
            let others = like->fields;
            lemma_named_slots_alike(fields@, others@, base);
            match wire {
                WireView::Mapping(entries) => {
                    lemma_de_map_alike(
                        one,
                        other,
                        mem,
                        field_names(fields@),
                        field_names(others@),
                        named_slots(fields@, base),
                        entries,
                        fuel,
                    );
                },
                WireView::Sequence(items) => {
                    lemma_de_seq_alike(one, other, mem, named_slots(fields@, base), items, fuel);
                },
                _ => {},
            }
        },
    }
}

/// The same of a sequence.
proof fn lemma_de_seq_alike(
    one: Registry,
    other: Registry,
    mem: Seq<u8>,
    slots: Seq<Slot>,
    items: Seq<WireView>,
    fuel: nat,
)
    requires
        say_the_same(one, other),
    ensures
        de_seq(one, mem, slots, items, fuel) == de_seq(other, mem, slots, items, fuel),
    decreases fuel, 2nat, 0nat,
{
    if items.len() == slots.len() {
        lemma_de_slots_alike(one, other, mem, slots, items, slots.len(), fuel);
    }
}

/// The same of a map.
proof fn lemma_de_map_alike(
    one: Registry,
    other: Registry,
    mem: Seq<u8>,
    names: Seq<String>,
    like: Seq<String>,
    slots: Seq<Slot>,
    entries: Seq<(IdentView, WireView)>,
    fuel: nat,
)
    requires
        say_the_same(one, other),
        label_views(names) == label_views(like),
    ensures
        de_map(one, mem, names, slots, entries, fuel) == de_map(other, mem, like, slots, entries, fuel),
    decreases fuel, 2nat, 0nat,
{
    lemma_de_entries_alike(one, other, mem, names, like, slots, entries, entries.len(), fuel);
    assert forall|k: int| 0 <= k < entries.len() implies resolve(names, slots.len(), (#[trigger] entries[k]).0)
        == resolve(like, slots.len(), entries[k].0) by {
        lemma_resolve_alike(names, like, slots.len(), entries[k].0);
    }
    assert forall|i: int| 0 <= i < slots.len() implies (arrives(names, slots.len(), entries, entries.len(), i)
        <==> arrives(like, slots.len(), entries, entries.len(), i)) by {
        if arrives(names, slots.len(), entries, entries.len(), i) {
            let k = choose|k: int|
                0 <= k < entries.len() && resolve(names, slots.len(), (#[trigger] entries[k]).0) == Some(i);
            assert(resolve(like, slots.len(), entries[k].0) == Some(i));
        }
        if arrives(like, slots.len(), entries, entries.len(), i) {
            let k = choose|k: int|
                0 <= k < entries.len() && resolve(like, slots.len(), (#[trigger] entries[k]).0) == Some(i);
            assert(resolve(names, slots.len(), entries[k].0) == Some(i));
        }
    }
    assert(all_arrive(names, slots.len(), entries) == all_arrive(like, slots.len(), entries));
}

/// The same of the first `n` of the slots.
proof fn lemma_de_slots_alike(
    one: Registry,
    other: Registry,
    mem: Seq<u8>,
    slots: Seq<Slot>,
    items: Seq<WireView>,
    n: nat,
    fuel: nat,
)
    requires
        say_the_same(one, other),
    ensures
        de_slots(one, mem, slots, items, n, fuel) == de_slots(other, mem, slots, items, n, fuel),
    decreases fuel, 1nat, n,
{
    if n > 0 {
        lemma_de_slots_alike(one, other, mem, slots, items, (n - 1) as nat, fuel);
        let before = de_slots(one, mem, slots, items, (n - 1) as nat, fuel);
        lemma_de_at_alike(one, other, before.mem, slots[n - 1], items[n - 1], fuel);
    }
}

/// The same of the first `n` entries of a map.
proof fn lemma_de_entries_alike(
    one: Registry,
    other: Registry,
    mem: Seq<u8>,
    names: Seq<String>,
    like: Seq<String>,
    slots: Seq<Slot>,
    entries: Seq<(IdentView, WireView)>,
    n: nat,
    fuel: nat,
)
    requires
        say_the_same(one, other),
        label_views(names) == label_views(like),
    ensures
        de_entries(one, mem, names, slots, entries, n, fuel) == de_entries(other, mem, like, slots, entries, n, fuel),
    decreases fuel, 1nat, n,
{
    if n > 0 {
        lemma_de_entries_alike(one, other, mem, names, like, slots, entries, (n - 1) as nat, fuel);
        let before = de_entries(one, mem, names, slots, entries, (n - 1) as nat, fuel);
        lemma_resolve_alike(names, like, slots.len(), entries[n - 1].0);
        match resolve(names, slots.len(), entries[n - 1].0) {
            Some(ix) => {
                lemma_de_at_alike(one, other, before.mem, slots[ix], entries[n - 1].1, fuel);
            },
            None => {},
        }
    }
}

/// The same of the value at a slot.
proof fn lemma_de_at_alike(one: Registry, other: Registry, mem: Seq<u8>, slot: Slot, wire: WireView, fuel: nat)
    requires
        say_the_same(one, other),
    ensures
        de_at(one, mem, slot, wire, fuel) == de_at(other, mem, slot, wire, fuel),
    decreases fuel, 0nat, 0nat,
{
    lemma_described_at(one, other, slot.type_id);
    if !(slot.addr < 0 || slot.addr > mem.len()) && one.types.contains_key(slot.type_id) && fuel > 0 {
        lemma_de_goes_by_what_is_said(
            one,
            other,
            mem,
            one.types[slot.type_id],
            other.types[slot.type_id],
            slot.addr,
            wire,
            (fuel - 1) as nat,
        );
    }
}

} // verus!
