//! What holds of identifiers: names, positions and bytes stand for the same
//! fields, unknown identifiers and fields left out are rejected.

use vstd::prelude::*;
use vstd::utf8::{encode_utf8, encode_utf8_decode_utf8};
use crate::de::{all_arrive, arrives, de, de_data, de_entries, de_map, de_slots, failed};
use crate::ident::{arm_named, bytes_hits, field_names, name_hits, resolve};
use crate::location::{named_slots, Slot};
use crate::metadata::{
    lemma_first_true, lemma_first_true_is, DataShape, ReflectedType, VariantData,
};
use crate::registry::Registry;
use crate::wire::{Error, IdentView, WireView};


verus! {

/// No two names are the same text.
pub open spec fn distinct(names: Seq<String>) -> bool {
    forall|i: int, j: int| 0 <= i < j < names.len() ==> (#[trigger] names[i])@ != (#[trigger] names[j])@
}

/// The map entries that hold `values` under the names, in order.
pub open spec fn by_name(names: Seq<String>, values: Seq<WireView>) -> Seq<(IdentView, WireView)> {
    Seq::new(values.len(), |i: int| (IdentView::Name(names[i]@), values[i]))
}

/// The map entries that name `values` by their positions, in order.
pub open spec fn by_index(values: Seq<WireView>) -> Seq<(IdentView, WireView)> {
    Seq::new(values.len(), |i: int| (IdentView::Index(i as u64), values[i]))
}

/// Among distinct names, a name resolves to the place where it stands.
pub proof fn lemma_name_resolves_to_its_place(names: Seq<String>, count: nat, i: int)
    requires
        distinct(names),
        0 <= i < names.len(),
        i < count,
    ensures
        resolve(names, count, IdentView::Name(names[i]@)) == Some(i),
{
    let hits = name_hits(names, names[i]@);
    assert forall|j: int| 0 <= j < i implies !hits[j] by {
        assert(names[j]@ != names[i]@);
    }
    lemma_first_true_is(hits, i);
}

/// A name that no field has stands for nothing.
pub proof fn lemma_absent_name_does_not_resolve(names: Seq<String>, count: nat, name: Seq<char>)
    requires
        forall|i: int| 0 <= i < names.len() ==> (#[trigger] names[i])@ != name,
    ensures
        resolve(names, count, IdentView::Name(name)) is None,
{
    lemma_first_true(name_hits(names, name));
}

/// A position at or behind the number of fields or variants stands for
/// nothing.
pub proof fn lemma_absent_index_does_not_resolve(names: Seq<String>, count: nat, v: u64)
    requires
        v >= count,
    ensures
        resolve(names, count, IdentView::Index(v)) is None,
{
}

/// Fields that arrive in declaration order under their names are filled as
/// fields that arrive as a sequence are.
pub proof fn lemma_named_entries_go_in_order(
    reg: Registry,
    mem: Seq<u8>,
    names: Seq<String>,
    slots: Seq<Slot>,
    values: Seq<WireView>,
    n: nat,
    fuel: nat,
)
    requires
        distinct(names),
        names.len() == slots.len(),
        n <= values.len(),
        n <= slots.len(),
    ensures
        de_entries(reg, mem, names, slots, by_name(names, values), n, fuel) == de_slots(
            reg,
            mem,
            slots,
            values,
            n,
            fuel,
        ),
    decreases n,
{
    if n > 0 {
        lemma_named_entries_go_in_order(reg, mem, names, slots, values, (n - 1) as nat, fuel);
        lemma_name_resolves_to_its_place(names, slots.len(), n - 1);
    }
}

/// Fields that arrive in declaration order under their positions are filled
/// as fields that arrive as a sequence are.
pub proof fn lemma_indexed_entries_go_in_order(
    reg: Registry,
    mem: Seq<u8>,
    names: Seq<String>,
    slots: Seq<Slot>,
    values: Seq<WireView>,
    n: nat,
    fuel: nat,
)
    requires
        n <= values.len(),
        n <= slots.len(),
        slots.len() <= u64::MAX,
    ensures
        de_entries(reg, mem, names, slots, by_index(values), n, fuel) == de_slots(
            reg,
            mem,
            slots,
            values,
            n,
            fuel,
        ),
    decreases n,
{
    if n > 0 {
        lemma_indexed_entries_go_in_order(reg, mem, names, slots, values, (n - 1) as nat, fuel);
    }
}

/// Among distinct names, a field's name, the bytes that spell it and the
/// field's position all stand for the same field.
pub proof fn lemma_name_bytes_and_index_agree(names: Seq<String>, count: nat, i: int)
    requires
        distinct(names),
        0 <= i < names.len(),
        i < count,
        i <= u64::MAX,
    ensures
        resolve(names, count, IdentView::Name(names[i]@)) == Some(i),
        resolve(names, count, IdentView::Bytes(encode_utf8(names[i]@))) == Some(i),
        resolve(names, count, IdentView::Index(i as u64)) == Some(i),
{
    lemma_name_resolves_to_its_place(names, count, i);
    let hits = bytes_hits(names, encode_utf8(names[i]@));
    assert forall|j: int| 0 <= j < i implies !hits[j] by {
        encode_utf8_decode_utf8(names[j]@);
        encode_utf8_decode_utf8(names[i]@);
        assert(names[j]@ != names[i]@);
    }
    lemma_first_true_is(hits, i);
}

/// The form of a key does not matter: two maps whose entries, one by one,
/// stand for the same fields and hold the same values fill alike, in
/// whatever order the two present their entries.
pub proof fn lemma_keys_of_any_form_fill_alike(
    reg: Registry,
    mem: Seq<u8>,
    names: Seq<String>,
    slots: Seq<Slot>,
    one: Seq<(IdentView, WireView)>,
    other: Seq<(IdentView, WireView)>,
    fuel: nat,
)
    requires
        one.len() == other.len(),
        forall|k: int|
            0 <= k < one.len() ==> (#[trigger] one[k]).1 == other[k].1 && resolve(names, slots.len(), one[k].0)
                == resolve(names, slots.len(), other[k].0),
    ensures
        de_map(reg, mem, names, slots, one, fuel) == de_map(reg, mem, names, slots, other, fuel),
{
    lemma_entries_of_any_form_fill_alike(reg, mem, names, slots, one, other, one.len(), fuel);
    assert forall|i: int| 0 <= i < slots.len() implies (arrives(names, slots.len(), one, one.len(), i) <==> arrives(
        names,
        slots.len(),
        other,
        other.len(),
        i,
    )) by {
        if arrives(names, slots.len(), one, one.len(), i) {
            let k = choose|k: int| 0 <= k < one.len() && resolve(names, slots.len(), (#[trigger] one[k]).0) == Some(i);
            assert(resolve(names, slots.len(), other[k].0) == Some(i));
        }
        if arrives(names, slots.len(), other, other.len(), i) {
            let k = choose|k: int|
                0 <= k < other.len() && resolve(names, slots.len(), (#[trigger] other[k]).0) == Some(i);
            assert(one[k].1 == other[k].1);
            assert(resolve(names, slots.len(), one[k].0) == Some(i));
        }
    }
}

/// Entries that stand for the same fields and hold the same values go in
/// alike.
proof fn lemma_entries_of_any_form_fill_alike(
    reg: Registry,
    mem: Seq<u8>,
    names: Seq<String>,
    slots: Seq<Slot>,
    one: Seq<(IdentView, WireView)>,
    other: Seq<(IdentView, WireView)>,
    n: nat,
    fuel: nat,
)
    requires
        n <= one.len(),
        one.len() == other.len(),
        forall|k: int|
            0 <= k < one.len() ==> (#[trigger] one[k]).1 == other[k].1 && resolve(names, slots.len(), one[k].0)
                == resolve(names, slots.len(), other[k].0),
    ensures
        de_entries(reg, mem, names, slots, one, n, fuel) == de_entries(reg, mem, names, slots, other, n, fuel),
    decreases n,
{
    if n > 0 {
        lemma_entries_of_any_form_fill_alike(reg, mem, names, slots, one, other, (n - 1) as nat, fuel);
        assert(one[n - 1].1 == other[n - 1].1);
    }
}

/// A map that names each field once, in declaration order, leaves no field
/// out.
pub proof fn lemma_named_entries_all_arrive(names: Seq<String>, values: Seq<WireView>)
    requires
        distinct(names),
        values.len() == names.len(),
    ensures
        all_arrive(names, names.len(), by_name(names, values)),
{
    let entries = by_name(names, values);
    assert forall|i: int| 0 <= i < names.len() implies arrives(names, names.len(), entries, entries.len(), i) by {
        lemma_name_resolves_to_its_place(names, names.len(), i);
        assert(resolve(names, names.len(), entries[i].0) == Some(i));
    }
}

/// A map that numbers each field once, in declaration order, leaves no field
/// out.
pub proof fn lemma_indexed_entries_all_arrive(names: Seq<String>, count: nat, values: Seq<WireView>)
    requires
        values.len() == count,
        count <= u64::MAX,
    ensures
        all_arrive(names, count, by_index(values)),
{
    let entries = by_index(values);
    assert forall|i: int| 0 <= i < count implies arrives(names, count, entries, entries.len(), i) by {
        assert(resolve(names, count, entries[i].0) == Some(i));
    }
}

/// A field left out is rejected: a map that holds no entry for one of the
/// fields never fills the struct, and where all its entries went in, what it
/// fails with is `MissingField`.
pub proof fn lemma_missing_field_is_rejected(
    reg: Registry,
    mem: Seq<u8>,
    names: Seq<String>,
    slots: Seq<Slot>,
    entries: Seq<(IdentView, WireView)>,
    i: int,
    fuel: nat,
)
    requires
        0 <= i < slots.len(),
        !arrives(names, slots.len(), entries, entries.len(), i),
    ensures
        de_map(reg, mem, names, slots, entries, fuel).error is Some,
        de_entries(reg, mem, names, slots, entries, entries.len(), fuel).error is None ==> de_map(
            reg,
            mem,
            names,
            slots,
            entries,
            fuel,
        ).error == Some(Error::MissingField),
{
}

/// Name and position agree: a struct whose fields have distinct names is
/// filled alike from a map that names each field, from a map that numbers
/// each field, and from the sequence of the fields, where the three hold the
/// same values in declaration order.
pub proof fn lemma_fields_by_name_or_position(
    reg: Registry,
    mem: Seq<u8>,
    data: VariantData,
    base: int,
    values: Seq<WireView>,
    fuel: nat,
)
    requires
        data matches VariantData::Fields { fields, .. } && distinct(field_names(fields@)) && values.len()
            == fields@.len(),
    ensures
        de_data(reg, mem, data, base, WireView::Mapping(by_name(field_names(data->fields@), values)), fuel)
            == de_data(reg, mem, data, base, WireView::Sequence(values), fuel),
        de_data(reg, mem, data, base, WireView::Mapping(by_index(values)), fuel) == de_data(
            reg,
            mem,
            data,
            base,
            WireView::Sequence(values),
            fuel,
        ),
{
    let names = field_names(data->fields@);
    let slots = named_slots(data->fields@, base);
    lemma_named_entries_go_in_order(reg, mem, names, slots, values, values.len(), fuel);
    lemma_named_entries_all_arrive(names, values);
    assert(slots.len() == (data->fields).len());
    lemma_indexed_entries_go_in_order(reg, mem, names, slots, values, values.len(), fuel);
    lemma_indexed_entries_all_arrive(names, slots.len(), values);
}

/// An unknown variant is rejected: where the identifier stands for no arm,
/// filling an enum fails with `UnknownVariant` and writes nothing.
pub proof fn lemma_unknown_variant_is_rejected(
    reg: Registry,
    mem: Seq<u8>,
    typ: ReflectedType,
    addr: int,
    ident: IdentView,
    payload: WireView,
    fuel: nat,
)
    requires
        typ.shape matches DataShape::Enum { variants, .. } && arm_named(variants@, ident) is None,
        !reg.leaves.contains(typ.id),
        0 <= addr <= mem.len(),
    ensures
        de(reg, mem, typ, addr, WireView::Variant { ident, payload: Box::new(payload) }, fuel) == failed(
            mem,
            Error::UnknownVariant,
        ),
{
}

/// An unknown field is rejected: once an entry arrives whose key stands for
/// no field, filling from the map fails, and it fails with `UnknownField`
/// where every entry before that one went in.
pub proof fn lemma_unknown_field_is_rejected(
    reg: Registry,
    mem: Seq<u8>,
    names: Seq<String>,
    slots: Seq<Slot>,
    entries: Seq<(IdentView, WireView)>,
    k: nat,
    n: nat,
    fuel: nat,
)
    requires
        k < n,
        resolve(names, slots.len(), entries[k as int].0) is None,
    ensures
        de_entries(reg, mem, names, slots, entries, n, fuel).error is Some,
        de_entries(reg, mem, names, slots, entries, k, fuel).error is None ==> de_entries(
            reg,
            mem,
            names,
            slots,
            entries,
            n,
            fuel,
        ) == failed(de_entries(reg, mem, names, slots, entries, k, fuel).mem, Error::UnknownField),
    decreases n,
{
    if n > k + 1 {
        lemma_unknown_field_is_rejected(reg, mem, names, slots, entries, k, (n - 1) as nat, fuel);
    }
}

} // verus!
