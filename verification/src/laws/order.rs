//! The order in which a map presents its entries does not matter.

use vstd::prelude::*;
use crate::de::{
    all_arrive, arrives, de, de_at, de_data, de_entries, de_map, de_slots,
    lemma_de_entries_failure_stays, Outcome,
};
use crate::ident::{
    arm_named, field_names, lemma_arm_named_in_range, lemma_resolve_in_range, resolve,
};
use crate::location::{array_slots, named_slots, tag_bytes, tuple_slots, write_bytes, Slot};
use crate::metadata::{DataShape, Field, ReflectedType, TupleField, TypeKey, VariantData};
use crate::registry::Registry;
use crate::wire::{IdentView, WireView};
use crate::laws::identifiers::{
    by_index, by_name, distinct, lemma_fields_by_name_or_position, lemma_name_resolves_to_its_place,
};


verus! {

/// Whether the value at a slot, where its type is registered, lies within
/// the bytes from `lo` up to `hi`.
pub open spec fn slot_fits(reg: Registry, slot: Slot, lo: int, hi: int) -> bool {
    reg.types.contains_key(slot.type_id) ==> lo <= slot.addr && slot.addr + reg.types[slot.type_id].layout.size
        <= hi
}

/// Whether the values at all the slots lie within the bytes from `lo` up to
/// `hi`.
pub open spec fn slots_fit(reg: Registry, slots: Seq<Slot>, lo: int, hi: int) -> bool {
    forall|i: int| 0 <= i < slots.len() ==> slot_fits(reg, #[trigger] slots[i], lo, hi)
}

/// Whether the fields of a struct or of a variant lie within `size` bytes
/// from the base.
pub open spec fn data_fits(reg: Registry, data: VariantData, size: int) -> bool {
    match data {
        VariantData::Unit => true,
        VariantData::Tuple(fields) => slots_fit(reg, tuple_slots(fields@, 0), 0, size),
        VariantData::Fields { fields, .. } => slots_fit(reg, named_slots(fields@, 0), 0, size),
    }
}

/// Whether the layout of a type holds all that a value of the type is made
/// of: its tag, its fields, its elements, or the bytes of its scalar.
pub open spec fn parts_fit(reg: Registry, typ: ReflectedType) -> bool {
    let size = typ.layout.size as int;
    if reg.leaves.contains(typ.id) {
        true
    } else {
        match typ.shape {
            DataShape::Builtin(kind) => kind.width() <= size,
            DataShape::FixedArray(elem, len) => reg.types.contains_key(elem) ==> slots_fit(
                reg,
                array_slots(elem, len as nat, reg.types[elem].layout.stride(), 0),
                0,
                size,
            ),
            DataShape::Tuple(fields) => slots_fit(reg, tuple_slots(fields@, 0), 0, size),
            DataShape::Newtype(inner) => slot_fits(reg, Slot { type_id: inner, addr: 0 }, 0, size),
            DataShape::Struct(data) => data_fits(reg, data, size),
            DataShape::Enum { variants, .. } => 2 <= size && forall|i: int|
                0 <= i < variants@.len() ==> data_fits(reg, (#[trigger] variants@[i]).variant, size),
            _ => true,
        }
    }
}

/// Whether the layout of every registered type holds all that its values are
/// made of.
pub open spec fn registry_laid_out(reg: Registry) -> bool {
    forall|id: TypeKey| reg.types.contains_key(id) ==> parts_fit(reg, #[trigger] reg.types[id])
}

/// Whether two images of one length hold the same bytes everywhere but from
/// `lo` up to `hi`.
spec fn same_outside(a: Seq<u8>, b: Seq<u8>, lo: int, hi: int) -> bool {
    &&& a.len() == b.len()
    &&& forall|p: int| 0 <= p < a.len() && !(lo <= p < hi) ==> #[trigger] a[p] == b[p]
}

/// Whether two images of one length hold the same bytes from `lo` up to
/// `hi`.
spec fn same_inside(a: Seq<u8>, b: Seq<u8>, lo: int, hi: int) -> bool {
    &&& a.len() == b.len()
    &&& forall|p: int| 0 <= p < a.len() && lo <= p < hi ==> #[trigger] a[p] == b[p]
}

/// Slots that fit from the base fit wherever the value lies.
proof fn lemma_tuple_slots_fit(reg: Registry, fields: Seq<TupleField>, base: int, size: int)
    requires
        slots_fit(reg, tuple_slots(fields, 0), 0, size),
    ensures
        slots_fit(reg, tuple_slots(fields, base), base, base + size),
{
    assert forall|i: int| 0 <= i < fields.len() implies slot_fits(
        reg,
        #[trigger] tuple_slots(fields, base)[i],
        base,
        base + size,
    ) by {
        assert(slot_fits(reg, tuple_slots(fields, 0)[i], 0, size));
    }
}

/// Slots that fit from the base fit wherever the value lies.
proof fn lemma_named_slots_fit(reg: Registry, fields: Seq<Field>, base: int, size: int)
    requires
        slots_fit(reg, named_slots(fields, 0), 0, size),
    ensures
        slots_fit(reg, named_slots(fields, base), base, base + size),
{
    assert forall|i: int| 0 <= i < fields.len() implies slot_fits(
        reg,
        #[trigger] named_slots(fields, base)[i],
        base,
        base + size,
    ) by {
        assert(slot_fits(reg, named_slots(fields, 0)[i], 0, size));
    }
}

/// Slots that fit from the base fit wherever the value lies.
proof fn lemma_array_slots_fit(reg: Registry, elem: TypeKey, len: nat, stride: int, base: int, size: int)
    requires
        slots_fit(reg, array_slots(elem, len, stride, 0), 0, size),
    ensures
        slots_fit(reg, array_slots(elem, len, stride, base), base, base + size),
{
    assert forall|i: int| 0 <= i < len implies slot_fits(
        reg,
        #[trigger] array_slots(elem, len, stride, base)[i],
        base,
        base + size,
    ) by {
        assert(slot_fits(reg, array_slots(elem, len, stride, 0)[i], 0, size));
    }
}

/// Filling a value touches no byte outside the layout of the value.
proof fn lemma_de_stays_inside(
    reg: Registry,
    mem: Seq<u8>,
    typ: ReflectedType,
    addr: int,
    wire: WireView,
    fuel: nat,
)
    requires
        registry_laid_out(reg),
        parts_fit(reg, typ),
    ensures
        same_outside(de(reg, mem, typ, addr, wire, fuel).mem, mem, addr, addr + typ.layout.size),
    decreases fuel, 4nat, 0nat,
{
    let size = typ.layout.size as int;
    if !(addr < 0 || addr > mem.len()) && !reg.leaves.contains(typ.id) {
        match typ.shape {
            DataShape::FixedArray(elem, len) => {
                match wire {
                    WireView::Sequence(items) => {
                        if reg.types.contains_key(elem) {
                            let stride = reg.types[elem].layout.stride();
                            lemma_array_slots_fit(reg, elem, len as nat, stride, addr, size);
                            lemma_de_slots_stay_inside(
                                reg,
                                mem,
                                array_slots(elem, len as nat, stride, addr),
                                items,
                                len as nat,
                                addr,
                                addr + size,
                                fuel,
                            );
                        }
                    },
                    _ => {},
                }
            },
            DataShape::Tuple(fields) => {
                match wire {
                    WireView::Sequence(items) => {
                        lemma_tuple_slots_fit(reg, fields@, addr, size);
                        lemma_de_slots_stay_inside(
                            reg,
                            mem,
                            tuple_slots(fields@, addr),
                            items,
                            fields@.len(),
                            addr,
                            addr + size,
                            fuel,
                        );
                    },
                    _ => {},
                }
            },
            DataShape::Newtype(inner) => {
                match wire {
                    WireView::Newtype(w) => {
                        lemma_de_at_stays_inside(reg, mem, Slot { type_id: inner, addr }, *w, fuel);
                    },
                    _ => {},
                }
            },
            DataShape::Struct(data) => {
                lemma_de_data_stays_inside(reg, mem, data, addr, size, wire, fuel);
            },
            DataShape::Enum { variants, .. } => {
                match wire {
                    WireView::Variant { ident, payload } => {
                        match arm_named(variants@, ident) {
                            Some(ix) => {
                                lemma_arm_named_in_range(variants@, ident);
                                if addr + 2 <= mem.len() {
                                    let tagged = write_bytes(mem, addr, tag_bytes(variants@[ix].discriminant));
                                    lemma_de_data_stays_inside(
                                        reg,
                                        tagged,
                                        variants@[ix].variant,
                                        addr,
                                        size,
                                        *payload,
                                        fuel,
                                    );
                                }
                            },
                            None => {},
                        }
                    },
                    _ => {},
                }
            },
            _ => {},
        }
    }
}

/// Filling fields touches no byte outside the `size` bytes from the base.
proof fn lemma_de_data_stays_inside(
    reg: Registry,
    mem: Seq<u8>,
    data: VariantData,
    base: int,
    size: int,
    wire: WireView,
    fuel: nat,
)
    requires
        registry_laid_out(reg),
        data_fits(reg, data, size),
    ensures
        same_outside(de_data(reg, mem, data, base, wire, fuel).mem, mem, base, base + size),
    decreases fuel, 3nat, 0nat,
{
    match data {
        VariantData::Unit => {},
        VariantData::Tuple(fields) => {
            match wire {
                WireView::Sequence(items) => {
                    lemma_tuple_slots_fit(reg, fields@, base, size);
                    lemma_de_slots_stay_inside(
                        reg,
                        mem,
                        tuple_slots(fields@, base),
                        items,
                        fields@.len(),
                        base,
                        base + size,
                        fuel,
                    );
                },
                _ => {},
            }
        },
        VariantData::Fields { fields, .. } => {
            lemma_named_slots_fit(reg, fields@, base, size);
            match wire {
                WireView::Mapping(entries) => {
                    lemma_de_entries_stay_inside(
                        reg,
                        mem,
                        field_names(fields@),
                        named_slots(fields@, base),
                        entries,
                        entries.len(),
                        base,
                        base + size,
                        fuel,
                    );
                },
                WireView::Sequence(items) => {
                    lemma_de_slots_stay_inside(
                        reg,
                        mem,
                        named_slots(fields@, base),
                        items,
                        fields@.len(),
                        base,
                        base + size,
                        fuel,
                    );
                },
                _ => {},
            }
        },
    }
}

/// Filling a run of slots touches no byte outside the bytes that hold them.
proof fn lemma_de_slots_stay_inside(
    reg: Registry,
    mem: Seq<u8>,
    slots: Seq<Slot>,
    items: Seq<WireView>,
    n: nat,
    lo: int,
    hi: int,
    fuel: nat,
)
    requires
        registry_laid_out(reg),
        slots_fit(reg, slots, lo, hi),
        n <= slots.len(),
    ensures
        same_outside(de_slots(reg, mem, slots, items, n, fuel).mem, mem, lo, hi),
    decreases fuel, 1nat, n,
{
    if n > 0 {
        lemma_de_slots_stay_inside(reg, mem, slots, items, (n - 1) as nat, lo, hi, fuel);
        let before = de_slots(reg, mem, slots, items, (n - 1) as nat, fuel);
        assert(slot_fits(reg, slots[n - 1], lo, hi));
        lemma_de_at_stays_inside(reg, before.mem, slots[n - 1], items[n - 1], fuel);
    }
}

/// Filling from map entries touches no byte outside the bytes that hold the
/// slots.
proof fn lemma_de_entries_stay_inside(
    reg: Registry,
    mem: Seq<u8>,
    names: Seq<String>,
    slots: Seq<Slot>,
    entries: Seq<(IdentView, WireView)>,
    n: nat,
    lo: int,
    hi: int,
    fuel: nat,
)
    requires
        registry_laid_out(reg),
        slots_fit(reg, slots, lo, hi),
    ensures
        same_outside(de_entries(reg, mem, names, slots, entries, n, fuel).mem, mem, lo, hi),
    decreases fuel, 1nat, n,
{
    if n > 0 {
        lemma_de_entries_stay_inside(reg, mem, names, slots, entries, (n - 1) as nat, lo, hi, fuel);
        let before = de_entries(reg, mem, names, slots, entries, (n - 1) as nat, fuel);
        match resolve(names, slots.len(), entries[n - 1].0) {
            Some(ix) => {
                lemma_resolve_in_range(names, slots.len(), entries[n - 1].0);
                assert(slot_fits(reg, slots[ix], lo, hi));
                lemma_de_at_stays_inside(reg, before.mem, slots[ix], entries[n - 1].1, fuel);
            },
            None => {},
        }
    }
}

/// Filling the value at a slot touches no byte outside the layout of the
/// slot's type.
proof fn lemma_de_at_stays_inside(reg: Registry, mem: Seq<u8>, slot: Slot, wire: WireView, fuel: nat)
    requires
        registry_laid_out(reg),
    ensures
        reg.types.contains_key(slot.type_id) ==> same_outside(
            de_at(reg, mem, slot, wire, fuel).mem,
            mem,
            slot.addr,
            slot.addr + reg.types[slot.type_id].layout.size,
        ),
        !reg.types.contains_key(slot.type_id) ==> de_at(reg, mem, slot, wire, fuel).mem == mem,
    decreases fuel, 0nat, 0nat,
{
    if reg.types.contains_key(slot.type_id) && fuel > 0 {
        lemma_de_stays_inside(reg, mem, reg.types[slot.type_id], slot.addr, wire, (fuel - 1) as nat);
    }
}

/// Whether two fillings ended alike as far as the bytes from `lo` up to `hi`
/// go: with the same failure or both with none, and with the same bytes
/// there.
spec fn alike_inside(one: Outcome, other: Outcome, lo: int, hi: int) -> bool {
    one.error == other.error && same_inside(one.mem, other.mem, lo, hi)
}

/// Filling a value goes by the wire and by the bytes of the value's layout
/// alone: into two images that agree there, it ends alike.
proof fn lemma_de_goes_by_range(
    reg: Registry,
    one: Seq<u8>,
    other: Seq<u8>,
    typ: ReflectedType,
    addr: int,
    wire: WireView,
    fuel: nat,
)
    requires
        registry_laid_out(reg),
        parts_fit(reg, typ),
        same_inside(one, other, addr, addr + typ.layout.size),
    ensures
        alike_inside(
            de(reg, one, typ, addr, wire, fuel),
            de(reg, other, typ, addr, wire, fuel),
            addr,
            addr + typ.layout.size,
        ),
    decreases fuel, 4nat, 0nat,
{
    let size = typ.layout.size as int;
    if !(addr < 0 || addr > one.len()) && !reg.leaves.contains(typ.id) {
        match typ.shape {
            DataShape::FixedArray(elem, len) => {
                match wire {
                    WireView::Sequence(items) => {
                        if reg.types.contains_key(elem) {
                            let stride = reg.types[elem].layout.stride();
                            lemma_array_slots_fit(reg, elem, len as nat, stride, addr, size);
                            lemma_de_slots_go_by_range(
                                reg,
                                one,
                                other,
                                array_slots(elem, len as nat, stride, addr),
                                items,
                                len as nat,
                                addr,
                                addr + size,
                                fuel,
                            );
                        }
                    },
                    _ => {},
                }
            },
            DataShape::Tuple(fields) => {
                match wire {
                    WireView::Sequence(items) => {
                        lemma_tuple_slots_fit(reg, fields@, addr, size);
                        lemma_de_slots_go_by_range(
                            reg,
                            one,
                            other,
                            tuple_slots(fields@, addr),
                            items,
                            fields@.len(),
                            addr,
                            addr + size,
                            fuel,
                        );
                    },
                    _ => {},
                }
            },
            DataShape::Newtype(inner) => {
                match wire {
                    WireView::Newtype(w) => {
                        lemma_de_at_goes_by_range(
                            reg,
                            one,
                            other,
                            Slot { type_id: inner, addr },
                            *w,
                            addr,
                            addr + size,
                            fuel,
                        );
                    },
                    _ => {},
                }
            },
            DataShape::Struct(data) => {
                lemma_de_data_goes_by_range(reg, one, other, data, addr, size, wire, fuel);
            },
            DataShape::Enum { variants, .. } => {
                match wire {
                    WireView::Variant { ident, payload } => {
                        match arm_named(variants@, ident) {
                            Some(ix) => {
                                lemma_arm_named_in_range(variants@, ident);
                                if addr + 2 <= one.len() {
                                    let tag = tag_bytes(variants@[ix].discriminant);
                                    lemma_de_data_goes_by_range(
                                        reg,
                                        write_bytes(one, addr, tag),
                                        write_bytes(other, addr, tag),
                                        variants@[ix].variant,
                                        addr,
                                        size,
                                        *payload,
                                        fuel,
                                    );
                                }
                            },
                            None => {},
                        }
                    },
                    _ => {},
                }
            },
            _ => {},
        }
    }
}

/// Filling fields goes by the wire and by the `size` bytes from the base
/// alone.
proof fn lemma_de_data_goes_by_range(
    reg: Registry,
    one: Seq<u8>,
    other: Seq<u8>,
    data: VariantData,
    base: int,
    size: int,
    wire: WireView,
    fuel: nat,
)
    requires
        registry_laid_out(reg),
        data_fits(reg, data, size),
        same_inside(one, other, base, base + size),
    ensures
        alike_inside(
            de_data(reg, one, data, base, wire, fuel),
            de_data(reg, other, data, base, wire, fuel),
            base,
            base + size,
        ),
    decreases fuel, 3nat, 0nat,
{
    match data {
        VariantData::Unit => {},
        VariantData::Tuple(fields) => {
            match wire {
                WireView::Sequence(items) => {
                    lemma_tuple_slots_fit(reg, fields@, base, size);
                    lemma_de_slots_go_by_range(
                        reg,
                        one,
                        other,
                        tuple_slots(fields@, base),
                        items,
                        fields@.len(),
                        base,
                        base + size,
                        fuel,
                    );
                },
                _ => {},
            }
        },
        VariantData::Fields { fields, .. } => {
            lemma_named_slots_fit(reg, fields@, base, size);
            match wire {
                WireView::Mapping(entries) => {
                    lemma_de_entries_go_by_range(
                        reg,
                        one,
                        other,
                        field_names(fields@),
                        named_slots(fields@, base),
                        entries,
                        entries.len(),
                        base,
                        base + size,
                        fuel,
                    );
                },
                WireView::Sequence(items) => {
                    lemma_de_slots_go_by_range(
                        reg,
                        one,
                        other,
                        named_slots(fields@, base),
                        items,
                        fields@.len(),
                        base,
                        base + size,
                        fuel,
                    );
                },
                _ => {},
            }
        },
    }
}

/// Filling a run of slots goes by the wire and by the bytes that hold the
/// slots alone.
proof fn lemma_de_slots_go_by_range(
    reg: Registry,
    one: Seq<u8>,
    other: Seq<u8>,
    slots: Seq<Slot>,
    items: Seq<WireView>,
    n: nat,
    lo: int,
    hi: int,
    fuel: nat,
)
    requires
        registry_laid_out(reg),
        slots_fit(reg, slots, lo, hi),
        n <= slots.len(),
        same_inside(one, other, lo, hi),
    ensures
        alike_inside(
            de_slots(reg, one, slots, items, n, fuel),
            de_slots(reg, other, slots, items, n, fuel),
            lo,
            hi,
        ),
    decreases fuel, 1nat, n,
{
    if n > 0 {
        lemma_de_slots_go_by_range(reg, one, other, slots, items, (n - 1) as nat, lo, hi, fuel);
        let a = de_slots(reg, one, slots, items, (n - 1) as nat, fuel);
        let b = de_slots(reg, other, slots, items, (n - 1) as nat, fuel);
        assert(slot_fits(reg, slots[n - 1], lo, hi));
        lemma_de_at_goes_by_range(reg, a.mem, b.mem, slots[n - 1], items[n - 1], lo, hi, fuel);
    }
}

/// Filling from map entries goes by the wire and by the bytes that hold the
/// slots alone.
proof fn lemma_de_entries_go_by_range(
    reg: Registry,
    one: Seq<u8>,
    other: Seq<u8>,
    names: Seq<String>,
    slots: Seq<Slot>,
    entries: Seq<(IdentView, WireView)>,
    n: nat,
    lo: int,
    hi: int,
    fuel: nat,
)
    requires
        registry_laid_out(reg),
        slots_fit(reg, slots, lo, hi),
        same_inside(one, other, lo, hi),
    ensures
        alike_inside(
            de_entries(reg, one, names, slots, entries, n, fuel),
            de_entries(reg, other, names, slots, entries, n, fuel),
            lo,
            hi,
        ),
    decreases fuel, 1nat, n,
{
    if n > 0 {
        lemma_de_entries_go_by_range(reg, one, other, names, slots, entries, (n - 1) as nat, lo, hi, fuel);
        let a = de_entries(reg, one, names, slots, entries, (n - 1) as nat, fuel);
        let b = de_entries(reg, other, names, slots, entries, (n - 1) as nat, fuel);
        match resolve(names, slots.len(), entries[n - 1].0) {
            Some(ix) => {
                lemma_resolve_in_range(names, slots.len(), entries[n - 1].0);
                assert(slot_fits(reg, slots[ix], lo, hi));
                lemma_de_at_goes_by_range(reg, a.mem, b.mem, slots[ix], entries[n - 1].1, lo, hi, fuel);
            },
            None => {},
        }
    }
}

/// Filling the value at a slot goes by the wire and by the bytes of the
/// slot's type alone: into two images that agree on bytes that hold the slot,
/// it ends alike there.
proof fn lemma_de_at_goes_by_range(
    reg: Registry,
    one: Seq<u8>,
    other: Seq<u8>,
    slot: Slot,
    wire: WireView,
    lo: int,
    hi: int,
    fuel: nat,
)
    requires
        registry_laid_out(reg),
        slot_fits(reg, slot, lo, hi),
        same_inside(one, other, lo, hi),
    ensures
        alike_inside(de_at(reg, one, slot, wire, fuel), de_at(reg, other, slot, wire, fuel), lo, hi),
    decreases fuel, 0nat, 0nat,
{
    if reg.types.contains_key(slot.type_id) && fuel > 0 {
        let typ = reg.types[slot.type_id];
        lemma_de_goes_by_range(reg, one, other, typ, slot.addr, wire, (fuel - 1) as nat);
        lemma_de_stays_inside(reg, one, typ, slot.addr, wire, (fuel - 1) as nat);
        lemma_de_stays_inside(reg, other, typ, slot.addr, wire, (fuel - 1) as nat);
    }
}

/// Whether the values at two slots share no byte.
pub open spec fn lie_apart(reg: Registry, one: Slot, other: Slot) -> bool {
    ||| one.addr + reg.types[one.type_id].layout.size <= other.addr
    ||| other.addr + reg.types[other.type_id].layout.size <= one.addr
}

/// The entries with those at the places `k` and `k + 1` exchanged.
pub open spec fn exchanged(entries: Seq<(IdentView, WireView)>, k: int) -> Seq<(IdentView, WireView)> {
    entries.update(k, entries[k + 1]).update(k + 1, entries[k])
}

/// Entries that are the same up to the place `n` go in alike up to there.
proof fn lemma_same_entries_fill_alike(
    reg: Registry,
    mem: Seq<u8>,
    names: Seq<String>,
    slots: Seq<Slot>,
    one: Seq<(IdentView, WireView)>,
    other: Seq<(IdentView, WireView)>,
    n: nat,
    fuel: nat,
)
    requires
        forall|j: int| 0 <= j < n ==> #[trigger] one[j] == other[j],
    ensures
        de_entries(reg, mem, names, slots, one, n, fuel) == de_entries(reg, mem, names, slots, other, n, fuel),
    decreases n,
{
    if n > 0 {
        lemma_same_entries_fill_alike(reg, mem, names, slots, one, other, (n - 1) as nat, fuel);
        assert(one[n - 1] == other[n - 1]);
    }
}

/// Entries that went in alike up to some place and are the same from there
/// on go in alike to the end.
proof fn lemma_same_rest_fills_alike(
    reg: Registry,
    mem: Seq<u8>,
    names: Seq<String>,
    slots: Seq<Slot>,
    one: Seq<(IdentView, WireView)>,
    other: Seq<(IdentView, WireView)>,
    from: nat,
    n: nat,
    fuel: nat,
)
    requires
        from <= n,
        de_entries(reg, mem, names, slots, one, from, fuel) == de_entries(reg, mem, names, slots, other, from, fuel),
        forall|j: int| from <= j < n ==> #[trigger] one[j] == other[j],
    ensures
        de_entries(reg, mem, names, slots, one, n, fuel) == de_entries(reg, mem, names, slots, other, n, fuel),
    decreases n,
{
    if n > from {
        lemma_same_rest_fills_alike(reg, mem, names, slots, one, other, from, (n - 1) as nat, fuel);
        assert(one[n - 1] == other[n - 1]);
    }
}

/// Two values that lie apart may be filled in either order: where filling
/// the one and then the other goes through, so does filling the other and
/// then the one, and the image is the same.
proof fn lemma_apart_fill_in_either_order(
    reg: Registry,
    mem: Seq<u8>,
    first: Slot,
    first_wire: WireView,
    second: Slot,
    second_wire: WireView,
    fuel: nat,
)
    requires
        registry_laid_out(reg),
        lie_apart(reg, first, second),
        de_at(reg, mem, first, first_wire, fuel).error is None,
        de_at(reg, de_at(reg, mem, first, first_wire, fuel).mem, second, second_wire, fuel).error is None,
    ensures
        de_at(reg, mem, second, second_wire, fuel).error is None,
        de_at(reg, de_at(reg, mem, second, second_wire, fuel).mem, first, first_wire, fuel) == de_at(
            reg,
            de_at(reg, mem, first, first_wire, fuel).mem,
            second,
            second_wire,
            fuel,
        ),
{
    let size_first = reg.types[first.type_id].layout.size as int;
    let size_second = reg.types[second.type_id].layout.size as int;
    let a = de_at(reg, mem, first, first_wire, fuel);
    let ab = de_at(reg, a.mem, second, second_wire, fuel);
    let b = de_at(reg, mem, second, second_wire, fuel);
    let ba = de_at(reg, b.mem, first, first_wire, fuel);
    assert(reg.types.contains_key(first.type_id));
    assert(reg.types.contains_key(second.type_id));
    lemma_de_at_stays_inside(reg, mem, first, first_wire, fuel);
    lemma_de_at_stays_inside(reg, a.mem, second, second_wire, fuel);
    lemma_de_at_stays_inside(reg, mem, second, second_wire, fuel);
    lemma_de_at_stays_inside(reg, b.mem, first, first_wire, fuel);
    // the second value is filled alike whether or not the first was filled before
    lemma_de_at_goes_by_range(
        reg,
        mem,
        a.mem,
        second,
        second_wire,
        second.addr,
        second.addr + size_second,
        fuel,
    );
    // and so is the first
    lemma_de_at_goes_by_range(reg, b.mem, mem, first, first_wire, first.addr, first.addr + size_first, fuel);
    assert(ba.mem =~= ab.mem) by {
        assert forall|p: int| 0 <= p < mem.len() implies ba.mem[p] == ab.mem[p] by {
            if first.addr <= p < first.addr + size_first {
                assert(ba.mem[p] == a.mem[p]);
                assert(ab.mem[p] == a.mem[p]);
            } else if second.addr <= p < second.addr + size_second {
                assert(ba.mem[p] == b.mem[p]);
                assert(ab.mem[p] == b.mem[p]);
            } else {
                assert(ba.mem[p] == b.mem[p]);
                assert(b.mem[p] == mem[p]);
                assert(ab.mem[p] == a.mem[p]);
                assert(a.mem[p] == mem[p]);
            }
        }
    }
}

/// The order of the entries does not matter: in a map that fills a struct,
/// two neighbouring entries for fields that lie apart may change places, and
/// the struct is filled to the same image. Every other order of the entries
/// is reached by such exchanges.
pub proof fn lemma_neighbours_may_change_places(
    reg: Registry,
    mem: Seq<u8>,
    names: Seq<String>,
    slots: Seq<Slot>,
    entries: Seq<(IdentView, WireView)>,
    k: int,
    fuel: nat,
)
    requires
        registry_laid_out(reg),
        0 <= k,
        k + 1 < entries.len(),
        de_map(reg, mem, names, slots, entries, fuel).error is None,
        lie_apart(
            reg,
            slots[resolve(names, slots.len(), entries[k].0)->0],
            slots[resolve(names, slots.len(), entries[k + 1].0)->0],
        ),
    ensures
        de_map(reg, mem, names, slots, exchanged(entries, k), fuel) == de_map(reg, mem, names, slots, entries, fuel),
{
    let other = exchanged(entries, k);
    let n = entries.len();
    let count = slots.len();
    // up to the two entries, nothing differs
    lemma_same_entries_fill_alike(reg, mem, names, slots, entries, other, k as nat, fuel);
    let start = de_entries(reg, mem, names, slots, entries, k as nat, fuel);
    if de_entries(reg, mem, names, slots, entries, (k + 2) as nat, fuel).error is Some {
        lemma_de_entries_failure_stays(reg, mem, names, slots, entries, (k + 2) as nat, n, fuel);
    }
    if de_entries(reg, mem, names, slots, entries, (k + 1) as nat, fuel).error is Some {
        lemma_de_entries_failure_stays(reg, mem, names, slots, entries, (k + 1) as nat, n, fuel);
    }
    if start.error is Some {
        lemma_de_entries_failure_stays(reg, mem, names, slots, entries, k as nat, n, fuel);
    }
    let f = resolve(names, count, entries[k].0)->0;
    let g = resolve(names, count, entries[k + 1].0)->0;
    assert(resolve(names, count, entries[k].0) is Some);
    assert(resolve(names, count, entries[k + 1].0) is Some);
    // the two entries go in in either order
    lemma_apart_fill_in_either_order(reg, start.mem, slots[f], entries[k].1, slots[g], entries[k + 1].1, fuel);
    assert(other[k] == entries[k + 1]);
    assert(other[k + 1] == entries[k]);
    assert(de_entries(reg, mem, names, slots, other, (k + 1) as nat, fuel) == de_at(
        reg,
        start.mem,
        slots[g],
        entries[k + 1].1,
        fuel,
    ));
    assert(de_entries(reg, mem, names, slots, other, (k + 2) as nat, fuel) == de_entries(
        reg,
        mem,
        names,
        slots,
        entries,
        (k + 2) as nat,
        fuel,
    ));
    // and behind them, nothing differs again
    lemma_same_rest_fills_alike(reg, mem, names, slots, entries, other, (k + 2) as nat, n, fuel);
    // the same fields arrive
    assert forall|i: int| 0 <= i < count implies (arrives(names, count, entries, n, i) <==> arrives(
        names,
        count,
        other,
        other.len(),
        i,
    )) by {
        if arrives(names, count, entries, n, i) {
            let j = choose|j: int| 0 <= j < n && resolve(names, count, (#[trigger] entries[j]).0) == Some(i);
            let moved = if j == k {
                k + 1
            } else if j == k + 1 {
                k
            } else {
                j
            };
            assert(other[moved] == entries[j]);
            assert(resolve(names, count, other[moved].0) == Some(i));
        }
        if arrives(names, count, other, other.len(), i) {
            let j = choose|j: int| 0 <= j < other.len() && resolve(names, count, (#[trigger] other[j]).0) == Some(i);
            let moved = if j == k {
                k + 1
            } else if j == k + 1 {
                k
            } else {
                j
            };
            assert(entries[moved] == other[j]);
            assert(resolve(names, count, entries[moved].0) == Some(i));
        }
    }
    assert(other.len() == n);
    assert(all_arrive(names, count, entries));
    assert(all_arrive(names, count, other)) by {
        assert forall|i: int| 0 <= i < count implies arrives(names, count, other, other.len(), i) by {
            assert(arrives(names, count, entries, n, i));
        }
    }
}

/// Whether every two entries are for fields that lie apart.
pub open spec fn entries_lie_apart(
    reg: Registry,
    names: Seq<String>,
    slots: Seq<Slot>,
    entries: Seq<(IdentView, WireView)>,
) -> bool {
    forall|i: int, j: int|
        0 <= i < entries.len() && 0 <= j < entries.len() && i != j ==> lie_apart(
            reg,
            slots[resolve(names, slots.len(), (#[trigger] entries[i]).0)->0],
            slots[resolve(names, slots.len(), (#[trigger] entries[j]).0)->0],
        )
}

/// Whether each of `at` is a place in a list of `n` entries that has a next
/// place.
pub open spec fn places_with_a_next(at: Seq<int>, n: nat) -> bool {
    forall|s: int| 0 <= s < at.len() ==> 0 <= #[trigger] at[s] && at[s] + 1 < n
}

/// The entries after a run of exchanges of neighbours, the first of `at`
/// first: each exchanges the entry at that place with the next.
pub open spec fn rearranged(entries: Seq<(IdentView, WireView)>, at: Seq<int>) -> Seq<(IdentView, WireView)>
    decreases at.len(),
{
    if at.len() == 0 {
        entries
    } else {
        exchanged(rearranged(entries, at.drop_last()), at.last())
    }
}

/// Exchanges keep the number of the entries, and entries for fields that
/// lie apart stay such.
proof fn lemma_rearranged_lie_apart(
    reg: Registry,
    names: Seq<String>,
    slots: Seq<Slot>,
    entries: Seq<(IdentView, WireView)>,
    at: Seq<int>,
)
    requires
        entries_lie_apart(reg, names, slots, entries),
        places_with_a_next(at, entries.len()),
    ensures
        rearranged(entries, at).len() == entries.len(),
        entries_lie_apart(reg, names, slots, rearranged(entries, at)),
    decreases at.len(),
{
    if at.len() > 0 {
        let k = at.last();
        let before = rearranged(entries, at.drop_last());
        let after = rearranged(entries, at);
        assert(places_with_a_next(at.drop_last(), entries.len())) by {
            assert forall|s: int| 0 <= s < at.drop_last().len() implies 0 <= #[trigger] at.drop_last()[s]
                && at.drop_last()[s] + 1 < entries.len() by {
                assert(at.drop_last()[s] == at[s]);
            }
        }
        lemma_rearranged_lie_apart(reg, names, slots, entries, at.drop_last());
        assert(0 <= k && k + 1 < entries.len()) by {
            assert(at[at.len() - 1] == k);
        }
        assert(after == exchanged(before, k));
        assert forall|i: int, j: int| 0 <= i < after.len() && 0 <= j < after.len() && i != j implies lie_apart(
            reg,
            slots[resolve(names, slots.len(), (#[trigger] after[i]).0)->0],
            slots[resolve(names, slots.len(), (#[trigger] after[j]).0)->0],
        ) by {
            let from_i = if i == k {
                k + 1
            } else if i == k + 1 {
                k
            } else {
                i
            };
            let from_j = if j == k {
                k + 1
            } else if j == k + 1 {
                k
            } else {
                j
            };
            assert(after[i] == before[from_i]);
            assert(after[j] == before[from_j]);
        }
    }
}

/// The order of the entries does not matter: where every two entries of a
/// map are for fields that lie apart, as the fields of a struct do, and the
/// map fills the struct, the entries may be rearranged by any run of
/// exchanges of neighbours, which reaches every order, and the struct is
/// filled to the same image.
pub proof fn lemma_entries_may_come_in_any_order(
    reg: Registry,
    mem: Seq<u8>,
    names: Seq<String>,
    slots: Seq<Slot>,
    entries: Seq<(IdentView, WireView)>,
    at: Seq<int>,
    fuel: nat,
)
    requires
        registry_laid_out(reg),
        entries_lie_apart(reg, names, slots, entries),
        places_with_a_next(at, entries.len()),
        de_map(reg, mem, names, slots, entries, fuel).error is None,
    ensures
        de_map(reg, mem, names, slots, rearranged(entries, at), fuel) == de_map(
            reg,
            mem,
            names,
            slots,
            entries,
            fuel,
        ),
    decreases at.len(),
{
    if at.len() > 0 {
        let k = at.last();
        let before = rearranged(entries, at.drop_last());
        assert(places_with_a_next(at.drop_last(), entries.len())) by {
            assert forall|s: int| 0 <= s < at.drop_last().len() implies 0 <= #[trigger] at.drop_last()[s]
                && at.drop_last()[s] + 1 < entries.len() by {
                assert(at.drop_last()[s] == at[s]);
            }
        }
        lemma_entries_may_come_in_any_order(reg, mem, names, slots, entries, at.drop_last(), fuel);
        lemma_rearranged_lie_apart(reg, names, slots, entries, at.drop_last());
        assert(0 <= k && k + 1 < entries.len()) by {
            assert(at[at.len() - 1] == k);
        }
        lemma_neighbours_may_change_places(reg, mem, names, slots, before, k, fuel);
    }
}

/// Whether every two of the slots lie apart.
pub open spec fn slots_lie_apart(reg: Registry, slots: Seq<Slot>) -> bool {
    forall|i: int, j: int|
        0 <= i < slots.len() && 0 <= j < slots.len() && i != j ==> lie_apart(reg, #[trigger] slots[i], #[trigger] slots[j])
}

/// Name and position agree, whatever the order of the entries: where the
/// fields of a struct have distinct names and lie apart, a map that holds a
/// value for each field under its name, its entries rearranged by any run of
/// exchanges of neighbours, fills the struct as the map that numbers the
/// fields in declaration order does, where that one fills it.
pub proof fn lemma_names_in_any_order_fill_as_positions(
    reg: Registry,
    mem: Seq<u8>,
    data: VariantData,
    base: int,
    values: Seq<WireView>,
    at: Seq<int>,
    fuel: nat,
)
    requires
        registry_laid_out(reg),
        data matches VariantData::Fields { fields, .. } && distinct(field_names(fields@)) && values.len()
            == fields@.len() && slots_lie_apart(reg, named_slots(fields@, base)),
        places_with_a_next(at, values.len()),
        de_data(reg, mem, data, base, WireView::Mapping(by_index(values)), fuel).error is None,
    ensures
        de_data(
            reg,
            mem,
            data,
            base,
            WireView::Mapping(rearranged(by_name(field_names(data->fields@), values), at)),
            fuel,
        ) == de_data(reg, mem, data, base, WireView::Mapping(by_index(values)), fuel),
{
    let names = field_names(data->fields@);
    let slots = named_slots(data->fields@, base);
    let entries = by_name(names, values);
    lemma_fields_by_name_or_position(reg, mem, data, base, values, fuel);
    assert(slots.len() == (data->fields)@.len());
    assert(names.len() == (data->fields)@.len());
    assert forall|i: int, j: int| 0 <= i < entries.len() && 0 <= j < entries.len() && i != j implies lie_apart(
        reg,
        slots[resolve(names, slots.len(), (#[trigger] entries[i]).0)->0],
        slots[resolve(names, slots.len(), (#[trigger] entries[j]).0)->0],
    ) by {
        lemma_name_resolves_to_its_place(names, slots.len(), i);
        lemma_name_resolves_to_its_place(names, slots.len(), j);
        assert(lie_apart(reg, slots[i], slots[j]));
    }
    lemma_entries_may_come_in_any_order(reg, mem, names, slots, entries, at, fuel);
}

} // verus!
