//! The round trip: what was serialized comes back.

use vstd::prelude::*;
use crate::de::{de, de_at, de_data, de_slots, Outcome};
use crate::ident::{arm_named, field_names, index_hits, label_hits};
use crate::location::{
    array_slots, blank, lemma_tag_determines_bytes, lemma_tag_round_trip, named_slots, read_bytes,
    read_tag, tag_bytes, tuple_slots, write_bytes, Slot,
};
use crate::metadata::{
    arm_hits, arm_position, ascending, lemma_first_true, lemma_first_true_is, DataShape, EnumArm,
    EnumArms, ReflectedType, TypeKey, VariantData,
};
use crate::registry::Registry;
use crate::ser::{
    lemma_ser_slots_elements, lemma_ser_slots_len, ser, ser_at, ser_data, ser_slots, with_names,
    MAX_DEPTH,
};
use crate::wire::{
    field_wires_of, named_entries, names_of, variant_ident, wire_of, wire_of_data, wires_of,
    EmittedView, Error, WireStyle, WireView,
};

use crate::laws::identifiers::{
    by_name, distinct, lemma_named_entries_all_arrive, lemma_named_entries_go_in_order,
};

verus! {

/// Whether a format of the given style tells the fields of a struct or of a
/// variant apart: where fields go by name, no two have the same name.
pub open spec fn fields_suit(data: VariantData, style: WireStyle) -> bool {
    (style == WireStyle::Named && data is Fields) ==> distinct(field_names((data->fields)@))
}

/// Whether a value of the shape is told apart by a format of the given
/// style.
///
/// The arms of an enum ascend by discriminant. Where variants go by name, no
/// two arms have the same label; where they go by index, no two arms were
/// declared at the same index.
pub open spec fn shape_suits(shape: DataShape, style: WireStyle) -> bool {
    match shape {
        DataShape::Struct(data) => fields_suit(data, style),
        DataShape::Enum { variants, .. } => {
            &&& ascending(variants@)
            &&& forall|i: int| 0 <= i < variants@.len() ==> fields_suit((#[trigger] variants@[i]).variant, style)
            &&& arms_told_apart(variants@, style)
        },
        _ => true,
    }
}

/// Whether a format of the given style tells the arms of an enum apart: by
/// their names where variants go by name, by the indices of their
/// declarations where they go by index.
pub open spec fn arms_told_apart(arms: Seq<EnumArm>, style: WireStyle) -> bool {
    match style {
        WireStyle::Named => forall|i: int, j: int|
            0 <= i < j < arms.len() ==> (#[trigger] arms[i]).label@ != (#[trigger] arms[j]).label@,
        WireStyle::Positional => forall|i: int, j: int|
            0 <= i < j < arms.len() ==> (#[trigger] arms[i]).variant_index != (#[trigger] arms[j]).variant_index,
    }
}

/// Whether every registered type is told apart by a format of the given
/// style.
pub open spec fn registry_suits(reg: Registry, style: WireStyle) -> bool {
    forall|id: TypeKey| reg.types.contains_key(id) ==> shape_suits((#[trigger] reg.types[id]).shape, style)
}

/// Whether the shape stands for an indirection.
pub open spec fn is_indirection(shape: DataShape) -> bool {
    shape is Slice || shape is Ref
}

/// Whether some registered type is an indirection.
pub open spec fn holds_indirection(reg: Registry) -> bool {
    exists|id: TypeKey| reg.types.contains_key(id) && is_indirection((#[trigger] reg.types[id]).shape)
}

/// As far as `src` reaches, each byte of `after` is the byte of `before` or
/// the byte of `src` at the same place: `after` is `before` with some bytes
/// of `src` laid over it.
spec fn blend(src: Seq<u8>, before: Seq<u8>, after: Seq<u8>) -> bool {
    &&& before.len() >= src.len()
    &&& after.len() == before.len()
    &&& forall|p: int| 0 <= p < src.len() ==> (#[trigger] after[p]) == before[p] || after[p] == src[p]
}

/// Bytes that `src` and `before` agree on are the bytes of every blend.
proof fn lemma_blend_keeps_bytes(src: Seq<u8>, before: Seq<u8>, after: Seq<u8>, addr: int, n: int)
    requires
        blend(src, before, after),
        read_bytes(src, addr, n) is Some,
        read_bytes(before, addr, n) == read_bytes(src, addr, n),
    ensures
        read_bytes(after, addr, n) == read_bytes(src, addr, n),
{
    let a = src.subrange(addr, addr + n);
    let b = before.subrange(addr, addr + n);
    let c = after.subrange(addr, addr + n);
    assert forall|k: int| 0 <= k < n implies c[k] == a[k] by {
        assert(a[k] == b[k]);
        assert(after[addr + k] == before[addr + k] || after[addr + k] == src[addr + k]);
    }
    assert(c =~= a);
}

/// A tag that `src` and `before` agree on is the tag of every blend.
proof fn lemma_blend_keeps_tag(src: Seq<u8>, before: Seq<u8>, after: Seq<u8>, addr: int)
    requires
        blend(src, before, after),
        read_tag(src, addr) is Some,
        read_tag(before, addr) == read_tag(src, addr),
    ensures
        read_tag(after, addr) == read_tag(src, addr),
{
    lemma_tag_determines_bytes(src, addr);
    lemma_tag_determines_bytes(before, addr);
    let a = src.subrange(addr, addr + 2);
    let b = before.subrange(addr, addr + 2);
    assert(a[0] == b[0] && a[1] == b[1]);
    assert(after[addr] == before[addr] || after[addr] == src[addr]);
    assert(after[addr + 1] == before[addr + 1] || after[addr + 1] == src[addr + 1]);
}

/// A blend of a blend is a blend.
proof fn lemma_blend_twice(src: Seq<u8>, first: Seq<u8>, second: Seq<u8>, third: Seq<u8>)
    requires
        blend(src, first, second),
        blend(src, second, third),
    ensures
        blend(src, first, third),
{
    assert forall|p: int| 0 <= p < src.len() implies (#[trigger] third[p]) == first[p] || third[p] == src[p] by {
        assert(third[p] == second[p] || third[p] == src[p]);
        assert(second[p] == first[p] || second[p] == src[p]);
    }
}

/// Bytes of `src` written to the same place of another image that is no
/// shorter make a blend, from which they are read again.
proof fn lemma_write_then_read(src: Seq<u8>, dst: Seq<u8>, addr: int, n: int)
    requires
        dst.len() >= src.len(),
        read_bytes(src, addr, n) is Some,
    ensures
        blend(src, dst, write_bytes(dst, addr, read_bytes(src, addr, n)->0)),
        read_bytes(write_bytes(dst, addr, read_bytes(src, addr, n)->0), addr, n) == read_bytes(src, addr, n),
{
    let bytes = read_bytes(src, addr, n)->0;
    let after = write_bytes(dst, addr, bytes);
    assert forall|p: int| 0 <= p < src.len() implies (#[trigger] after[p]) == dst[p] || after[p] == src[p] by {
        if addr <= p < addr + n {
            assert(bytes[p - addr] == src[p]);
        }
    }
    assert(after.subrange(addr, addr + n) =~= bytes);
}

/// The wire form of a run of emitted values has one element for each value.
proof fn lemma_wires_of(items: Seq<EmittedView>, style: WireStyle)
    ensures
        wires_of(items, style).len() == items.len(),
        forall|i: int| 0 <= i < items.len() ==> (#[trigger] wires_of(items, style)[i]) == wire_of(items[i], style),
{
}

/// A value that two images hold alike is held by every blend of the two,
/// where the value is one that some image was filled with.
proof fn lemma_stable(
    reg: Registry,
    style: WireStyle,
    src: Seq<u8>,
    before: Seq<u8>,
    after: Seq<u8>,
    witness: Seq<u8>,
    typ: ReflectedType,
    addr: int,
    fuel: nat,
)
    requires
        registry_suits(reg, style),
        shape_suits(typ.shape, style),
        blend(src, before, after),
        ser(reg, src, typ, addr, fuel) is Ok,
        ser(reg, before, typ, addr, fuel) == ser(reg, src, typ, addr, fuel),
        de(reg, witness, typ, addr, wire_of(ser(reg, src, typ, addr, fuel)->Ok_0, style), fuel).error is None,
    ensures
        ser(reg, after, typ, addr, fuel) == ser(reg, src, typ, addr, fuel),
    decreases fuel, 3nat, 0nat,
{
    if reg.leaves.contains(typ.id) {
        lemma_blend_keeps_bytes(src, before, after, addr, typ.layout.size as int);
    } else {
        match typ.shape {
            DataShape::Leaf(_) => {},
            DataShape::Builtin(kind) => {
                lemma_blend_keeps_bytes(src, before, after, addr, kind.width() as int);
            },
            DataShape::FixedArray(elem, len) => {
                let slots = array_slots(elem, len as nat, reg.types[elem].layout.stride(), addr);
                let items = ser_slots(reg, src, slots, len as nat, fuel)->Ok_0;
                lemma_ser_slots_elements(reg, src, slots, len as nat, fuel);
                lemma_wires_of(items, style);
                lemma_stable_slots(
                    reg,
                    style,
                    src,
                    before,
                    after,
                    witness,
                    slots,
                    wires_of(items, style),
                    len as nat,
                    fuel,
                );
            },
            DataShape::Slice(_) => {},
            DataShape::Ref(_) => {},
            DataShape::Tuple(fields) => {
                let slots = tuple_slots(fields@, addr);
                let items = ser_slots(reg, src, slots, fields@.len(), fuel)->Ok_0;
                lemma_ser_slots_elements(reg, src, slots, fields@.len(), fuel);
                lemma_wires_of(items, style);
                lemma_stable_slots(
                    reg,
                    style,
                    src,
                    before,
                    after,
                    witness,
                    slots,
                    wires_of(items, style),
                    fields@.len(),
                    fuel,
                );
            },
            DataShape::Newtype(inner) => {
                lemma_stable_at(reg, style, src, before, after, witness, Slot { type_id: inner, addr }, fuel);
            },
            DataShape::Struct(data) => {
                lemma_stable_data(reg, style, src, before, after, witness, data, addr, fuel);
            },
            DataShape::Enum { variants, .. } => {
                let tag_src = read_tag(src, addr)->0;
                let tag_before = read_tag(before, addr)->0;
                let i = arm_position(variants@, tag_src)->0;
                let j = arm_position(variants@, tag_before)->0;
                lemma_first_true(arm_hits(variants@, tag_src));
                lemma_first_true(arm_hits(variants@, tag_before));
                assert(variants@[i].discriminant == tag_src);
                assert(variants@[j].discriminant == tag_before);
                assert(ser_data(reg, src, variants@[i].variant, addr, fuel) is Ok);
                assert(ser_data(reg, before, variants@[j].variant, addr, fuel) is Ok);
                assert(variants@[i].label@ == variants@[j].label@);
                assert(variants@[i].variant_index as u32 == variants@[j].variant_index as u32);
                lemma_arm_resolves(variants, style, i);
                lemma_arm_resolves(variants, style, j);
                assert(i == j);
                lemma_blend_keeps_tag(src, before, after, addr);
                let tagged = write_bytes(witness, addr, tag_bytes(variants@[i].discriminant));
                lemma_stable_data(reg, style, src, before, after, tagged, variants@[i].variant, addr, fuel);
            },
        }
    }
}

/// Among arms that a style tells apart, what the style makes of an arm's
/// index and label stands for that arm.
proof fn lemma_arm_resolves(variants: EnumArms, style: WireStyle, i: int)
    requires
        0 <= i < variants@.len(),
        arms_told_apart(variants@, style),
    ensures
        arm_named(variants@, variant_ident(style, variants@[i].variant_index as u32, variants@[i].label@)) == Some(
            i,
        ),
{
    let arms = variants@;
    match style {
        WireStyle::Named => {
            let hits = label_hits(arms, arms[i].label@);
            assert forall|j: int| 0 <= j < i implies !hits[j] by {
                assert(arms[j].label@ != arms[i].label@);
            }
            lemma_first_true_is(hits, i);
        },
        WireStyle::Positional => {
            let hits = index_hits(arms, arms[i].variant_index as u32 as u64);
            assert forall|j: int| 0 <= j < i implies !hits[j] by {
                assert(arms[j].variant_index != arms[i].variant_index);
            }
            lemma_first_true_is(hits, i);
        },
    }
}

/// Fields that two images hold alike are held by every blend of the two,
/// where the fields are such that some image was filled with.
proof fn lemma_stable_data(
    reg: Registry,
    style: WireStyle,
    src: Seq<u8>,
    before: Seq<u8>,
    after: Seq<u8>,
    witness: Seq<u8>,
    data: VariantData,
    base: int,
    fuel: nat,
)
    requires
        registry_suits(reg, style),
        fields_suit(data, style),
        blend(src, before, after),
        ser_data(reg, src, data, base, fuel) is Ok,
        ser_data(reg, before, data, base, fuel) == ser_data(reg, src, data, base, fuel),
        de_data(reg, witness, data, base, wire_of_data(ser_data(reg, src, data, base, fuel)->Ok_0, style), fuel).error
            is None,
    ensures
        ser_data(reg, after, data, base, fuel) == ser_data(reg, src, data, base, fuel),
    decreases fuel, 2nat, 0nat,
{
    match data {
        VariantData::Unit => {},
        VariantData::Tuple(fields) => {
            let slots = tuple_slots(fields@, base);
            let items = ser_slots(reg, src, slots, fields@.len(), fuel)->Ok_0;
            lemma_ser_slots_elements(reg, src, slots, fields@.len(), fuel);
            lemma_wires_of(items, style);
            lemma_stable_slots(
                reg,
                style,
                src,
                before,
                after,
                witness,
                slots,
                wires_of(items, style),
                fields@.len(),
                fuel,
            );
        },
        VariantData::Fields { fields, .. } => {
            let slots = named_slots(fields@, base);
            let n = fields@.len();
            let a = ser_slots(reg, src, slots, n, fuel)->Ok_0;
            let b = ser_slots(reg, before, slots, n, fuel)->Ok_0;
            lemma_ser_slots_elements(reg, src, slots, n, fuel);
            lemma_ser_slots_len(reg, before, slots, n, fuel);
            assert(a =~= b) by {
                assert forall|k: int| 0 <= k < n implies a[k] == b[k] by {
                    assert(with_names(fields@, a)[k] == with_names(fields@, b)[k]);
                }
            }
            lemma_wires_of(a, style);
            let wires = wires_of(a, style);
            let named = with_names(fields@, a);
            assert(field_wires_of(named, style) =~= wires);
            match style {
                WireStyle::Named => {
                    assert(named_entries(names_of(named), field_wires_of(named, style)) =~= by_name(
                        field_names(fields@),
                        wires,
                    ));
                    lemma_named_entries_go_in_order(reg, witness, field_names(fields@), slots, wires, n, fuel);
                    lemma_named_entries_all_arrive(field_names(fields@), wires);
                },
                WireStyle::Positional => {},
            }
            lemma_stable_slots(reg, style, src, before, after, witness, slots, wires, n, fuel);
        },
    }
}

/// A run of values that two images hold alike is held by every blend of the
/// two, where the run is one that some image was filled with.
proof fn lemma_stable_slots(
    reg: Registry,
    style: WireStyle,
    src: Seq<u8>,
    before: Seq<u8>,
    after: Seq<u8>,
    witness: Seq<u8>,
    slots: Seq<Slot>,
    wires: Seq<WireView>,
    n: nat,
    fuel: nat,
)
    requires
        registry_suits(reg, style),
        blend(src, before, after),
        ser_slots(reg, src, slots, n, fuel) is Ok,
        ser_slots(reg, before, slots, n, fuel) == ser_slots(reg, src, slots, n, fuel),
        forall|i: int|
            0 <= i < n ==> #[trigger] wires[i] == wire_of(ser_at(reg, src, slots[i], fuel)->Ok_0, style),
        de_slots(reg, witness, slots, wires, n, fuel).error is None,
    ensures
        ser_slots(reg, after, slots, n, fuel) == ser_slots(reg, src, slots, n, fuel),
    decreases fuel, 1nat, n,
{
    if n > 0 {
        let k = (n - 1) as nat;
        let a = ser_slots(reg, src, slots, k, fuel)->Ok_0;
        let b = ser_slots(reg, before, slots, k, fuel)->Ok_0;
        let va = ser_at(reg, src, slots[n - 1], fuel)->Ok_0;
        let vb = ser_at(reg, before, slots[n - 1], fuel)->Ok_0;
        assert(a.push(va) == b.push(vb));
        assert(a =~= a.push(va).drop_last());
        assert(b =~= b.push(vb).drop_last());
        assert(va == a.push(va).last());
        assert(vb == b.push(vb).last());
        let mid = de_slots(reg, witness, slots, wires, k, fuel);
        assert(mid.error is None);
        lemma_stable_slots(reg, style, src, before, after, witness, slots, wires, k, fuel);
        lemma_stable_at(reg, style, src, before, after, mid.mem, slots[n - 1], fuel);
    }
}

/// A value at a slot that two images hold alike is held by every blend of
/// the two, where the value is one that some image was filled with.
proof fn lemma_stable_at(
    reg: Registry,
    style: WireStyle,
    src: Seq<u8>,
    before: Seq<u8>,
    after: Seq<u8>,
    witness: Seq<u8>,
    slot: Slot,
    fuel: nat,
)
    requires
        registry_suits(reg, style),
        blend(src, before, after),
        ser_at(reg, src, slot, fuel) is Ok,
        ser_at(reg, before, slot, fuel) == ser_at(reg, src, slot, fuel),
        de_at(reg, witness, slot, wire_of(ser_at(reg, src, slot, fuel)->Ok_0, style), fuel).error is None,
    ensures
        ser_at(reg, after, slot, fuel) == ser_at(reg, src, slot, fuel),
    decreases fuel, 0nat, 0nat,
{
    lemma_stable(reg, style, src, before, after, witness, reg.types[slot.type_id], slot.addr, (fuel - 1) as nat);
}

/// Whether filling `filled` from what `src` emitted came out as a round trip
/// may: it went through and left a blend, or it stopped on an indirection.
spec fn came_back(src: Seq<u8>, dst: Seq<u8>, filled: Outcome) -> bool {
    match filled.error {
        None => blend(src, dst, filled.mem),
        Some(e) => e == Error::Indirection,
    }
}

/// What was serialized comes back: the value of type `typ` at `addr`.
proof fn lemma_returns(
    reg: Registry,
    style: WireStyle,
    src: Seq<u8>,
    dst: Seq<u8>,
    typ: ReflectedType,
    addr: int,
    fuel: nat,
)
    requires
        registry_suits(reg, style),
        shape_suits(typ.shape, style),
        dst.len() >= src.len(),
        ser(reg, src, typ, addr, fuel) is Ok,
    ensures
        ({
            let e = ser(reg, src, typ, addr, fuel)->Ok_0;
            let o = de(reg, dst, typ, addr, wire_of(e, style), fuel);
            &&& came_back(src, dst, o)
            &&& o.error is None ==> ser(reg, o.mem, typ, addr, fuel) == ser(reg, src, typ, addr, fuel)
            &&& o.error is Some ==> is_indirection(typ.shape) || holds_indirection(reg)
        }),
    decreases fuel, 3nat, 0nat,
{
    let e = ser(reg, src, typ, addr, fuel)->Ok_0;
    if reg.leaves.contains(typ.id) {
        lemma_write_then_read(src, dst, addr, typ.layout.size as int);
    } else {
        match typ.shape {
            DataShape::Leaf(_) => {},
            DataShape::Builtin(kind) => {
                lemma_write_then_read(src, dst, addr, kind.width() as int);
            },
            DataShape::FixedArray(elem, len) => {
                let slots = array_slots(elem, len as nat, reg.types[elem].layout.stride(), addr);
                let items = ser_slots(reg, src, slots, len as nat, fuel)->Ok_0;
                lemma_ser_slots_elements(reg, src, slots, len as nat, fuel);
                lemma_wires_of(items, style);
                lemma_returns_slots(reg, style, src, dst, slots, wires_of(items, style), len as nat, fuel);
            },
            DataShape::Slice(_) => {},
            DataShape::Ref(_) => {},
            DataShape::Tuple(fields) => {
                let slots = tuple_slots(fields@, addr);
                let items = ser_slots(reg, src, slots, fields@.len(), fuel)->Ok_0;
                lemma_ser_slots_elements(reg, src, slots, fields@.len(), fuel);
                lemma_wires_of(items, style);
                lemma_returns_slots(reg, style, src, dst, slots, wires_of(items, style), fields@.len(), fuel);
            },
            DataShape::Newtype(inner) => {
                lemma_returns_at(reg, style, src, dst, Slot { type_id: inner, addr }, fuel);
            },
            DataShape::Struct(data) => {
                lemma_returns_data(reg, style, src, dst, data, addr, fuel);
            },
            DataShape::Enum { variants, .. } => {
                let tag = read_tag(src, addr)->0;
                let i = arm_position(variants@, tag)->0;
                let arm = variants@[i];
                lemma_first_true(arm_hits(variants@, tag));
                assert(arm.discriminant == tag);
                let d = ser_data(reg, src, arm.variant, addr, fuel)->Ok_0;
                lemma_arm_resolves(variants, style, i);
                lemma_tag_determines_bytes(src, addr);
                assert(read_bytes(src, addr, 2) == Some(tag_bytes(tag)));
                lemma_write_then_read(src, dst, addr, 2);
                let tagged = write_bytes(dst, addr, tag_bytes(tag));
                lemma_tag_round_trip(dst, addr, tag);
                lemma_returns_data(reg, style, src, tagged, arm.variant, addr, fuel);
                let o = de_data(reg, tagged, arm.variant, addr, wire_of_data(d, style), fuel);
                assert(de(reg, dst, typ, addr, wire_of(e, style), fuel) == o);
                if o.error is None {
                    lemma_blend_twice(src, dst, tagged, o.mem);
                    lemma_blend_keeps_tag(src, tagged, o.mem, addr);
                }
            },
        }
    }
}

/// What was serialized comes back: the fields of a struct or of a variant.
proof fn lemma_returns_data(
    reg: Registry,
    style: WireStyle,
    src: Seq<u8>,
    dst: Seq<u8>,
    data: VariantData,
    base: int,
    fuel: nat,
)
    requires
        registry_suits(reg, style),
        fields_suit(data, style),
        dst.len() >= src.len(),
        ser_data(reg, src, data, base, fuel) is Ok,
    ensures
        ({
            let d = ser_data(reg, src, data, base, fuel)->Ok_0;
            let o = de_data(reg, dst, data, base, wire_of_data(d, style), fuel);
            &&& came_back(src, dst, o)
            &&& o.error is None ==> ser_data(reg, o.mem, data, base, fuel) == ser_data(reg, src, data, base, fuel)
            &&& o.error is Some ==> holds_indirection(reg)
        }),
    decreases fuel, 2nat, 0nat,
{
    match data {
        VariantData::Unit => {
            assert(blend(src, dst, dst));
        },
        VariantData::Tuple(fields) => {
            let slots = tuple_slots(fields@, base);
            let items = ser_slots(reg, src, slots, fields@.len(), fuel)->Ok_0;
            lemma_ser_slots_elements(reg, src, slots, fields@.len(), fuel);
            lemma_wires_of(items, style);
            lemma_returns_slots(reg, style, src, dst, slots, wires_of(items, style), fields@.len(), fuel);
        },
        VariantData::Fields { fields, .. } => {
            let slots = named_slots(fields@, base);
            let n = fields@.len();
            let items = ser_slots(reg, src, slots, n, fuel)->Ok_0;
            let named = with_names(fields@, items);
            lemma_ser_slots_elements(reg, src, slots, n, fuel);
            lemma_wires_of(items, style);
            let wires = wires_of(items, style);
            assert(field_wires_of(named, style) =~= wires);
            lemma_returns_slots(reg, style, src, dst, slots, wires, n, fuel);
            match style {
                WireStyle::Named => {
                    assert(named_entries(names_of(named), field_wires_of(named, style)) =~= by_name(
                        field_names(fields@),
                        wires,
                    ));
                    lemma_named_entries_go_in_order(reg, dst, field_names(fields@), slots, wires, n, fuel);
                    lemma_named_entries_all_arrive(field_names(fields@), wires);
                },
                WireStyle::Positional => {},
            }
        },
    }
}

/// What was serialized comes back: the first `n` of a run of slots, where
/// `wires` holds the wire form of what each slot emitted.
proof fn lemma_returns_slots(
    reg: Registry,
    style: WireStyle,
    src: Seq<u8>,
    dst: Seq<u8>,
    slots: Seq<Slot>,
    wires: Seq<WireView>,
    n: nat,
    fuel: nat,
)
    requires
        registry_suits(reg, style),
        dst.len() >= src.len(),
        ser_slots(reg, src, slots, n, fuel) is Ok,
        forall|i: int|
            0 <= i < n ==> #[trigger] wires[i] == wire_of(ser_at(reg, src, slots[i], fuel)->Ok_0, style),
    ensures
        ({
            let o = de_slots(reg, dst, slots, wires, n, fuel);
            &&& came_back(src, dst, o)
            &&& o.error is None ==> ser_slots(reg, o.mem, slots, n, fuel) == ser_slots(reg, src, slots, n, fuel)
            &&& o.error is Some ==> holds_indirection(reg)
        }),
    decreases fuel, 1nat, n,
{
    if n == 0 {
        assert(blend(src, dst, dst));
    } else {
        let k = (n - 1) as nat;
        lemma_ser_slots_elements(reg, src, slots, n, fuel);
        assert(ser_slots(reg, src, slots, k, fuel) is Ok);
        lemma_returns_slots(reg, style, src, dst, slots, wires, k, fuel);
        let mid = de_slots(reg, dst, slots, wires, k, fuel);
        if mid.error is None {
            assert(ser_at(reg, src, slots[n - 1], fuel) is Ok);
            lemma_returns_at(reg, style, src, mid.mem, slots[n - 1], fuel);
            let o = de_at(reg, mid.mem, slots[n - 1], wires[n - 1], fuel);
            assert(o == de_slots(reg, dst, slots, wires, n, fuel));
            if o.error is None {
                lemma_blend_twice(src, dst, mid.mem, o.mem);
                lemma_stable_slots(reg, style, src, mid.mem, o.mem, dst, slots, wires, k, fuel);
            }
        }
    }
}

/// What was serialized comes back: the value at a slot.
proof fn lemma_returns_at(
    reg: Registry,
    style: WireStyle,
    src: Seq<u8>,
    dst: Seq<u8>,
    slot: Slot,
    fuel: nat,
)
    requires
        registry_suits(reg, style),
        dst.len() >= src.len(),
        ser_at(reg, src, slot, fuel) is Ok,
    ensures
        ({
            let e = ser_at(reg, src, slot, fuel)->Ok_0;
            let o = de_at(reg, dst, slot, wire_of(e, style), fuel);
            &&& came_back(src, dst, o)
            &&& o.error is None ==> ser_at(reg, o.mem, slot, fuel) == ser_at(reg, src, slot, fuel)
            &&& o.error is Some ==> holds_indirection(reg)
        }),
    decreases fuel, 0nat, 0nat,
{
    lemma_returns(reg, style, src, dst, reg.types[slot.type_id], slot.addr, (fuel - 1) as nat);
}

/// The round trip: what serializing a value emitted, presented by a format
/// of either style, fills any image that is no shorter with a value that
/// serializes to the same again.
///
/// This holds of every registry and descriptor whose fields and variants the
/// format tells apart: see [`shape_suits`]. Nothing can be read into an
/// indirection: where the type is one or the registry holds one, filling may
/// stop there instead, and on nothing else does it stop.
pub proof fn lemma_round_trip(
    reg: Registry,
    style: WireStyle,
    src: Seq<u8>,
    dst: Seq<u8>,
    typ: ReflectedType,
    addr: int,
    fuel: nat,
)
    requires
        registry_suits(reg, style),
        shape_suits(typ.shape, style),
        dst.len() >= src.len(),
        ser(reg, src, typ, addr, fuel) is Ok,
    ensures
        ({
            let emitted = ser(reg, src, typ, addr, fuel)->Ok_0;
            let filled = de(reg, dst, typ, addr, wire_of(emitted, style), fuel);
            if filled.error is None {
                ser(reg, filled.mem, typ, addr, fuel) == Ok::<EmittedView, Error>(emitted)
            } else {
                filled.error == Some(Error::Indirection) && (is_indirection(typ.shape) || holds_indirection(reg))
            }
        }),
{
    lemma_returns(reg, style, src, dst, typ, addr, fuel);
}

/// The round trip through the database: what [`crate::Db::serialize`] emits
/// for a value of a registered type, presented by a format of either style,
/// is what [`crate::Db::deserialize`] fills a fresh image from, and the value
/// in that image serializes to the same again. Where the registry holds an
/// indirection, filling may stop there instead.
pub proof fn lemma_db_round_trip(reg: Registry, style: WireStyle, val: Seq<u8>, id: TypeKey)
    requires
        registry_suits(reg, style),
        reg.types.contains_key(id),
        val.len() <= reg.types[id].layout.size,
        ser(reg, val, reg.types[id], 0, MAX_DEPTH as nat) is Ok,
    ensures
        ({
            let typ = reg.types[id];
            let emitted = ser(reg, val, typ, 0, MAX_DEPTH as nat)->Ok_0;
            let filled = de(reg, blank(typ.layout.size as nat), typ, 0, wire_of(emitted, style), MAX_DEPTH as nat);
            if filled.error is None {
                ser(reg, filled.mem, typ, 0, MAX_DEPTH as nat) == Ok::<EmittedView, Error>(emitted)
            } else {
                filled.error == Some(Error::Indirection) && holds_indirection(reg)
            }
        }),
{
    let typ = reg.types[id];
    lemma_round_trip(reg, style, val, blank(typ.layout.size as nat), typ, 0, MAX_DEPTH as nat);
}

} // verus!
