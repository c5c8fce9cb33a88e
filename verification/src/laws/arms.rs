//! What holds of the arms of an enum: serialization goes by the tag that is
//! stored, and deserialization stores the tag of the arm that the wire names.

use vstd::prelude::*;
use vstd::utf8::encode_utf8;
use crate::de::{de_data, de_enum};
use crate::ident::{arm_named, index_hits, label_bytes_hits, label_hits};
use crate::location::{lemma_tag_round_trip, read_tag, tag_bytes, write_bytes};
use crate::metadata::{
    arm_hits, arm_position, ascending, lemma_first_true, DataShape, EnumArm, EnumArms,
    ReflectedType,
};
use crate::registry::Registry;
use crate::ser::{ser, ser_data};
use crate::wire::{EmittedView, Error, IdentView, WireView};


verus! {

/// Among ascending arms, the arm found for a tag is the one arm that has the
/// tag for its discriminant, and none is found where no arm has it.
pub proof fn lemma_arm_of_tag(arms: Seq<EnumArm>, tag: u16)
    requires
        ascending(arms),
    ensures
        forall|i: int|
            0 <= i < arms.len() && (#[trigger] arms[i]).discriminant == tag ==> arm_position(arms, tag) == Some(i),
        arm_position(arms, tag) is None ==> forall|i: int|
            0 <= i < arms.len() ==> (#[trigger] arms[i]).discriminant != tag,
{
    let hits = arm_hits(arms, tag);
    lemma_first_true(hits);
    assert forall|i: int| 0 <= i < arms.len() && (#[trigger] arms[i]).discriminant == tag implies arm_position(
        arms,
        tag,
    ) == Some(i) by {
        assert(hits[i]);
        let found = arm_position(arms, tag)->0;
        assert(hits[found]);
        if found < i {
            assert(arms[found].discriminant < arms[i].discriminant);
        }
    }
    assert forall|i: int| arm_position(arms, tag) is None && 0 <= i < arms.len() implies (#[trigger] arms[i]).discriminant
        != tag by {
        assert(!hits[i]);
    }
}

/// Serialization goes by the tag that is stored: an enum value whose tag is
/// the discriminant of an arm is emitted as that arm, with the arm's index
/// and label, whatever the discriminants of the other arms are.
pub proof fn lemma_serialize_selects_arm_of_tag(
    reg: Registry,
    mem: Seq<u8>,
    typ: ReflectedType,
    addr: int,
    i: int,
    fuel: nat,
)
    requires
        typ.shape matches DataShape::Enum { variants, .. } && ascending(variants@) && 0 <= i < variants@.len()
            && read_tag(mem, addr) == Some(variants@[i].discriminant),
        !reg.leaves.contains(typ.id),
        0 <= addr <= mem.len(),
    ensures
        ser(reg, mem, typ, addr, fuel) == match ser_data(
            reg,
            mem,
            (typ.shape->variants)@[i].variant,
            addr,
            fuel,
        ) {
            Ok(d) => Ok(
                EmittedView::Variant {
                    name: typ.name@,
                    variant_index: (typ.shape->variants)@[i].variant_index as u32,
                    label: (typ.shape->variants)@[i].label@,
                    data: d,
                },
            ),
            Err(e) => Err(e),
        },
{
    lemma_arm_of_tag((typ.shape->variants)@, (typ.shape->variants)@[i].discriminant);
}

/// A tag that is the discriminant of no arm is a hard error.
pub proof fn lemma_serialize_rejects_unknown_tag(
    reg: Registry,
    mem: Seq<u8>,
    typ: ReflectedType,
    addr: int,
    tag: u16,
    fuel: nat,
)
    requires
        typ.shape matches DataShape::Enum { variants, .. } && read_tag(mem, addr) == Some(tag) && forall|i: int|
            0 <= i < variants@.len() ==> (#[trigger] variants@[i]).discriminant != tag,
        !reg.leaves.contains(typ.id),
        0 <= addr <= mem.len(),
    ensures
        ser(reg, mem, typ, addr, fuel) == Err::<EmittedView, Error>(Error::UnknownDiscriminant(tag)),
{
    let hits = arm_hits((typ.shape->variants)@, tag);
    lemma_first_true(hits);
    if arm_position((typ.shape->variants)@, tag) is Some {
        let found = arm_position((typ.shape->variants)@, tag)->0;
        assert(hits[found]);
        assert((typ.shape->variants)@[found].discriminant != tag);
    }
}

/// Deserialization stores the discriminant of the arm that the wire names,
/// and stores it before it fills any field: the fields are filled into an
/// image from which exactly that discriminant is read.
pub proof fn lemma_deserialize_stores_discriminant_first(
    reg: Registry,
    mem: Seq<u8>,
    variants: EnumArms,
    addr: int,
    ident: IdentView,
    payload: WireView,
    fuel: nat,
)
    requires
        arm_named(variants@, ident) is Some,
        0 <= addr,
        addr + 2 <= mem.len(),
    ensures
        ({
            let arm = variants@[arm_named(variants@, ident)->0];
            let tagged = write_bytes(mem, addr, tag_bytes(arm.discriminant));
            &&& read_tag(tagged, addr) == Some(arm.discriminant)
            &&& de_enum(reg, mem, variants, addr, ident, payload, fuel) == de_data(
                reg,
                tagged,
                arm.variant,
                addr,
                payload,
                fuel,
            )
        }),
{
    let arm = variants@[arm_named(variants@, ident)->0];
    lemma_tag_round_trip(mem, addr, arm.discriminant);
}

/// An index stands for the arm that was declared at that index, wherever
/// that arm is held, and a name for the arm so labelled.
pub proof fn lemma_identifier_names_its_arm(arms: Seq<EnumArm>, ident: IdentView)
    ensures
        match arm_named(arms, ident) {
            Some(i) => 0 <= i < arms.len() && match ident {
                IdentView::Index(v) => arms[i].variant_index == v,
                IdentView::Name(name) => arms[i].label@ == name,
                IdentView::Bytes(bytes) => encode_utf8(arms[i].label@) == bytes,
            },
            None => forall|i: int|
                0 <= i < arms.len() ==> match ident {
                    IdentView::Index(v) => (#[trigger] arms[i]).variant_index != v,
                    IdentView::Name(name) => arms[i].label@ != name,
                    IdentView::Bytes(bytes) => encode_utf8(arms[i].label@) != bytes,
                },
        },
{
    match ident {
        IdentView::Index(v) => {
            let hits = index_hits(arms, v);
            lemma_first_true(hits);
            assert forall|i: int| arm_named(arms, ident) is None && 0 <= i < arms.len() implies (#[trigger] arms[i]).variant_index
                != v by {
                assert(!hits[i]);
            }
        },
        IdentView::Name(name) => {
            let hits = label_hits(arms, name);
            lemma_first_true(hits);
            assert forall|i: int| arm_named(arms, ident) is None && 0 <= i < arms.len() implies (#[trigger] arms[i]).label@
                != name by {
                assert(!hits[i]);
            }
        },
        IdentView::Bytes(bytes) => {
            let hits = label_bytes_hits(arms, bytes);
            lemma_first_true(hits);
            assert forall|i: int| arm_named(arms, ident) is None && 0 <= i < arms.len() implies encode_utf8(
                (#[trigger] arms[i]).label@,
            ) != bytes by {
                assert(!hits[i]);
            }
        },
    }
}

} // verus!
