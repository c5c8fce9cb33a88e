//! The deserializer engine.
//!
//! The dual of the serializer: given a write location, the registry and what
//! a format presents, the engine fills the memory image field by field. The
//! first failure ends the walk, and what was written until then stays
//! written. Success means that every part of the value received what was
//! meant for it: a sequence holds one element for each field, and a map an
//! entry for each field.

use vstd::prelude::*;
use crate::ident::{arm_named, field_names, resolve, FieldIx, VariantIx};
use crate::location::{
    array_slots, blank, copy_in, named_slots, tag_bytes, tuple_slots, write_bytes, Slot, Slots,
    TypedOutputLocation,
};
use crate::metadata::{
    DataShape, EnumArms, Field, ReflectedType, RustBuiltin, TupleField, TypeKey, VariantData,
};
use crate::registry::{Db, Registry};
use crate::ser::MAX_DEPTH;
use crate::wire::{wire_entry_views, wire_views, Error, IdentView, Wire, WireIdent, WireView};

verus! {

/// How a deserialization ended, and what the memory image then holds.
pub ghost struct Outcome {
    /// what the memory image holds at the end
    pub mem: Seq<u8>,
    /// the failure that ended the walk, if one did
    pub error: Option<Error>,
}

/// The walk went through and left the image as `mem`.
pub open spec fn done(mem: Seq<u8>) -> Outcome {
    Outcome { mem, error: None }
}

/// The walk stopped on `e` and left the image as `mem`.
pub open spec fn failed(mem: Seq<u8>, e: Error) -> Outcome {
    Outcome { mem, error: Some(e) }
}

/// Writing one opaque or builtin value of `size` bytes to `addr`.
pub open spec fn de_scalar(mem: Seq<u8>, addr: int, size: nat, wire: WireView) -> Outcome {
    match wire {
        WireView::Scalar(bytes) => if bytes.len() != size {
            failed(mem, Error::InvalidLength)
        } else if addr + size > mem.len() {
            failed(mem, Error::OutOfBounds)
        } else {
            done(write_bytes(mem, addr, bytes))
        },
        _ => failed(mem, Error::InvalidType),
    }
}

/// Filling the value of type `typ` at `addr` from `wire`.
///
/// A registered leaf routine takes precedence over the shape. `fuel` is the
/// number of nested types that may still be entered.
pub open spec fn de(reg: Registry, mem: Seq<u8>, typ: ReflectedType, addr: int, wire: WireView, fuel: nat) -> Outcome
    decreases fuel, 4nat, 0nat,
{
    if addr < 0 || addr > mem.len() {
        failed(mem, Error::OutOfBounds)
    } else if reg.leaves.contains(typ.id) {
        de_scalar(mem, addr, typ.layout.size as nat, wire)
    } else {
        match typ.shape {
            DataShape::Leaf(_) => failed(mem, Error::UnknownLeaf(typ.id)),
            DataShape::Builtin(kind) => de_scalar(mem, addr, kind.width(), wire),
            DataShape::FixedArray(elem, len) => match wire {
                WireView::Sequence(items) => if !reg.types.contains_key(elem) {
                    failed(mem, Error::UnknownType(elem))
                } else {
                    de_seq(
                        reg,
                        mem,
                        array_slots(elem, len as nat, reg.types[elem].layout.stride(), addr),
                        items,
                        fuel,
                    )
                },
                _ => failed(mem, Error::InvalidType),
            },
            DataShape::Slice(_) => failed(mem, Error::Indirection),
            DataShape::Ref(_) => failed(mem, Error::Indirection),
            DataShape::Tuple(fields) => match wire {
                WireView::Sequence(items) => de_seq(reg, mem, tuple_slots(fields@, addr), items, fuel),
                _ => failed(mem, Error::InvalidType),
            },
            DataShape::Newtype(inner) => match wire {
                WireView::Newtype(w) => de_at(reg, mem, Slot { type_id: inner, addr }, *w, fuel),
                _ => failed(mem, Error::InvalidType),
            },
            DataShape::Struct(data) => de_data(reg, mem, data, addr, wire, fuel),
            DataShape::Enum { variants, .. } => match wire {
                WireView::Variant { ident, payload } => de_enum(reg, mem, variants, addr, ident, *payload, fuel),
                _ => failed(mem, Error::InvalidType),
            },
        }
    }
}

/// Filling an enum value at `addr`: the variant's identifier is resolved to
/// the arm declared at that index or labelled by that name, the arm's
/// discriminant is stored at the base, and only then are the arm's fields
/// filled, at their offsets from the same base.
pub open spec fn de_enum(
    reg: Registry,
    mem: Seq<u8>,
    variants: EnumArms,
    addr: int,
    ident: IdentView,
    payload: WireView,
    fuel: nat,
) -> Outcome
    decreases fuel, 3nat, 1nat,
{
    match arm_named(variants@, ident) {
        None => failed(mem, Error::UnknownVariant),
        Some(ix) => if addr + 2 > mem.len() {
            failed(mem, Error::OutOfBounds)
        } else {
            de_data(
                reg,
                write_bytes(mem, addr, tag_bytes(variants@[ix].discriminant)),
                variants@[ix].variant,
                addr,
                payload,
                fuel,
            )
        },
    }
}

/// Filling the fields of a struct or of an enum variant. The offsets of the
/// fields count from `base`.
pub open spec fn de_data(reg: Registry, mem: Seq<u8>, data: VariantData, base: int, wire: WireView, fuel: nat) -> Outcome
    decreases fuel, 3nat, 0nat,
{
    match data {
        VariantData::Unit => match wire {
            WireView::Unit => done(mem),
            _ => failed(mem, Error::InvalidType),
        },
        VariantData::Tuple(fields) => match wire {
            WireView::Sequence(items) => de_seq(reg, mem, tuple_slots(fields@, base), items, fuel),
            _ => failed(mem, Error::InvalidType),
        },
        VariantData::Fields { fields, .. } => match wire {
            WireView::Mapping(entries) => de_map(
                reg,
                mem,
                field_names(fields@),
                named_slots(fields@, base),
                entries,
                fuel,
            ),
            WireView::Sequence(items) => de_seq(reg, mem, named_slots(fields@, base), items, fuel),
            _ => failed(mem, Error::InvalidType),
        },
    }
}

/// Filling the slots from a sequence: one element for each slot, in order.
pub open spec fn de_seq(reg: Registry, mem: Seq<u8>, slots: Seq<Slot>, items: Seq<WireView>, fuel: nat) -> Outcome
    decreases fuel, 2nat, 0nat,
{
    if items.len() != slots.len() {
        failed(mem, Error::InvalidLength)
    } else {
        de_slots(reg, mem, slots, items, slots.len(), fuel)
    }
}

/// Whether one of the first `n` entries of a map is for the field at place
/// `i`.
pub open spec fn arrives(
    names: Seq<String>,
    count: nat,
    entries: Seq<(IdentView, WireView)>,
    n: nat,
    i: int,
) -> bool {
    exists|k: int| 0 <= k < n && resolve(names, count, (#[trigger] entries[k]).0) == Some(i)
}

/// Whether the map holds an entry for each of the `count` fields.
pub open spec fn all_arrive(names: Seq<String>, count: nat, entries: Seq<(IdentView, WireView)>) -> bool {
    forall|i: int| 0 <= i < count ==> arrives(names, count, entries, entries.len(), i)
}

/// Filling the slots from a map. The entries go in as they arrive, and when
/// the map has ended every field must have received a value: a field left
/// out is a `MissingField`.
pub open spec fn de_map(
    reg: Registry,
    mem: Seq<u8>,
    names: Seq<String>,
    slots: Seq<Slot>,
    entries: Seq<(IdentView, WireView)>,
    fuel: nat,
) -> Outcome
    decreases fuel, 2nat, 0nat,
{
    let filled = de_entries(reg, mem, names, slots, entries, entries.len(), fuel);
    if filled.error is Some {
        filled
    } else if !all_arrive(names, slots.len(), entries) {
        failed(filled.mem, Error::MissingField)
    } else {
        filled
    }
}

/// Filling the first `n` of `slots`, slot `i` from element `i`.
pub open spec fn de_slots(reg: Registry, mem: Seq<u8>, slots: Seq<Slot>, items: Seq<WireView>, n: nat, fuel: nat) -> Outcome
    decreases fuel, 1nat, n,
{
    if n == 0 {
        done(mem)
    } else {
        let before = de_slots(reg, mem, slots, items, (n - 1) as nat, fuel);
        if before.error is Some {
            before
        } else {
            de_at(reg, before.mem, slots[n - 1], items[n - 1], fuel)
        }
    }
}

/// Filling slots from the first `n` entries of a map, in the order of
/// arrival: each key is resolved to a slot, and the value goes there.
pub open spec fn de_entries(
    reg: Registry,
    mem: Seq<u8>,
    names: Seq<String>,
    slots: Seq<Slot>,
    entries: Seq<(IdentView, WireView)>,
    n: nat,
    fuel: nat,
) -> Outcome
    decreases fuel, 1nat, n,
{
    if n == 0 {
        done(mem)
    } else {
        let before = de_entries(reg, mem, names, slots, entries, (n - 1) as nat, fuel);
        if before.error is Some {
            before
        } else {
            match resolve(names, slots.len(), entries[n - 1].0) {
                None => failed(before.mem, Error::UnknownField),
                Some(ix) => de_at(reg, before.mem, slots[ix], entries[n - 1].1, fuel),
            }
        }
    }
}

/// Filling the value at a slot: the slot's type is looked up, and its value
/// is entered with one unit of fuel less.
pub open spec fn de_at(reg: Registry, mem: Seq<u8>, slot: Slot, wire: WireView, fuel: nat) -> Outcome
    decreases fuel, 0nat, 0nat,
{
    if slot.addr < 0 || slot.addr > mem.len() {
        failed(mem, Error::OutOfBounds)
    } else if !reg.types.contains_key(slot.type_id) {
        failed(mem, Error::UnknownType(slot.type_id))
    } else if fuel == 0 {
        failed(mem, Error::DepthExceeded)
    } else {
        de(reg, mem, reg.types[slot.type_id], slot.addr, wire, (fuel - 1) as nat)
    }
}

/// Once a slot has failed, the walk over any longer run of slots ends alike.
pub proof fn lemma_de_slots_failure_stays(
    reg: Registry,
    mem: Seq<u8>,
    slots: Seq<Slot>,
    items: Seq<WireView>,
    n: nat,
    m: nat,
    fuel: nat,
)
    requires
        n <= m,
        de_slots(reg, mem, slots, items, n, fuel).error is Some,
    ensures
        de_slots(reg, mem, slots, items, m, fuel) == de_slots(reg, mem, slots, items, n, fuel),
    decreases m,
{
    if n < m {
        lemma_de_slots_failure_stays(reg, mem, slots, items, n, (m - 1) as nat, fuel);
    }
}

/// Once an entry has failed, the walk over any longer run of entries ends alike.
pub proof fn lemma_de_entries_failure_stays(
    reg: Registry,
    mem: Seq<u8>,
    names: Seq<String>,
    slots: Seq<Slot>,
    entries: Seq<(IdentView, WireView)>,
    n: nat,
    m: nat,
    fuel: nat,
)
    requires
        n <= m,
        de_entries(reg, mem, names, slots, entries, n, fuel).error is Some,
    ensures
        de_entries(reg, mem, names, slots, entries, m, fuel) == de_entries(reg, mem, names, slots, entries, n, fuel),
    decreases m,
{
    if n < m {
        lemma_de_entries_failure_stays(reg, mem, names, slots, entries, n, (m - 1) as nat, fuel);
    }
}

/// Filling keeps the length of the image, however it ends.
pub proof fn lemma_de_keeps_len(
    reg: Registry,
    mem: Seq<u8>,
    typ: ReflectedType,
    addr: int,
    wire: WireView,
    fuel: nat,
)
    ensures
        de(reg, mem, typ, addr, wire, fuel).mem.len() == mem.len(),
    decreases fuel, 4nat, 0nat,
{
    if !(addr < 0 || addr > mem.len()) && !reg.leaves.contains(typ.id) {
        match typ.shape {
            DataShape::FixedArray(elem, len) => {
                match wire {
                    WireView::Sequence(items) => {
                        if reg.types.contains_key(elem) {
                            lemma_de_slots_keep_len(
                                reg,
                                mem,
                                array_slots(elem, len as nat, reg.types[elem].layout.stride(), addr),
                                items,
                                len as nat,
                                fuel,
                            );
                        }
                    },
                    _ => {},
                }
            },
            DataShape::Tuple(fields) => {
                match wire {
                    WireView::Sequence(items) => {
                        lemma_de_slots_keep_len(reg, mem, tuple_slots(fields@, addr), items, fields@.len(), fuel);
                    },
                    _ => {},
                }
            },
            DataShape::Newtype(inner) => {
                match wire {
                    WireView::Newtype(w) => {
                        lemma_de_at_keeps_len(reg, mem, Slot { type_id: inner, addr }, *w, fuel);
                    },
                    _ => {},
                }
            },
            DataShape::Struct(data) => {
                lemma_de_data_keeps_len(reg, mem, data, addr, wire, fuel);
            },
            DataShape::Enum { variants, .. } => {
                match wire {
                    WireView::Variant { ident, payload } => {
                        match arm_named(variants@, ident) {
                            Some(ix) => {
                                lemma_de_data_keeps_len(
                                    reg,
                                    write_bytes(mem, addr, tag_bytes(variants@[ix].discriminant)),
                                    variants@[ix].variant,
                                    addr,
                                    *payload,
                                    fuel,
                                );
                            },
                            None => {},
                        }
                    },
                    _ => {},
                }
            },
            _ => {},
        }
    }
}

/// Filling fields keeps the length of the image, however it ends.
pub proof fn lemma_de_data_keeps_len(
    reg: Registry,
    mem: Seq<u8>,
    data: VariantData,
    base: int,
    wire: WireView,
    fuel: nat,
)
    ensures
        de_data(reg, mem, data, base, wire, fuel).mem.len() == mem.len(),
    decreases fuel, 3nat, 0nat,
{
    match data {
        VariantData::Unit => {},
        VariantData::Tuple(fields) => {
            match wire {
                WireView::Sequence(items) => {
                    lemma_de_slots_keep_len(reg, mem, tuple_slots(fields@, base), items, fields@.len(), fuel);
                },
                _ => {},
            }
        },
        VariantData::Fields { fields, .. } => {
            match wire {
                WireView::Mapping(entries) => {
                    lemma_de_entries_keep_len(
                        reg,
                        mem,
                        field_names(fields@),
                        named_slots(fields@, base),
                        entries,
                        entries.len(),
                        fuel,
                    );
                },
                WireView::Sequence(items) => {
                    lemma_de_slots_keep_len(reg, mem, named_slots(fields@, base), items, fields@.len(), fuel);
                },
                _ => {},
            }
        },
    }
}

/// Filling a run of slots keeps the length of the image, however it ends.
pub proof fn lemma_de_slots_keep_len(
    reg: Registry,
    mem: Seq<u8>,
    slots: Seq<Slot>,
    items: Seq<WireView>,
    n: nat,
    fuel: nat,
)
    ensures
        de_slots(reg, mem, slots, items, n, fuel).mem.len() == mem.len(),
    decreases fuel, 1nat, n,
{
    if n > 0 {
        lemma_de_slots_keep_len(reg, mem, slots, items, (n - 1) as nat, fuel);
        let before = de_slots(reg, mem, slots, items, (n - 1) as nat, fuel);
        lemma_de_at_keeps_len(reg, before.mem, slots[n - 1], items[n - 1], fuel);
    }
}

/// Filling from map entries keeps the length of the image, however it ends.
pub proof fn lemma_de_entries_keep_len(
    reg: Registry,
    mem: Seq<u8>,
    names: Seq<String>,
    slots: Seq<Slot>,
    entries: Seq<(IdentView, WireView)>,
    n: nat,
    fuel: nat,
)
    ensures
        de_entries(reg, mem, names, slots, entries, n, fuel).mem.len() == mem.len(),
    decreases fuel, 1nat, n,
{
    if n > 0 {
        lemma_de_entries_keep_len(reg, mem, names, slots, entries, (n - 1) as nat, fuel);
        let before = de_entries(reg, mem, names, slots, entries, (n - 1) as nat, fuel);
        match resolve(names, slots.len(), entries[n - 1].0) {
            Some(ix) => {
                lemma_de_at_keeps_len(reg, before.mem, slots[ix], entries[n - 1].1, fuel);
            },
            None => {},
        }
    }
}

/// Filling the value at a slot keeps the length of the image, however it
/// ends.
pub proof fn lemma_de_at_keeps_len(reg: Registry, mem: Seq<u8>, slot: Slot, wire: WireView, fuel: nat)
    ensures
        de_at(reg, mem, slot, wire, fuel).mem.len() == mem.len(),
    decreases fuel, 0nat, 0nat,
{
    if reg.types.contains_key(slot.type_id) && fuel > 0 {
        lemma_de_keeps_len(reg, mem, reg.types[slot.type_id], slot.addr, wire, (fuel - 1) as nat);
    }
}

/// Whether a result and the image left behind are what the model names.
pub open spec fn outcome_is(r: Result<(), Error>, after: Seq<u8>, model: Outcome) -> bool {
    &&& after == model.mem
    &&& match r {
        Ok(_) => model.error is None,
        Err(e) => model.error == Some(e),
    }
}

/// What a format is asked for when a value of some type is to be filled:
/// the kind of value that the deserializer engine will take for it.
#[allow(inconsistent_fields)]
#[derive(Debug, PartialEq, Eq)]
pub enum Request<'a> {
    /// one opaque value, through the routine registered for the type
    Leaf(TypeKey),
    /// one builtin value
    Builtin(RustBuiltin),
    /// a tuple of as many elements as there are fields
    Tuple { fields: &'a Vec<TupleField> },
    /// a tuple of `len` elements of one type
    Array { elem: TypeKey, len: usize },
    /// a newtype struct of the given name
    Newtype { name: &'a String, inner: TypeKey },
    /// a unit struct of the given name
    UnitStruct { name: &'a String },
    /// a tuple struct of the given name
    TupleStruct { name: &'a String, fields: &'a Vec<TupleField> },
    /// a struct of the given name, whose fields go by the given labels
    Struct { name: &'a String, labels: &'a Vec<String>, fields: &'a Vec<Field> },
    /// an enum of the given name, whose variants go by the given labels
    Enum { name: &'a String, labels: &'a Vec<String>, variants: &'a EnumArms },
    /// nothing: the type is an indirection, which nothing can be read into
    Indirection,
}

/// The request that stands for a type. A type registered as a leaf is asked
/// for as a leaf, whatever its shape.
pub open spec fn request_of<'a>(reg: Registry, typ: &'a ReflectedType) -> Request<'a> {
    if reg.leaves.contains(typ.id) {
        Request::Leaf(typ.id)
    } else {
        match &typ.shape {
            DataShape::Leaf(_) => Request::Leaf(typ.id),
            DataShape::Builtin(kind) => Request::Builtin(*kind),
            DataShape::FixedArray(elem, len) => Request::Array { elem: *elem, len: *len },
            DataShape::Slice(_) => Request::Indirection,
            DataShape::Ref(_) => Request::Indirection,
            DataShape::Tuple(fields) => Request::Tuple { fields },
            DataShape::Newtype(inner) => Request::Newtype { name: &typ.name, inner: *inner },
            DataShape::Struct(VariantData::Unit) => Request::UnitStruct { name: &typ.name },
            DataShape::Struct(VariantData::Tuple(fields)) => Request::TupleStruct { name: &typ.name, fields },
            DataShape::Struct(VariantData::Fields { labels_for_serde, fields }) => Request::Struct {
                name: &typ.name,
                labels: labels_for_serde,
                fields,
            },
            DataShape::Enum { variant_labels_for_serde, variants } => Request::Enum {
                name: &typ.name,
                labels: variant_labels_for_serde,
                variants,
            },
        }
    }
}

/// Fills a value in memory via reflection: a registry, and the location to
/// fill. You're better off using [`Db::deserialize`].
pub struct Deserialize<'a> {
    pub db: &'a Db,
    pub location: TypedOutputLocation<'a>,
}

impl<'a> Deserialize<'a> {
    /// Fills the location from `src`, entering at most `depth` nested types.
    pub fn deserialize(&self, mem: &mut Vec<u8>, src: &Wire, depth: usize) -> (r: Result<(), Error>)
        ensures
            outcome_is(
                r,
                final(mem)@,
                de(self.db@, old(mem)@, *self.location.typ, self.location.ptr as int, src@, depth as nat),
            ),
        decreases depth, 4nat, 0nat,
    {
        let db = self.db;
        let typ = self.location.typ;
        let addr = self.location.ptr;
        if addr > mem.len() {
            return Err(Error::OutOfBounds);
        }
        if db.is_leaf(typ.id) {
            return db.deserialize_leaf(mem, &self.location, src);
        }
        match &typ.shape {
            DataShape::Leaf(_) => db.deserialize_leaf(mem, &self.location, src),
            DataShape::Builtin(kind) => fill_scalar(mem, addr, kind.size(), src),
            DataShape::FixedArray(elem, len) => match src {
                Wire::Sequence(items) => {
                    proof {
                        Wire::lemma_view_seq(*items);
                    }
                    let each = match db.type_layout(*elem) {
                        Ok(typ) => typ.layout,
                        Err(e) => {
                            return Err(e);
                        },
                    };
                    db.visit_seq(mem, &Slots::Array { elem: *elem, len: *len, each }, addr, items, depth)
                },
                _ => Err(Error::InvalidType),
            },
            DataShape::Slice(_) => Err(Error::Indirection),
            DataShape::Ref(_) => Err(Error::Indirection),
            DataShape::Tuple(fields) => match src {
                Wire::Sequence(items) => {
                    proof {
                        Wire::lemma_view_seq(*items);
                    }
                    db.visit_seq(mem, &Slots::Tuple(fields), addr, items, depth)
                },
                _ => Err(Error::InvalidType),
            },
            DataShape::Newtype(inner) => match src {
                Wire::Newtype(w) => db.visit_newtype_struct(mem, *inner, addr, w, depth),
                _ => Err(Error::InvalidType),
            },
            DataShape::Struct(data) => db.deserialize_data(mem, data, addr, src, depth),
            DataShape::Enum { variants, .. } => match src {
                Wire::Variant { ident, payload } => self.visit_enum(mem, variants, ident, payload, depth),
                _ => Err(Error::InvalidType),
            },
        }
    }

    /// Fills the enum value at the location, as the arm that the identifier
    /// stands for: the arm declared at that index, or labelled by that name.
    /// The arm's discriminant is stored before
    /// any of its fields is filled, so that a failure among the fields still
    /// leaves a discriminant that can be read.
    pub fn visit_enum(
        &self,
        mem: &mut Vec<u8>,
        variants: &EnumArms,
        ident: &WireIdent,
        payload: &Wire,
        depth: usize,
    ) -> (r: Result<(), Error>)
        ensures
            outcome_is(
                r,
                final(mem)@,
                de_enum(
                    self.db@,
                    old(mem)@,
                    *variants,
                    self.location.ptr as int,
                    ident@,
                    payload@,
                    depth as nat,
                ),
            ),
        decreases depth, 3nat, 1nat,
    {
        let ix = match (VariantIx { variants }).deserialize(ident) {
            Ok(ix) => ix,
            Err(e) => {
                return Err(e);
            },
        };
        let arm = variants.get(ix);
        match self.location.write_discriminant(mem, arm.discriminant) {
            Ok(()) => {},
            Err(e) => {
                return Err(e);
            },
        }
        self.db.deserialize_data(mem, &arm.variant, self.location.ptr, payload, depth)
    }
}

/// Writes one opaque or builtin value of `size` bytes to `addr`.
pub fn fill_scalar(mem: &mut Vec<u8>, addr: usize, size: usize, src: &Wire) -> (r: Result<(), Error>)
    ensures
        outcome_is(r, final(mem)@, de_scalar(old(mem)@, addr as int, size as nat, src@)),
{
    match src {
        Wire::Scalar(bytes) => {
            assert(src@ == WireView::Scalar(bytes@));
            if bytes.len() != size {
                return Err(Error::InvalidLength);
            }
            let run = bytes.as_slice();
            assert(run@ == bytes@);
            copy_in(mem, addr, run)
        },
        _ => Err(Error::InvalidType),
    }
}

impl Db {
    /// What a format is to be asked for when a value of type `typ` is to be
    /// filled.
    pub fn request_for<'a>(&self, typ: &'a ReflectedType) -> (r: Request<'a>)
        ensures
            r == request_of(self@, typ),
    {
        if self.is_leaf(typ.id) {
            return Request::Leaf(typ.id);
        }
        match &typ.shape {
            DataShape::Leaf(_) => Request::Leaf(typ.id),
            DataShape::Builtin(kind) => Request::Builtin(*kind),
            DataShape::FixedArray(elem, len) => Request::Array { elem: *elem, len: *len },
            DataShape::Slice(_) => Request::Indirection,
            DataShape::Ref(_) => Request::Indirection,
            DataShape::Tuple(fields) => Request::Tuple { fields },
            DataShape::Newtype(inner) => Request::Newtype { name: &typ.name, inner: *inner },
            DataShape::Struct(VariantData::Unit) => Request::UnitStruct { name: &typ.name },
            DataShape::Struct(VariantData::Tuple(fields)) => Request::TupleStruct { name: &typ.name, fields },
            DataShape::Struct(VariantData::Fields { labels_for_serde, fields }) => Request::Struct {
                name: &typ.name,
                labels: labels_for_serde,
                fields,
            },
            DataShape::Enum { variant_labels_for_serde, variants } => Request::Enum {
                name: &typ.name,
                labels: variant_labels_for_serde,
                variants,
            },
        }
    }

    /// Deserialize a value of the type registered for `id`, into a fresh
    /// memory image of the size of its layout: the image handed back has
    /// exactly that many bytes. Where nothing is written, it holds zeros.
    ///
    /// The reflection database is consulted for the descriptor.
    pub fn deserialize(&self, id: TypeKey, src: &Wire) -> (r: Result<Vec<u8>, Error>)
        ensures
            !self@.types.contains_key(id) ==> r == Err::<Vec<u8>, Error>(Error::UnknownType(id)),
            self@.types.contains_key(id) ==> ({
                let typ = self@.types[id];
                let model = de(self@, blank(typ.layout.size as nat), typ, 0, src@, MAX_DEPTH as nat);
                match model.error {
                    None => r is Ok && r->Ok_0@ == model.mem,
                    Some(e) => r == Err::<Vec<u8>, Error>(e),
                }
            }),
            r is Ok ==> r->Ok_0@.len() == self@.types[id].layout.size,
    {
        let typ = match self.type_layout(id) {
            Ok(typ) => typ,
            Err(e) => {
                return Err(e);
            },
        };
        let mut mem: Vec<u8> = Vec::new();
        let mut i: usize = 0;
        while i < typ.layout.size
            invariant
                i <= typ.layout.size,
                mem@ == blank(i as nat),
            decreases typ.layout.size - i,
        {
            mem.push(0u8);
            i += 1;
            assert(mem@ =~= blank(i as nat));
        }
        proof {
            lemma_de_keeps_len(self@, mem@, *typ, 0, src@, MAX_DEPTH as nat);
        }
        match (Deserialize { db: self, location: TypedOutputLocation::new(typ, 0) }).deserialize(
            &mut mem,
            src,
            MAX_DEPTH,
        ) {
            Ok(()) => Ok(mem),
            Err(e) => Err(e),
        }
    }

    /// Takes the value for `dst` whole, as the routine registered for its
    /// type produces it.
    pub fn deserialize_leaf(&self, mem: &mut Vec<u8>, dst: &TypedOutputLocation<'_>, src: &Wire) -> (r: Result<
        (),
        Error,
    >)
        ensures
            outcome_is(
                r,
                final(mem)@,
                if self@.leaves.contains(dst.typ.id) {
                    de_scalar(old(mem)@, dst.ptr as int, dst.typ.layout.size as nat, src@)
                } else {
                    failed(old(mem)@, Error::UnknownLeaf(dst.typ.id))
                },
            ),
    {
        if !self.is_leaf(dst.typ.id) {
            return Err(Error::UnknownLeaf(dst.typ.id));
        }
        fill_scalar(mem, dst.ptr, dst.typ.layout.size, src)
    }

    /// Fills the value of the type registered for `id` at `addr`.
    pub fn deserialize_at(&self, mem: &mut Vec<u8>, id: TypeKey, addr: usize, src: &Wire, depth: usize) -> (r: Result<
        (),
        Error,
    >)
        ensures
            outcome_is(
                r,
                final(mem)@,
                de_at(self@, old(mem)@, Slot { type_id: id, addr: addr as int }, src@, depth as nat),
            ),
        decreases depth, 0nat, 0nat,
    {
        if addr > mem.len() {
            return Err(Error::OutOfBounds);
        }
        let typ = match self.type_layout(id) {
            Ok(typ) => typ,
            Err(e) => {
                return Err(e);
            },
        };
        if depth == 0 {
            return Err(Error::DepthExceeded);
        }
        (Deserialize { db: self, location: TypedOutputLocation::new(typ, addr) }).deserialize(mem, src, depth - 1)
    }

    /// A newtype wrapper adds nothing in memory: the wrapped value is filled
    /// at the wrapper's own address.
    pub fn visit_newtype_struct(&self, mem: &mut Vec<u8>, inner: TypeKey, addr: usize, src: &Wire, depth: usize) -> (r:
        Result<(), Error>)
        ensures
            outcome_is(
                r,
                final(mem)@,
                de_at(self@, old(mem)@, Slot { type_id: inner, addr: addr as int }, src@, depth as nat),
            ),
        decreases depth, 1nat, 0nat,
    {
        self.deserialize_at(mem, inner, addr, src, depth)
    }

    /// Fills the fields of a struct or of an enum variant whose value lies at
    /// `base`.
    pub fn deserialize_data(&self, mem: &mut Vec<u8>, data: &VariantData, base: usize, src: &Wire, depth: usize) -> (r:
        Result<(), Error>)
        ensures
            outcome_is(r, final(mem)@, de_data(self@, old(mem)@, *data, base as int, src@, depth as nat)),
        decreases depth, 3nat, 0nat,
    {
        match data {
            VariantData::Unit => match src {
                Wire::Unit => Ok(()),
                _ => Err(Error::InvalidType),
            },
            VariantData::Tuple(fields) => match src {
                Wire::Sequence(items) => {
                    proof {
                        Wire::lemma_view_seq(*items);
                    }
                    self.visit_seq(mem, &Slots::Tuple(fields), base, items, depth)
                },
                _ => Err(Error::InvalidType),
            },
            VariantData::Fields { fields, .. } => match src {
                Wire::Mapping(entries) => {
                    proof {
                        Wire::lemma_view_map(*entries);
                    }
                    self.visit_map(mem, fields, base, entries, depth)
                },
                Wire::Sequence(items) => {
                    proof {
                        Wire::lemma_view_seq(*items);
                    }
                    self.visit_seq(mem, &Slots::Named(fields), base, items, depth)
                },
                _ => Err(Error::InvalidType),
            },
        }
    }

    /// Fills the parts of the value at `base` from a sequence: one element
    /// for each part, in order.
    pub fn visit_seq(&self, mem: &mut Vec<u8>, slots: &Slots<'_>, base: usize, items: &Vec<Wire>, depth: usize) -> (r:
        Result<(), Error>)
        ensures
            outcome_is(
                r,
                final(mem)@,
                de_seq(self@, old(mem)@, slots.at(base as int), wire_views(items@), depth as nat),
            ),
        decreases depth, 2nat, 0nat,
    {
        let ghost places = slots.at(base as int);
        let ghost wires = wire_views(items@);
        let n = slots.len();
        if items.len() != n {
            return Err(Error::InvalidLength);
        }
        let mut i: usize = 0;
        while i < n
            invariant
                i <= n,
                n == places.len(),
                n == items@.len(),
                places == slots.at(base as int),
                wires == wire_views(items@),
                outcome_is(Ok(()), mem@, de_slots(self@, old(mem)@, places, wires, i as nat, depth as nat)),
            decreases n - i,
        {
            let (id, addr) = slots.locate(base, i, mem.len());
            assert(places[i as int] == Slot { type_id: id, addr: places[i as int].addr });
            assert(wires[i as int] == items@[i as int]@);
            let ghost before = mem@;
            let step = match addr {
                Some(a) => self.deserialize_at(mem, id, a, &items[i], depth),
                None => Err(Error::OutOfBounds),
            };
            assert(outcome_is(step, mem@, de_at(self@, before, places[i as int], wires[i as int], depth as nat)));
            match step {
                Ok(()) => {},
                Err(e) => {
                    proof {
                        lemma_de_slots_failure_stays(
                            self@,
                            old(mem)@,
                            places,
                            wires,
                            (i + 1) as nat,
                            n as nat,
                            depth as nat,
                        );
                    }
                    return Err(e);
                },
            }
            i += 1;
        }
        Ok(())
    }

    /// Fills the named fields of the value at `base` from a map, entry by
    /// entry in the order of arrival: the key says which field the value is
    /// for. When the map has ended, every field must have received a value.
    pub fn visit_map(
        &self,
        mem: &mut Vec<u8>,
        fields: &Vec<Field>,
        base: usize,
        entries: &Vec<(WireIdent, Wire)>,
        depth: usize,
    ) -> (r: Result<(), Error>)
        ensures
            outcome_is(
                r,
                final(mem)@,
                de_map(
                    self@,
                    old(mem)@,
                    field_names(fields@),
                    named_slots(fields@, base as int),
                    wire_entry_views(entries@),
                    depth as nat,
                ),
            ),
        decreases depth, 2nat, 0nat,
    {
        let ghost names = field_names(fields@);
        let ghost places = named_slots(fields@, base as int);
        let ghost wires = wire_entry_views(entries@);
        let slots = Slots::Named(fields);
        let count = fields.len();
        let mut seen: Vec<bool> = Vec::new();
        let mut f: usize = 0;
        while f < count
            invariant
                f <= count,
                seen@.len() == f,
                forall|i: int| 0 <= i < f ==> !seen@[i],
            decreases count - f,
        {
            seen.push(false);
            f += 1;
        }
        let n = entries.len();
        let mut i: usize = 0;
        while i < n
            invariant
                i <= n,
                n == entries@.len(),
                count == fields@.len(),
                slots == Slots::Named(fields),
                names == field_names(fields@),
                places == named_slots(fields@, base as int),
                wires == wire_entry_views(entries@),
                seen@.len() == count,
                forall|j: int| 0 <= j < count ==> (seen@[j] <==> arrives(names, count as nat, wires, i as nat, j)),
                outcome_is(Ok(()), mem@, de_entries(self@, old(mem)@, names, places, wires, i as nat, depth as nat)),
            decreases n - i,
        {
            assert(wires[i as int] == (entries@[i as int].0@, entries@[i as int].1@));
            let ghost before = mem@;
            let ghost seen_before = seen@;
            let step = match (FieldIx { fields }).deserialize(&entries[i].0) {
                Ok(ix) => {
                    seen.set(ix, true);
                    let (id, addr) = slots.locate(base, ix, mem.len());
                    assert(places[ix as int] == Slot { type_id: id, addr: places[ix as int].addr });
                    match addr {
                        Some(a) => self.deserialize_at(mem, id, a, &entries[i].1, depth),
                        None => Err(Error::OutOfBounds),
                    }
                },
                Err(e) => Err(e),
            };
            assert(outcome_is(
                step,
                mem@,
                match resolve(names, places.len(), wires[i as int].0) {
                    None => failed(before, Error::UnknownField),
                    Some(ix) => de_at(self@, before, places[ix], wires[i as int].1, depth as nat),
                },
            ));
            match step {
                Ok(()) => {
                    proof {
                        let here = resolve(names, count as nat, wires[i as int].0)->0;
                        assert forall|j: int| 0 <= j < count implies (seen@[j] <==> arrives(
                            names,
                            count as nat,
                            wires,
                            (i + 1) as nat,
                            j,
                        )) by {
                            if j == here {
                                assert(resolve(names, count as nat, wires[i as int].0) == Some(j));
                            } else {
                                assert(seen@[j] == seen_before[j]);
                                if arrives(names, count as nat, wires, (i + 1) as nat, j) {
                                    let k = choose|k: int|
                                        0 <= k < i + 1 && resolve(names, count as nat, (#[trigger] wires[k]).0)
                                            == Some(j);
                                    assert(k < i);
                                }
                                if arrives(names, count as nat, wires, i as nat, j) {
                                    let k = choose|k: int|
                                        0 <= k < i && resolve(names, count as nat, (#[trigger] wires[k]).0) == Some(
                                            j,
                                        );
                                    assert(0 <= k < i + 1);
                                }
                            }
                        }
                    }
                },
                Err(e) => {
                    proof {
                        lemma_de_entries_failure_stays(
                            self@,
                            old(mem)@,
                            names,
                            places,
                            wires,
                            (i + 1) as nat,
                            n as nat,
                            depth as nat,
                        );
                    }
                    return Err(e);
                },
            }
            i += 1;
        }
        let mut j: usize = 0;
        while j < count
            invariant
                j <= count,
                seen@.len() == count,
                count == places.len(),
                n == wires.len(),
                places == named_slots(fields@, base as int),
                wires == wire_entry_views(entries@),
                names == field_names(fields@),
                forall|k: int| 0 <= k < count ==> (seen@[k] <==> arrives(names, count as nat, wires, n as nat, k)),
                forall|k: int| 0 <= k < j ==> seen@[k],
                outcome_is(Ok(()), mem@, de_entries(self@, old(mem)@, names, places, wires, n as nat, depth as nat)),
            decreases count - j,
        {
            if !seen[j] {
                assert(!arrives(names, count as nat, wires, wires.len(), j as int));
                return Err(Error::MissingField);
            }
            j += 1;
        }
        assert(all_arrive(names, count as nat, wires)) by {
            assert forall|k: int| 0 <= k < count implies arrives(names, count as nat, wires, wires.len(), k) by {
                assert(seen@[k]);
                assert(arrives(names, count as nat, wires, n as nat, k));
            }
        }
        Ok(())
    }
}

} // verus!
