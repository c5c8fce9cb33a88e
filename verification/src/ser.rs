//! The serializer engine.
//!
//! Given a read location and the registry, the engine walks the descriptor
//! depth first and emits every field, element and variant in descriptor
//! order. The memory image is only read.

use vstd::prelude::*;
use crate::location::{
    array_slots, copy_out, named_slots, read_bytes, read_tag, read_word, tuple_slots, Slot, Slots,
    TypedLocation,
};
use crate::metadata::{arm_position, DataShape, Field, ReflectedType, TypeKey, VariantData};
use crate::registry::{Db, Registry};
use crate::wire::{
    emitted_field_views, emitted_views, Emitted, EmittedData, EmittedDataView, EmittedView, Error,
};

verus! {

/// How deep [`Db::serialize`] and [`Db::deserialize`] follow nested types.
pub const MAX_DEPTH: usize = 128;

/// The values of named fields, each under the name of its field.
pub open spec fn with_names(fields: Seq<Field>, values: Seq<EmittedView>) -> Seq<(Seq<char>, EmittedView)> {
    Seq::new(values.len(), |i: int| (fields[i].name@, values[i]))
}

/// What serializing the value of type `typ` at `addr` emits.
///
/// A registered leaf routine takes precedence over the shape. `fuel` is the
/// number of nested types that may still be entered.
pub open spec fn ser(reg: Registry, mem: Seq<u8>, typ: ReflectedType, addr: int, fuel: nat) -> Result<
    EmittedView,
    Error,
>
    decreases fuel, 3nat, 0nat,
{
    if addr < 0 || addr > mem.len() {
        Err(Error::OutOfBounds)
    } else if reg.leaves.contains(typ.id) {
        match read_bytes(mem, addr, typ.layout.size as int) {
            Some(bytes) => Ok(EmittedView::Leaf { type_id: typ.id, bytes }),
            None => Err(Error::OutOfBounds),
        }
    } else {
        match typ.shape {
            DataShape::Leaf(_) => Err(Error::UnknownLeaf(typ.id)),
            DataShape::Builtin(kind) => match read_bytes(mem, addr, kind.width() as int) {
                Some(bytes) => Ok(EmittedView::Builtin { kind, bytes }),
                None => Err(Error::OutOfBounds),
            },
            DataShape::FixedArray(elem, len) => ser_array(reg, mem, elem, len as nat, addr, fuel),
            DataShape::Slice(elem) => match (read_word(mem, addr), read_word(mem, addr + 8)) {
                (Some(first), Some(len)) => if first > usize::MAX || len > usize::MAX {
                    Err(Error::OutOfBounds)
                } else {
                    ser_array(reg, mem, elem, len as nat, first as int, fuel)
                },
                _ => Err(Error::OutOfBounds),
            },
            DataShape::Ref(inner) => match read_word(mem, addr) {
                Some(target) => ser_at(reg, mem, Slot { type_id: inner, addr: target as int }, fuel),
                None => Err(Error::OutOfBounds),
            },
            DataShape::Tuple(fields) => match ser_slots(
                reg,
                mem,
                tuple_slots(fields@, addr),
                fields@.len(),
                fuel,
            ) {
                Ok(items) => Ok(EmittedView::Tuple(items)),
                Err(e) => Err(e),
            },
            DataShape::Newtype(inner) => match ser_at(reg, mem, Slot { type_id: inner, addr }, fuel) {
                Ok(v) => Ok(EmittedView::Newtype { name: typ.name@, inner: Box::new(v) }),
                Err(e) => Err(e),
            },
            DataShape::Struct(data) => match ser_data(reg, mem, data, addr, fuel) {
                Ok(d) => Ok(EmittedView::Struct { name: typ.name@, data: d }),
                Err(e) => Err(e),
            },
            DataShape::Enum { variants, .. } => match read_tag(mem, addr) {
                None => Err(Error::OutOfBounds),
                Some(tag) => match arm_position(variants@, tag) {
                    None => Err(Error::UnknownDiscriminant(tag)),
                    Some(i) => match ser_data(reg, mem, variants@[i].variant, addr, fuel) {
                        Ok(d) => Ok(
                            EmittedView::Variant {
                                name: typ.name@,
                                variant_index: variants@[i].variant_index as u32,
                                label: variants@[i].label@,
                                data: d,
                            },
                        ),
                        Err(e) => Err(e),
                    },
                },
            },
        }
    }
}

/// What serializing `len` elements of type `elem` emits, the first at `base`
/// and each a stride behind the one before.
pub open spec fn ser_array(reg: Registry, mem: Seq<u8>, elem: TypeKey, len: nat, base: int, fuel: nat) -> Result<
    EmittedView,
    Error,
>
    decreases fuel, 2nat, 0nat,
{
    if !reg.types.contains_key(elem) {
        Err(Error::UnknownType(elem))
    } else {
        match ser_slots(reg, mem, array_slots(elem, len, reg.types[elem].layout.stride(), base), len, fuel) {
            Ok(items) => Ok(EmittedView::Sequence(items)),
            Err(e) => Err(e),
        }
    }
}

/// What serializing the fields of a struct or of an enum variant emits. The
/// offsets of the fields count from `base`.
pub open spec fn ser_data(reg: Registry, mem: Seq<u8>, data: VariantData, base: int, fuel: nat) -> Result<
    EmittedDataView,
    Error,
>
    decreases fuel, 2nat, 0nat,
{
    match data {
        VariantData::Unit => Ok(EmittedDataView::Unit),
        VariantData::Tuple(fields) => match ser_slots(reg, mem, tuple_slots(fields@, base), fields@.len(), fuel) {
            Ok(items) => Ok(EmittedDataView::Tuple(items)),
            Err(e) => Err(e),
        },
        VariantData::Fields { fields, .. } => match ser_slots(
            reg,
            mem,
            named_slots(fields@, base),
            fields@.len(),
            fuel,
        ) {
            Ok(items) => Ok(EmittedDataView::Fields(with_names(fields@, items))),
            Err(e) => Err(e),
        },
    }
}

/// What serializing the first `n` of `slots` emits, in order. The first
/// failure ends the walk.
pub open spec fn ser_slots(reg: Registry, mem: Seq<u8>, slots: Seq<Slot>, n: nat, fuel: nat) -> Result<
    Seq<EmittedView>,
    Error,
>
    decreases fuel, 1nat, n,
{
    if n == 0 {
        Ok(Seq::empty())
    } else {
        match ser_slots(reg, mem, slots, (n - 1) as nat, fuel) {
            Err(e) => Err(e),
            Ok(items) => match ser_at(reg, mem, slots[n - 1], fuel) {
                Err(e) => Err(e),
                Ok(item) => Ok(items.push(item)),
            },
        }
    }
}

/// What serializing the value at a slot emits: the slot's type is looked up,
/// and its value is entered with one unit of fuel less.
pub open spec fn ser_at(reg: Registry, mem: Seq<u8>, slot: Slot, fuel: nat) -> Result<EmittedView, Error>
    decreases fuel, 0nat, 0nat,
{
    if slot.addr < 0 || slot.addr > mem.len() {
        Err(Error::OutOfBounds)
    } else if !reg.types.contains_key(slot.type_id) {
        Err(Error::UnknownType(slot.type_id))
    } else if fuel == 0 {
        Err(Error::DepthExceeded)
    } else {
        ser(reg, mem, reg.types[slot.type_id], slot.addr, (fuel - 1) as nat)
    }
}

/// Once a slot has failed, the walk over any longer run of slots fails alike.
pub proof fn lemma_ser_slots_failure_stays(reg: Registry, mem: Seq<u8>, slots: Seq<Slot>, n: nat, m: nat, fuel: nat)
    requires
        n <= m,
        ser_slots(reg, mem, slots, n, fuel) is Err,
    ensures
        ser_slots(reg, mem, slots, m, fuel) == ser_slots(reg, mem, slots, n, fuel),
    decreases m,
{
    if n < m {
        lemma_ser_slots_failure_stays(reg, mem, slots, n, (m - 1) as nat, fuel);
    }
}

/// A walk that succeeds emits one value per slot.
pub proof fn lemma_ser_slots_len(reg: Registry, mem: Seq<u8>, slots: Seq<Slot>, n: nat, fuel: nat)
    ensures
        ser_slots(reg, mem, slots, n, fuel) matches Ok(items) ==> items.len() == n,
    decreases n,
{
    if n > 0 {
        lemma_ser_slots_len(reg, mem, slots, (n - 1) as nat, fuel);
    }
}

/// A walk that succeeds emits for each slot what that slot emits by itself.
pub proof fn lemma_ser_slots_elements(reg: Registry, mem: Seq<u8>, slots: Seq<Slot>, n: nat, fuel: nat)
    requires
        ser_slots(reg, mem, slots, n, fuel) is Ok,
    ensures
        ser_slots(reg, mem, slots, n, fuel)->Ok_0.len() == n,
        forall|i: int|
            0 <= i < n ==> ser_at(reg, mem, #[trigger] slots[i], fuel) == Ok::<EmittedView, Error>(
                ser_slots(reg, mem, slots, n, fuel)->Ok_0[i],
            ),
        forall|k: nat|
            k <= n ==> #[trigger] ser_slots(reg, mem, slots, k, fuel) == Ok::<Seq<EmittedView>, Error>(
                ser_slots(reg, mem, slots, n, fuel)->Ok_0.take(k as int),
            ),
    decreases n,
{
    let all = ser_slots(reg, mem, slots, n, fuel)->Ok_0;
    if n > 0 {
        lemma_ser_slots_elements(reg, mem, slots, (n - 1) as nat, fuel);
        let most = ser_slots(reg, mem, slots, (n - 1) as nat, fuel)->Ok_0;
        assert forall|k: nat| k <= n implies #[trigger] ser_slots(reg, mem, slots, k, fuel) == Ok::<
            Seq<EmittedView>,
            Error,
        >(all.take(k as int)) by {
            if k < n {
                assert(most.take(k as int) =~= all.take(k as int));
            } else {
                assert(all.take(n as int) =~= all);
            }
        }
    } else {
        assert(all.take(0) =~= all);
    }
}

/// Whether an outcome is the emitted value that the model names.
pub open spec fn emitted_is(r: Result<Emitted, Error>, model: Result<EmittedView, Error>) -> bool {
    match model {
        Ok(v) => r is Ok && r->Ok_0@ == v,
        Err(e) => r == Err::<Emitted, Error>(e),
    }
}

/// Whether an outcome is the emitted data that the model names.
pub open spec fn emitted_data_is(r: Result<EmittedData, Error>, model: Result<EmittedDataView, Error>) -> bool {
    match model {
        Ok(v) => r is Ok && r->Ok_0@ == v,
        Err(e) => r == Err::<EmittedData, Error>(e),
    }
}

/// Whether an outcome is the run of emitted values that the model names.
pub open spec fn emitted_all_are(r: Result<Vec<Emitted>, Error>, model: Result<Seq<EmittedView>, Error>) -> bool {
    match model {
        Ok(v) => r is Ok && emitted_views(r->Ok_0@) == v,
        Err(e) => r == Err::<Vec<Emitted>, Error>(e),
    }
}

/// Whether an outcome is the run of named emitted values that the model names.
pub open spec fn emitted_named_are(
    r: Result<Vec<(String, Emitted)>, Error>,
    fields: Seq<Field>,
    model: Result<Seq<EmittedView>, Error>,
) -> bool {
    match model {
        Ok(v) => r is Ok && emitted_field_views(r->Ok_0@) == with_names(fields, v),
        Err(e) => r == Err::<Vec<(String, Emitted)>, Error>(e),
    }
}

/// Serializes a value from memory via reflection: a registry, and the
/// location of the value. You're better off using [`Db::serialize`].
pub struct Serialize<'a> {
    pub db: &'a Db,
    pub location: TypedLocation<'a>,
}

impl<'a> Serialize<'a> {
    /// Emits the value at the location, entering at most `depth` nested
    /// types.
    pub fn serialize(&self, mem: &[u8], depth: usize) -> (r: Result<Emitted, Error>)
        ensures
            emitted_is(r, ser(self.db@, mem@, *self.location.typ, self.location.ptr as int, depth as nat)),
        decreases depth, 3nat, 0nat,
    {
        let db = self.db;
        let typ = self.location.typ;
        let addr = self.location.ptr;
        if addr > mem.len() {
            return Err(Error::OutOfBounds);
        }
        if db.is_leaf(typ.id) {
            return db.serialize_leaf(mem, &self.location);
        }
        match &typ.shape {
            DataShape::Leaf(_) => db.serialize_leaf(mem, &self.location),
            DataShape::Builtin(kind) => match copy_out(mem, addr, kind.size()) {
                Ok(bytes) => Ok(Emitted::Builtin { kind: *kind, bytes }),
                Err(e) => Err(e),
            },
            DataShape::FixedArray(elem, len) => db.serialize_array(mem, *elem, *len, addr, depth),
            DataShape::Slice(elem) => {
                let first = match self.location.read_address(mem) {
                    Ok(word) => word,
                    Err(e) => {
                        return Err(e);
                    },
                };
                let behind = TypedLocation::new(typ, addr + 8);
                let len = match behind.read_address(mem) {
                    Ok(word) => word,
                    Err(e) => {
                        return Err(e);
                    },
                };
                if first > usize::MAX as u64 || len > usize::MAX as u64 {
                    return Err(Error::OutOfBounds);
                }
                db.serialize_array(mem, *elem, len as usize, first as usize, depth)
            },
            DataShape::Ref(inner) => {
                let target = match self.location.read_address(mem) {
                    Ok(word) => word,
                    Err(e) => {
                        return Err(e);
                    },
                };
                if target > usize::MAX as u64 {
                    return Err(Error::OutOfBounds);
                }
                db.serialize_at(mem, *inner, target as usize, depth)
            },
            DataShape::Tuple(fields) => match db.serialize_fields(mem, &Slots::Tuple(fields), addr, depth) {
                Ok(items) => {
                    proof {
                        Emitted::lemma_view_tuple(items);
                    }
                    Ok(Emitted::Tuple(items))
                },
                Err(e) => Err(e),
            },
            DataShape::Newtype(inner) => match db.serialize_at(mem, *inner, addr, depth) {
                Ok(v) => Ok(Emitted::Newtype { name: typ.name.clone(), inner: Box::new(v) }),
                Err(e) => Err(e),
            },
            DataShape::Struct(data) => match db.serialize_data(mem, data, addr, depth) {
                Ok(d) => Ok(Emitted::Struct { name: typ.name.clone(), data: d }),
                Err(e) => Err(e),
            },
            DataShape::Enum { variants, .. } => {
                let tag = match self.location.read_discriminant(mem) {
                    Ok(tag) => tag,
                    Err(e) => {
                        return Err(e);
                    },
                };
                let arm = match variants.find(tag) {
                    Some(ix) => variants.get(ix),
                    None => {
                        return Err(Error::UnknownDiscriminant(tag));
                    },
                };
                match db.serialize_data(mem, &arm.variant, addr, depth) {
                    Ok(d) => Ok(
                        Emitted::Variant {
                            name: typ.name.clone(),
                            variant_index: arm.variant_index as u32,
                            label: arm.label.clone(),
                            data: d,
                        },
                    ),
                    Err(e) => Err(e),
                }
            },
        }
    }
}

impl Db {
    /// Serialize the value whose memory image is `val`, as the type
    /// registered for `id`.
    ///
    /// The reflection database is consulted for the descriptor.
    pub fn serialize(&self, val: &[u8], id: TypeKey) -> (r: Result<Emitted, Error>)
        ensures
            !self@.types.contains_key(id) ==> r == Err::<Emitted, Error>(Error::UnknownType(id)),
            self@.types.contains_key(id) ==> emitted_is(
                r,
                ser(self@, val@, self@.types[id], 0, MAX_DEPTH as nat),
            ),
    {
        let typ = match self.type_layout(id) {
            Ok(typ) => typ,
            Err(e) => {
                return Err(e);
            },
        };
        Serialize { db: self, location: TypedLocation::new(typ, 0) }.serialize(val, MAX_DEPTH)
    }

    /// Hands the value at `src` over whole, as the routine registered for its
    /// type takes it.
    pub fn serialize_leaf(&self, mem: &[u8], src: &TypedLocation<'_>) -> (r: Result<Emitted, Error>)
        ensures
            emitted_is(
                r,
                if !self@.leaves.contains(src.typ.id) {
                    Err(Error::UnknownLeaf(src.typ.id))
                } else {
                    match read_bytes(mem@, src.ptr as int, src.typ.layout.size as int) {
                        Some(bytes) => Ok(EmittedView::Leaf { type_id: src.typ.id, bytes }),
                        None => Err(Error::OutOfBounds),
                    }
                },
            ),
    {
        if !self.is_leaf(src.typ.id) {
            return Err(Error::UnknownLeaf(src.typ.id));
        }
        match copy_out(mem, src.ptr, src.typ.layout.size) {
            Ok(bytes) => Ok(Emitted::Leaf { type_id: src.typ.id, bytes }),
            Err(e) => Err(e),
        }
    }

    /// Emits the value of the type registered for `id` at `addr`.
    pub fn serialize_at(&self, mem: &[u8], id: TypeKey, addr: usize, depth: usize) -> (r: Result<Emitted, Error>)
        ensures
            emitted_is(r, ser_at(self@, mem@, Slot { type_id: id, addr: addr as int }, depth as nat)),
        decreases depth, 0nat, 0nat,
    {
        if addr > mem.len() {
            return Err(Error::OutOfBounds);
        }
        let typ = match self.type_layout(id) {
            Ok(typ) => typ,
            Err(e) => {
                return Err(e);
            },
        };
        if depth == 0 {
            return Err(Error::DepthExceeded);
        }
        Serialize { db: self, location: TypedLocation::new(typ, addr) }.serialize(mem, depth - 1)
    }

    /// Emits `len` elements of the type registered for `elem`, the first at
    /// `base`, as a sequence of known length.
    pub fn serialize_array(&self, mem: &[u8], elem: TypeKey, len: usize, base: usize, depth: usize) -> (r: Result<
        Emitted,
        Error,
    >)
        ensures
            emitted_is(r, ser_array(self@, mem@, elem, len as nat, base as int, depth as nat)),
        decreases depth, 2nat, 0nat,
    {
        let each = match self.type_layout(elem) {
            Ok(typ) => typ.layout,
            Err(e) => {
                return Err(e);
            },
        };
        match self.serialize_fields(mem, &Slots::Array { elem, len, each }, base, depth) {
            Ok(items) => {
                proof {
                    Emitted::lemma_view_seq(items);
                }
                Ok(Emitted::Sequence(items))
            },
            Err(e) => Err(e),
        }
    }

    /// Emits the fields of a struct or of an enum variant whose value lies at
    /// `base`.
    pub fn serialize_data(&self, mem: &[u8], data: &VariantData, base: usize, depth: usize) -> (r: Result<
        EmittedData,
        Error,
    >)
        ensures
            emitted_data_is(r, ser_data(self@, mem@, *data, base as int, depth as nat)),
        decreases depth, 2nat, 0nat,
    {
        match data {
            VariantData::Unit => Ok(EmittedData::Unit),
            VariantData::Tuple(fields) => match self.serialize_fields(mem, &Slots::Tuple(fields), base, depth) {
                Ok(items) => {
                    proof {
                        EmittedData::lemma_view_tuple(items);
                    }
                    Ok(EmittedData::Tuple(items))
                },
                Err(e) => Err(e),
            },
            VariantData::Fields { fields, .. } => match self.serialize_named_fields(mem, fields, base, depth) {
                Ok(items) => {
                    proof {
                        EmittedData::lemma_view_fields(items);
                    }
                    Ok(EmittedData::Fields(items))
                },
                Err(e) => Err(e),
            },
        }
    }

    /// Emits the parts of the value at `base`, in order. The first failure
    /// ends the walk.
    pub fn serialize_fields(&self, mem: &[u8], slots: &Slots<'_>, base: usize, depth: usize) -> (r: Result<
        Vec<Emitted>,
        Error,
    >)
        ensures
            emitted_all_are(
                r,
                ser_slots(self@, mem@, slots.at(base as int), slots.at(base as int).len(), depth as nat),
            ),
        decreases depth, 1nat, 0nat,
    {
        let ghost places = slots.at(base as int);
        let n = slots.len();
        let mut out: Vec<Emitted> = Vec::new();
        let mut i: usize = 0;
        assert(emitted_views(out@) =~= Seq::empty());
        while i < n
            invariant
                i <= n,
                n == places.len(),
                places == slots.at(base as int),
                ser_slots(self@, mem@, places, i as nat, depth as nat) == Ok::<Seq<EmittedView>, Error>(
                    emitted_views(out@),
                ),
            decreases n - i,
        {
            let (id, addr) = slots.locate(base, i, mem.len());
            assert(places[i as int] == Slot { type_id: id, addr: places[i as int].addr });
            let item = match addr {
                Some(a) => self.serialize_at(mem, id, a, depth),
                None => Err(Error::OutOfBounds),
            };
            match item {
                Ok(v) => {
                    let ghost before = out@;
                    out.push(v);
                    assert(emitted_views(out@) =~= emitted_views(before).push(v@));
                },
                Err(e) => {
                    proof {
                        lemma_ser_slots_failure_stays(
                            self@,
                            mem@,
                            places,
                            (i + 1) as nat,
                            n as nat,
                            depth as nat,
                        );
                    }
                    return Err(e);
                },
            }
            i += 1;
        }
        Ok(out)
    }

    /// Emits the named fields of the value at `base`, each under its name, in
    /// declaration order. The first failure ends the walk.
    pub fn serialize_named_fields(&self, mem: &[u8], fields: &Vec<Field>, base: usize, depth: usize) -> (r: Result<
        Vec<(String, Emitted)>,
        Error,
    >)
        ensures
            emitted_named_are(
                r,
                fields@,
                ser_slots(self@, mem@, named_slots(fields@, base as int), fields@.len(), depth as nat),
            ),
        decreases depth, 1nat, 0nat,
    {
        let ghost places = named_slots(fields@, base as int);
        let ghost mut values: Seq<EmittedView> = Seq::empty();
        let slots = Slots::Named(fields);
        let n = fields.len();
        let mut out: Vec<(String, Emitted)> = Vec::new();
        let mut i: usize = 0;
        assert(emitted_field_views(out@) =~= with_names(fields@, values));
        while i < n
            invariant
                i <= n,
                n == fields@.len(),
                slots == Slots::Named(fields),
                places == named_slots(fields@, base as int),
                values.len() == i,
                ser_slots(self@, mem@, places, i as nat, depth as nat) == Ok::<Seq<EmittedView>, Error>(values),
                emitted_field_views(out@) == with_names(fields@, values),
            decreases n - i,
        {
            let (id, addr) = slots.locate(base, i, mem.len());
            assert(places[i as int] == Slot { type_id: id, addr: places[i as int].addr });
            let item = match addr {
                Some(a) => self.serialize_at(mem, id, a, depth),
                None => Err(Error::OutOfBounds),
            };
            match item {
                Ok(v) => {
                    let ghost before = out@;
                    let ghost earlier = values;
                    out.push((fields[i].name.clone(), v));
                    proof {
                        values = values.push(v@);
                        assert(emitted_field_views(out@) =~= emitted_field_views(before).push(
                            (fields@[i as int].name@, v@),
                        ));
                        assert(with_names(fields@, values) =~= with_names(fields@, earlier).push(
                            (fields@[i as int].name@, v@),
                        ));
                    }
                },
                Err(e) => {
                    proof {
                        lemma_ser_slots_failure_stays(
                            self@,
                            mem@,
                            places,
                            (i + 1) as nat,
                            n as nat,
                            depth as nat,
                        );
                    }
                    return Err(e);
                },
            }
            i += 1;
        }
        Ok(out)
    }
}

} // verus!
