//! Memory locations: a descriptor paired with an address in a memory image.
//!
//! A memory image is a run of bytes, and an address is a position in it. The
//! engines never touch a byte outside the image: a location that reaches past
//! its end stops the traversal with [`Error::OutOfBounds`].

use vstd::prelude::*;
use vstd::slice::{slice_subrange, slice_to_vec};
use crate::metadata::{Field, Layout, ReflectedType, TupleField, TypeKey};
use crate::wire::Error;

verus! {

/// An image of `n` zero bytes.
pub open spec fn blank(n: nat) -> Seq<u8> {
    Seq::new(n, |p: int| 0u8)
}

/// The bytes `addr .. addr + n` of the image, where the image holds them.
pub open spec fn read_bytes(mem: Seq<u8>, addr: int, n: int) -> Option<Seq<u8>> {
    if 0 <= addr && 0 <= n && addr + n <= mem.len() {
        Some(mem.subrange(addr, addr + n))
    } else {
        None
    }
}

/// The image with `bytes` laid over it from `addr` on.
pub open spec fn write_bytes(mem: Seq<u8>, addr: int, bytes: Seq<u8>) -> Seq<u8> {
    Seq::new(
        mem.len(),
        |p: int|
            if addr <= p < addr + bytes.len() {
                bytes[p - addr]
            } else {
                mem[p]
            },
    )
}

/// The two bytes that hold a discriminant, low byte first.
pub open spec fn tag_bytes(tag: u16) -> Seq<u8> {
    seq![(tag % 256) as u8, (tag / 256) as u8]
}

/// The discriminant stored at `addr`, low byte first.
pub open spec fn read_tag(mem: Seq<u8>, addr: int) -> Option<u16> {
    if 0 <= addr && addr + 2 <= mem.len() {
        Some((mem[addr] + 256 * mem[addr + 1]) as u16)
    } else {
        None
    }
}

/// The machine word stored at `addr`, low byte first.
pub open spec fn read_word(mem: Seq<u8>, addr: int) -> Option<u64> {
    if 0 <= addr && addr + 8 <= mem.len() {
        Some(vstd::bytes::spec_u64_from_le_bytes(mem.subrange(addr, addr + 8)))
    } else {
        None
    }
}

/// A discriminant that was written is the discriminant that is read.
pub proof fn lemma_tag_round_trip(mem: Seq<u8>, addr: int, tag: u16)
    requires
        0 <= addr,
        addr + 2 <= mem.len(),
    ensures
        read_tag(write_bytes(mem, addr, tag_bytes(tag)), addr) == Some(tag),
{
    let after = write_bytes(mem, addr, tag_bytes(tag));
    assert(after[addr] == (tag % 256) as u8);
    assert(after[addr + 1] == (tag / 256) as u8);
}

/// The discriminant read determines the two bytes that hold it.
pub proof fn lemma_tag_determines_bytes(mem: Seq<u8>, addr: int)
    requires
        0 <= addr,
        addr + 2 <= mem.len(),
    ensures
        mem.subrange(addr, addr + 2) == tag_bytes(read_tag(mem, addr)->0),
{
    assert(mem.subrange(addr, addr + 2) =~= tag_bytes(read_tag(mem, addr)->0));
}

/// Copies `n` bytes out of the image.
pub fn copy_out(mem: &[u8], addr: usize, n: usize) -> (r: Result<Vec<u8>, Error>)
    ensures
        match r {
            Ok(bytes) => read_bytes(mem@, addr as int, n as int) == Some(bytes@),
            Err(e) => read_bytes(mem@, addr as int, n as int) is None && e == Error::OutOfBounds,
        },
{
    if addr > mem.len() || n > mem.len() - addr {
        return Err(Error::OutOfBounds);
    }
    Ok(slice_to_vec(slice_subrange(mem, addr, addr + n)))
}

/// Copies `bytes` into the image, or leaves the image as it is where they do
/// not fit.
pub fn copy_in(mem: &mut Vec<u8>, addr: usize, bytes: &[u8]) -> (r: Result<(), Error>)
    ensures
        match r {
            Ok(()) => addr + bytes@.len() <= old(mem)@.len() && final(mem)@ == write_bytes(
                old(mem)@,
                addr as int,
                bytes@,
            ),
            Err(e) => addr + bytes@.len() > old(mem)@.len() && final(mem)@ == old(mem)@ && e
                == Error::OutOfBounds,
        },
{
    let n = bytes.len();
    if addr > mem.len() || n > mem.len() - addr {
        return Err(Error::OutOfBounds);
    }
    let mut i: usize = 0;
    while i < n
        invariant
            i <= n,
            n == bytes@.len(),
            addr + n <= mem@.len() <= usize::MAX,
            mem@.len() == old(mem)@.len(),
            mem@ == write_bytes(old(mem)@, addr as int, bytes@.subrange(0, i as int)),
        decreases n - i,
    {
        mem[addr + i] = bytes[i];
        i += 1;
        assert(mem@ =~= write_bytes(old(mem)@, addr as int, bytes@.subrange(0, i as int)));
    }
    assert(bytes@.subrange(0, n as int) =~= bytes@);
    Ok(())
}

/// A location in memory with a known type, to read a value from.
///
/// The descriptor must be that of the value at the address: nothing here can
/// tell whether it is.
pub struct TypedLocation<'db> {
    pub typ: &'db ReflectedType,
    pub ptr: usize,
}

/// A destination in memory with a known eventual type.
///
/// Nothing about the destination is taken to be initialized until
/// deserialization is complete. If deserialization fails, what was written so
/// far stays written.
pub struct TypedOutputLocation<'db> {
    pub typ: &'db ReflectedType,
    pub ptr: usize,
}

impl<'db> TypedLocation<'db> {
    /// Prepare to serialize the value of type `typ` at `ptr`.
    pub fn new(typ: &'db ReflectedType, ptr: usize) -> (loc: Self)
        ensures
            loc.typ == typ,
            loc.ptr == ptr,
    {
        TypedLocation { typ, ptr }
    }

    /// The tag at the base of an enum value.
    pub fn read_discriminant(&self, mem: &[u8]) -> (r: Result<u16, Error>)
        ensures
            match r {
                Ok(tag) => read_tag(mem@, self.ptr as int) == Some(tag),
                Err(e) => read_tag(mem@, self.ptr as int) is None && e == Error::OutOfBounds,
            },
    {
        if self.ptr > mem.len() || 2 > mem.len() - self.ptr {
            return Err(Error::OutOfBounds);
        }
        let lo: u16 = mem[self.ptr] as u16;
        let hi: u16 = mem[self.ptr + 1] as u16;
        Ok(lo + 256 * hi)
    }

    /// The machine word at the location.
    pub fn read_address(&self, mem: &[u8]) -> (r: Result<u64, Error>)
        ensures
            match r {
                Ok(word) => read_word(mem@, self.ptr as int) == Some(word),
                Err(e) => read_word(mem@, self.ptr as int) is None && e == Error::OutOfBounds,
            },
    {
        if self.ptr > mem.len() || 8 > mem.len() - self.ptr {
            return Err(Error::OutOfBounds);
        }
        Ok(vstd::bytes::u64_from_le_bytes(slice_subrange(mem, self.ptr, self.ptr + 8)))
    }
}

impl<'db> TypedOutputLocation<'db> {
    /// Prepare to deserialize a value of type `typ` into `ptr`.
    pub fn new(typ: &'db ReflectedType, ptr: usize) -> (loc: Self)
        ensures
            loc.typ == typ,
            loc.ptr == ptr,
    {
        TypedOutputLocation { typ, ptr }
    }

    /// Stores the tag at the base of an enum value.
    pub fn write_discriminant(&self, mem: &mut Vec<u8>, disc: u16) -> (r: Result<(), Error>)
        ensures
            match r {
                Ok(()) => self.ptr + 2 <= old(mem)@.len() && final(mem)@ == write_bytes(
                    old(mem)@,
                    self.ptr as int,
                    tag_bytes(disc),
                ),
                Err(e) => self.ptr + 2 > old(mem)@.len() && final(mem)@ == old(mem)@ && e
                    == Error::OutOfBounds,
            },
    {
        if self.ptr > mem.len() || 2 > mem.len() - self.ptr {
            return Err(Error::OutOfBounds);
        }
        mem[self.ptr] = (disc % 256) as u8;
        mem[self.ptr + 1] = (disc / 256) as u8;
        assert(mem@ =~= write_bytes(old(mem)@, self.ptr as int, tag_bytes(disc)));
        Ok(())
    }
}

impl<'db> From<TypedOutputLocation<'db>> for TypedLocation<'db> {
    fn from(v: TypedOutputLocation<'db>) -> (loc: TypedLocation<'db>) {
        TypedLocation { typ: v.typ, ptr: v.ptr }
    }
}

impl<'db> vstd::std_specs::convert::FromSpecImpl<TypedOutputLocation<'db>> for TypedLocation<'db> {
    open spec fn obeys_from_spec() -> bool {
        true
    }

    open spec fn from_spec(v: TypedOutputLocation<'db>) -> TypedLocation<'db> {
        TypedLocation { typ: v.typ, ptr: v.ptr }
    }
}

/// One place that a traversal goes to next: a type, and where its value lies.
pub ghost struct Slot {
    pub type_id: TypeKey,
    pub addr: int,
}

/// The places of the fields of a tuple whose value lies at `base`.
pub open spec fn tuple_slots(fields: Seq<TupleField>, base: int) -> Seq<Slot> {
    Seq::new(fields.len(), |i: int| Slot { type_id: fields[i].type_id, addr: base + fields[i].offset })
}

/// The places of the named fields of a struct whose value lies at `base`.
pub open spec fn named_slots(fields: Seq<Field>, base: int) -> Seq<Slot> {
    Seq::new(fields.len(), |i: int| Slot { type_id: fields[i].type_id, addr: base + fields[i].offset })
}

/// The places of the elements of an array that lies at `base`: element `i`
/// lies `i` strides further.
pub open spec fn array_slots(elem: TypeKey, len: nat, stride: int, base: int) -> Seq<Slot> {
    Seq::new(len, |i: int| Slot { type_id: elem, addr: base + i * stride })
}

/// Where the parts of a value lie, relative to the value.
pub enum Slots<'a> {
    /// the unnamed fields of a tuple, a tuple struct or a tuple variant
    Tuple(&'a Vec<TupleField>),
    /// the named fields of a struct or a struct variant
    Named(&'a Vec<Field>),
    /// `len` elements of type `elem`, each of the layout `each`
    Array { elem: TypeKey, len: usize, each: Layout },
}

impl<'a> Slots<'a> {
    /// The places of the parts of a value that lies at `base`.
    pub open spec fn at(self, base: int) -> Seq<Slot> {
        match self {
            Slots::Tuple(fields) => tuple_slots(fields@, base),
            Slots::Named(fields) => named_slots(fields@, base),
            Slots::Array { elem, len, each } => array_slots(elem, len as nat, each.stride(), base),
        }
    }

    /// The number of parts.
    pub fn len(&self) -> (n: usize)
        ensures
            n == self.at(0).len(),
            forall|base: int| n == (#[trigger] self.at(base)).len(),
    {
        match self {
            Slots::Tuple(fields) => fields.len(),
            Slots::Named(fields) => fields.len(),
            Slots::Array { len, .. } => *len,
        }
    }

    /// The type of part `i`, and its address where the address lies in an
    /// image of `limit` bytes or right behind it.
    pub fn locate(&self, base: usize, i: usize, limit: usize) -> (r: (TypeKey, Option<usize>))
        requires
            i < self.at(base as int).len(),
        ensures
            r.0 == self.at(base as int)[i as int].type_id,
            r.1 == if self.at(base as int)[i as int].addr <= limit {
                Some(self.at(base as int)[i as int].addr as usize)
            } else {
                None::<usize>
            },
    {
        let (id, addr) = match self {
            Slots::Tuple(fields) => (fields[i].type_id, base.checked_add(fields[i].offset)),
            Slots::Named(fields) => (fields[i].type_id, base.checked_add(fields[i].offset)),
            Slots::Array { elem, each, .. } => {
                let addr = if i == 0 {
                    Some(base)
                } else {
                    match each.padded_size() {
                        Some(s) => match i.checked_mul(s) {
                            Some(d) => base.checked_add(d),
                            None => None,
                        },
                        None => {
                            assert(i * each.stride() > usize::MAX) by (nonlinear_arith)
                                requires
                                    i >= 1,
                                    each.stride() > usize::MAX,
                            ;
                            None
                        },
                    }
                };
                (*elem, addr)
            },
        };
        match addr {
            Some(a) => if a <= limit {
                (id, Some(a))
            } else {
                (id, None)
            },
            None => (id, None),
        }
    }
}

} // verus!
