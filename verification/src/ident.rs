//! Resolving what the wire calls a field or a variant.
//!
//! An identifier arrives as a position or as a name. For a field, a position
//! stands for itself where the struct has that many fields, and a name for
//! the first field of that name. For a variant, a position stands for the
//! arm declared at that position, and a name for the first arm so labelled.

use vstd::prelude::*;
use vstd::utf8::{encode_utf8, encode_utf8_decode_utf8};
use crate::metadata::{first_true, lemma_first_true, lemma_first_true_is, EnumArm, EnumArms, Field};
use crate::wire::{Error, IdentView, WireIdent};

verus! {

/// Which labels are the text `name`.
pub open spec fn name_hits(labels: Seq<String>, name: Seq<char>) -> Seq<bool> {
    Seq::new(labels.len(), |i: int| labels[i]@ == name)
}

/// Which labels are spelled by `bytes`.
pub open spec fn bytes_hits(labels: Seq<String>, bytes: Seq<u8>) -> Seq<bool> {
    Seq::new(labels.len(), |i: int| encode_utf8(labels[i]@) == bytes)
}

/// The first place in `labels` that holds the text `name`.
pub open spec fn name_position(labels: Seq<String>, name: Seq<char>) -> Option<int> {
    first_true(name_hits(labels, name))
}

/// The first place in `labels` that holds the text spelled by `bytes`.
pub open spec fn bytes_position(labels: Seq<String>, bytes: Seq<u8>) -> Option<int> {
    first_true(bytes_hits(labels, bytes))
}

/// The names of the fields, in declaration order.
pub open spec fn field_names(fields: Seq<Field>) -> Seq<String> {
    Seq::new(fields.len(), |i: int| fields[i].name)
}

/// The place, among `count` fields with the given names, that an identifier
/// stands for.
pub open spec fn resolve(names: Seq<String>, count: nat, ident: IdentView) -> Option<int> {
    match ident {
        IdentView::Index(v) => if v < count {
            Some(v as int)
        } else {
            None
        },
        IdentView::Name(name) => match name_position(names, name) {
            Some(i) => if i < count {
                Some(i)
            } else {
                None
            },
            None => None,
        },
        IdentView::Bytes(bytes) => match bytes_position(names, bytes) {
            Some(i) => if i < count {
                Some(i)
            } else {
                None
            },
            None => None,
        },
    }
}

/// What `resolve` finds is a place among the `count`.
pub proof fn lemma_resolve_in_range(labels: Seq<String>, count: nat, ident: IdentView)
    ensures
        resolve(labels, count, ident) matches Some(i) ==> 0 <= i < count,
{
    match ident {
        IdentView::Index(_) => {},
        IdentView::Name(name) => {
            lemma_first_true(name_hits(labels, name));
        },
        IdentView::Bytes(bytes) => {
            lemma_first_true(bytes_hits(labels, bytes));
        },
    }
}

/// Whether two runs of bytes are the same.
pub fn bytes_eq(a: &[u8], b: &[u8]) -> (r: bool)
    ensures
        r == (a@ == b@),
{
    if a.len() != b.len() {
        return false;
    }
    let mut i: usize = 0;
    while i < a.len()
        invariant
            i <= a@.len(),
            a@.len() == b@.len(),
            forall|k: int| 0 <= k < i ==> a@[k] == b@[k],
        decreases a@.len() - i,
    {
        if a[i] != b[i] {
            return false;
        }
        i += 1;
    }
    assert(a@ =~= b@);
    true
}

/// Whether two texts are the same.
pub fn str_eq(a: &str, b: &str) -> (r: bool)
    ensures
        r == (a@ == b@),
{
    proof {
        encode_utf8_decode_utf8(a@);
        encode_utf8_decode_utf8(b@);
    }
    bytes_eq(a.as_bytes(), b.as_bytes())
}

/// The place that a position stands for among `count`.
fn within(v: u64, count: usize) -> (r: Option<usize>)
    ensures
        r == if v < count {
            Some(v as usize)
        } else {
            None::<usize>
        },
{
    if v < count as u64 {
        Some(v as usize)
    } else {
        None
    }
}

/// Whether an outcome is the place that `resolve` finds, or the given error
/// where it finds none.
pub open spec fn resolves_to(
    r: Result<usize, Error>,
    labels: Seq<String>,
    count: nat,
    ident: IdentView,
    absent: Error,
) -> bool {
    match r {
        Ok(i) => resolve(labels, count, ident) == Some(i as int),
        Err(e) => resolve(labels, count, ident) is None && e == absent,
    }
}

/// Resolves the identifier of a field of a struct with named fields.
pub struct FieldIx<'a> {
    pub fields: &'a Vec<Field>,
}

impl<'a> FieldIx<'a> {
    /// A field named by position: any position below the number of fields.
    pub fn visit_u64(&self, v: u64) -> (r: Result<usize, Error>)
        ensures
            resolves_to(r, field_names(self.fields@), self.fields@.len(), IdentView::Index(v), Error::UnknownField),
    {
        match within(v, self.fields.len()) {
            Some(i) => Ok(i),
            None => Err(Error::UnknownField),
        }
    }

    /// A field named by text: the first field of that name.
    pub fn visit_str(&self, v: &str) -> (r: Result<usize, Error>)
        ensures
            resolves_to(r, field_names(self.fields@), self.fields@.len(), IdentView::Name(v@), Error::UnknownField),
    {
        let fields = self.fields;
        let ghost hits = name_hits(field_names(fields@), v@);
        let mut ix: usize = 0;
        while ix < fields.len()
            invariant
                ix <= fields@.len(),
                fields == self.fields,
                hits == name_hits(field_names(fields@), v@),
                forall|j: int| 0 <= j < ix ==> !hits[j],
            decreases fields@.len() - ix,
        {
            if str_eq(fields[ix].name.as_str(), v) {
                proof {
                    assert(field_names(fields@)[ix as int] == fields@[ix as int].name);
                    lemma_first_true_is(hits, ix as int);
                }
                return Ok(ix);
            }
            ix += 1;
        }
        proof {
            lemma_first_true(hits);
        }
        Err(Error::UnknownField)
    }

    /// A field named by the bytes of a text: the first field whose name is
    /// spelled so.
    pub fn visit_bytes(&self, v: &[u8]) -> (r: Result<usize, Error>)
        ensures
            resolves_to(r, field_names(self.fields@), self.fields@.len(), IdentView::Bytes(v@), Error::UnknownField),
    {
        let fields = self.fields;
        let ghost hits = bytes_hits(field_names(fields@), v@);
        let mut ix: usize = 0;
        while ix < fields.len()
            invariant
                ix <= fields@.len(),
                fields == self.fields,
                hits == bytes_hits(field_names(fields@), v@),
                forall|j: int| 0 <= j < ix ==> !hits[j],
            decreases fields@.len() - ix,
        {
            if bytes_eq(fields[ix].name.as_str().as_bytes(), v) {
                proof {
                    assert(field_names(fields@)[ix as int] == fields@[ix as int].name);
                    lemma_first_true_is(hits, ix as int);
                }
                return Ok(ix);
            }
            ix += 1;
        }
        proof {
            lemma_first_true(hits);
        }
        Err(Error::UnknownField)
    }

    /// The field that an identifier stands for.
    pub fn deserialize(&self, ident: &WireIdent) -> (r: Result<usize, Error>)
        ensures
            resolves_to(r, field_names(self.fields@), self.fields@.len(), ident@, Error::UnknownField),
    {
        match ident {
            WireIdent::Index(v) => self.visit_u64(*v),
            WireIdent::Name(name) => self.visit_str(name.as_str()),
            WireIdent::Bytes(bytes) => self.visit_bytes(bytes.as_slice()),
        }
    }
}

/// Which arms stand at the place `v` of the declaration.
pub open spec fn index_hits(arms: Seq<EnumArm>, v: u64) -> Seq<bool> {
    Seq::new(arms.len(), |i: int| arms[i].variant_index == v)
}

/// Which arms have the text `name` for their label.
pub open spec fn label_hits(arms: Seq<EnumArm>, name: Seq<char>) -> Seq<bool> {
    Seq::new(arms.len(), |i: int| arms[i].label@ == name)
}

/// Which arms have a label spelled by `bytes`.
pub open spec fn label_bytes_hits(arms: Seq<EnumArm>, bytes: Seq<u8>) -> Seq<bool> {
    Seq::new(arms.len(), |i: int| encode_utf8(arms[i].label@) == bytes)
}

/// The place, among the arms as they are held, of the arm that an identifier
/// stands for: an index stands for the arm declared at that index, and a
/// name for the arm so labelled. Where several arms answer, it is the first.
pub open spec fn arm_named(arms: Seq<EnumArm>, ident: IdentView) -> Option<int> {
    match ident {
        IdentView::Index(v) => first_true(index_hits(arms, v)),
        IdentView::Name(name) => first_true(label_hits(arms, name)),
        IdentView::Bytes(bytes) => first_true(label_bytes_hits(arms, bytes)),
    }
}

/// What `arm_named` finds is the place of an arm.
pub proof fn lemma_arm_named_in_range(arms: Seq<EnumArm>, ident: IdentView)
    ensures
        arm_named(arms, ident) matches Some(i) ==> 0 <= i < arms.len(),
{
    match ident {
        IdentView::Index(v) => {
            lemma_first_true(index_hits(arms, v));
        },
        IdentView::Name(name) => {
            lemma_first_true(label_hits(arms, name));
        },
        IdentView::Bytes(bytes) => {
            lemma_first_true(label_bytes_hits(arms, bytes));
        },
    }
}

/// Whether an outcome is the place of the arm that `arm_named` finds, or
/// `UnknownVariant` where it finds none.
pub open spec fn names_arm(r: Result<usize, Error>, arms: Seq<EnumArm>, ident: IdentView) -> bool {
    match r {
        Ok(i) => i < arms.len() && arm_named(arms, ident) == Some(i as int),
        Err(e) => arm_named(arms, ident) is None && e == Error::UnknownVariant,
    }
}

/// Resolves the identifier of a variant of an enum to the arm that it stands
/// for. The arms are held by discriminant, not by declaration, so the arm is
/// looked for: by the index of its declaration, or by its label.
pub struct VariantIx<'a> {
    pub variants: &'a EnumArms,
}

impl<'a> VariantIx<'a> {
    /// A variant named by position: the arm declared at that position.
    pub fn visit_u64(&self, v: u64) -> (r: Result<usize, Error>)
        ensures
            names_arm(r, self.variants@, IdentView::Index(v)),
    {
        let arms = self.variants.as_slice();
        let ghost hits = index_hits(arms@, v);
        let mut ix: usize = 0;
        while ix < arms.len()
            invariant
                ix <= arms@.len(),
                arms@ == self.variants@,
                hits == index_hits(arms@, v),
                forall|j: int| 0 <= j < ix ==> !hits[j],
            decreases arms@.len() - ix,
        {
            if arms[ix].variant_index as u64 == v {
                proof {
                    lemma_first_true_is(hits, ix as int);
                }
                return Ok(ix);
            }
            ix += 1;
        }
        proof {
            lemma_first_true(hits);
        }
        Err(Error::UnknownVariant)
    }

    /// A variant named by text: the arm that has that text for its label.
    pub fn visit_str(&self, v: &str) -> (r: Result<usize, Error>)
        ensures
            names_arm(r, self.variants@, IdentView::Name(v@)),
    {
        let arms = self.variants.as_slice();
        let ghost hits = label_hits(arms@, v@);
        let mut ix: usize = 0;
        while ix < arms.len()
            invariant
                ix <= arms@.len(),
                arms@ == self.variants@,
                hits == label_hits(arms@, v@),
                forall|j: int| 0 <= j < ix ==> !hits[j],
            decreases arms@.len() - ix,
        {
            if str_eq(arms[ix].label.as_str(), v) {
                proof {
                    lemma_first_true_is(hits, ix as int);
                }
                return Ok(ix);
            }
            ix += 1;
        }
        proof {
            lemma_first_true(hits);
        }
        Err(Error::UnknownVariant)
    }

    /// A variant named by the bytes of a text: the arm whose label is
    /// spelled so.
    pub fn visit_bytes(&self, v: &[u8]) -> (r: Result<usize, Error>)
        ensures
            names_arm(r, self.variants@, IdentView::Bytes(v@)),
    {
        let arms = self.variants.as_slice();
        let ghost hits = label_bytes_hits(arms@, v@);
        let mut ix: usize = 0;
        while ix < arms.len()
            invariant
                ix <= arms@.len(),
                arms@ == self.variants@,
                hits == label_bytes_hits(arms@, v@),
                forall|j: int| 0 <= j < ix ==> !hits[j],
            decreases arms@.len() - ix,
        {
            if bytes_eq(arms[ix].label.as_str().as_bytes(), v) {
                proof {
                    lemma_first_true_is(hits, ix as int);
                }
                return Ok(ix);
            }
            ix += 1;
        }
        proof {
            lemma_first_true(hits);
        }
        Err(Error::UnknownVariant)
    }

    /// The arm that an identifier stands for.
    pub fn deserialize(&self, ident: &WireIdent) -> (r: Result<usize, Error>)
        ensures
            names_arm(r, self.variants@, ident@),
    {
        match ident {
            WireIdent::Index(v) => self.visit_u64(*v),
            WireIdent::Name(name) => self.visit_str(name.as_str()),
            WireIdent::Bytes(bytes) => self.visit_bytes(bytes.as_slice()),
        }
    }
}

} // verus!
