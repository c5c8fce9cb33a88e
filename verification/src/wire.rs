//! What travels between the engines and a wire format.
//!
//! The serializer hands a format a tree of [`Emitted`] nodes, one node for
//! each call it would make on a generic serializer. A format hands the
//! deserializer a tree of [`Wire`] nodes, one node for each visit a generic
//! deserializer would make. Neither tree fixes an encoding: a format decides
//! whether it keeps names or positions, and [`Emitted::to_wire`] plays the two
//! usual choices.

use vstd::prelude::*;
use crate::metadata::{RustBuiltin, TypeKey};

verus! {

/// Why a traversal stopped.
#[derive(Clone, Copy, Debug, PartialEq, Eq, Structural)]
pub enum Error {
    /// No descriptor is registered for a type that the traversal reached.
    UnknownType(TypeKey),
    /// A type is marked opaque, and no routine is registered for it.
    UnknownLeaf(TypeKey),
    /// The tag in memory belongs to no arm of the enum's descriptor.
    UnknownDiscriminant(u16),
    /// The wire names a field that the descriptor does not have.
    UnknownField,
    /// The wire names a variant that the descriptor does not have.
    UnknownVariant,
    /// A map ended before each field of the struct had received a value.
    MissingField,
    /// A location reaches past the end of the memory image.
    OutOfBounds,
    /// The value nests deeper than the traversal was allowed to go.
    DepthExceeded,
    /// The format presented another kind of value than the descriptor expects.
    InvalidType,
    /// The format presented a number of elements, or of bytes, that the
    /// descriptor does not expect.
    InvalidLength,
    /// The shape stands for an indirection, which nothing can be read into.
    Indirection,
}

/// The fields that a struct or an enum variant emitted.
#[derive(Debug, PartialEq, Eq)]
pub enum EmittedData {
    /// no fields
    Unit,
    /// unnamed fields, in order
    Tuple(Vec<Emitted>),
    /// named fields, in order
    Fields(Vec<(String, Emitted)>),
}

/// What the serializer tells a format about one value.
#[derive(Debug, PartialEq, Eq)]
pub enum Emitted {
    /// An opaque value: the bytes of its layout, as the routine registered
    /// for `type_id` takes them.
    Leaf { type_id: TypeKey, bytes: Vec<u8> },
    /// A builtin value: the bytes of its width.
    Builtin { kind: RustBuiltin, bytes: Vec<u8> },
    /// A tuple with a known number of elements.
    Tuple(Vec<Emitted>),
    /// A sequence of known length.
    Sequence(Vec<Emitted>),
    /// A newtype wrapper around one value.
    Newtype { name: String, inner: Box<Emitted> },
    /// A unit, tuple or named-field struct.
    Struct { name: String, data: EmittedData },
    /// A unit, tuple or struct variant of an enum, tagged with the arm's
    /// position in the declaration and its label.
    Variant { name: String, variant_index: u32, label: String, data: EmittedData },
}

/// [`EmittedData`] as a mathematical value.
pub ghost enum EmittedDataView {
    Unit,
    Tuple(Seq<EmittedView>),
    Fields(Seq<(Seq<char>, EmittedView)>),
}

/// [`Emitted`] as a mathematical value.
pub ghost enum EmittedView {
    Leaf { type_id: TypeKey, bytes: Seq<u8> },
    Builtin { kind: RustBuiltin, bytes: Seq<u8> },
    Tuple(Seq<EmittedView>),
    Sequence(Seq<EmittedView>),
    Newtype { name: Seq<char>, inner: Box<EmittedView> },
    Struct { name: Seq<char>, data: EmittedDataView },
    Variant { name: Seq<char>, variant_index: u32, label: Seq<char>, data: EmittedDataView },
}

/// The views of a vector of emitted values, element by element.
pub open spec fn emitted_views(items: Seq<Emitted>) -> Seq<EmittedView> {
    Seq::new(items.len(), |i: int| items[i]@)
}

/// The views of a vector of named emitted values, element by element.
pub open spec fn emitted_field_views(items: Seq<(String, Emitted)>) -> Seq<(Seq<char>, EmittedView)> {
    Seq::new(items.len(), |i: int| (items[i].0@, items[i].1@))
}

impl EmittedData {
    /// These fields as a mathematical value.
    pub open spec fn model(self) -> EmittedDataView
        decreases self,
    {
        match self {
            EmittedData::Unit => EmittedDataView::Unit,
            EmittedData::Tuple(items) => EmittedDataView::Tuple(
                Seq::new(
                    items@.len(),
                    |i: int|
                        if 0 <= i < items@.len() {
                            items@[i].model()
                        } else {
                            arbitrary()
                        },
                ),
            ),
            EmittedData::Fields(items) => EmittedDataView::Fields(
                Seq::new(
                    items@.len(),
                    |i: int|
                        if 0 <= i < items@.len() {
                            (items@[i].0@, items@[i].1.model())
                        } else {
                            arbitrary()
                        },
                ),
            ),
        }
    }

    /// The view of tuple data is the view of its elements.
    pub proof fn lemma_view_tuple(items: Vec<Emitted>)
        ensures
            EmittedData::Tuple(items)@ == EmittedDataView::Tuple(emitted_views(items@)),
    {
        assert(EmittedData::Tuple(items)@->Tuple_0 =~= emitted_views(items@));
    }

    /// The view of named data is the view of its elements.
    pub proof fn lemma_view_fields(items: Vec<(String, Emitted)>)
        ensures
            EmittedData::Fields(items)@ == EmittedDataView::Fields(emitted_field_views(items@)),
    {
        assert(EmittedData::Fields(items)@->Fields_0 =~= emitted_field_views(items@));
    }
}

impl Emitted {
    /// This value as a mathematical value.
    pub open spec fn model(self) -> EmittedView
        decreases self,
    {
        match self {
            Emitted::Leaf { type_id, bytes } => EmittedView::Leaf { type_id, bytes: bytes@ },
            Emitted::Builtin { kind, bytes } => EmittedView::Builtin { kind, bytes: bytes@ },
            Emitted::Tuple(items) => EmittedView::Tuple(
                Seq::new(
                    items@.len(),
                    |i: int|
                        if 0 <= i < items@.len() {
                            items@[i].model()
                        } else {
                            arbitrary()
                        },
                ),
            ),
            Emitted::Sequence(items) => EmittedView::Sequence(
                Seq::new(
                    items@.len(),
                    |i: int|
                        if 0 <= i < items@.len() {
                            items@[i].model()
                        } else {
                            arbitrary()
                        },
                ),
            ),
            Emitted::Newtype { name, inner } => EmittedView::Newtype {
                name: name@,
                inner: Box::new((*inner).model()),
            },
            Emitted::Struct { name, data } => EmittedView::Struct { name: name@, data: data.model() },
            Emitted::Variant { name, variant_index, label, data } => EmittedView::Variant {
                name: name@,
                variant_index,
                label: label@,
                data: data.model(),
            },
        }
    }

    /// The view of a tuple is the view of its elements.
    pub proof fn lemma_view_tuple(items: Vec<Emitted>)
        ensures
            Emitted::Tuple(items)@ == EmittedView::Tuple(emitted_views(items@)),
    {
        assert(Emitted::Tuple(items)@->Tuple_0 =~= emitted_views(items@));
    }

    /// The view of a sequence is the view of its elements.
    pub proof fn lemma_view_seq(items: Vec<Emitted>)
        ensures
            Emitted::Sequence(items)@ == EmittedView::Sequence(emitted_views(items@)),
    {
        assert(Emitted::Sequence(items)@->Sequence_0 =~= emitted_views(items@));
    }
}

impl View for EmittedData {
    type V = EmittedDataView;

    open spec fn view(&self) -> EmittedDataView {
        self.model()
    }
}

impl View for Emitted {
    type V = EmittedView;

    open spec fn view(&self) -> EmittedView {
        self.model()
    }
}

/// How the wire names a field or a variant.
#[derive(Debug, PartialEq, Eq)]
pub enum WireIdent {
    /// by position
    Index(u64),
    /// by name, as text
    Name(String),
    /// by name, as the bytes of the text
    Bytes(Vec<u8>),
}

/// [`WireIdent`] as a mathematical value.
pub ghost enum IdentView {
    Index(u64),
    Name(Seq<char>),
    Bytes(Seq<u8>),
}

impl View for WireIdent {
    type V = IdentView;

    open spec fn view(&self) -> IdentView {
        match self {
            WireIdent::Index(i) => IdentView::Index(*i),
            WireIdent::Name(n) => IdentView::Name(n@),
            WireIdent::Bytes(b) => IdentView::Bytes(b@),
        }
    }
}

/// What a format presents to the deserializer for one value.
#[derive(Debug, PartialEq, Eq)]
pub enum Wire {
    /// The bytes of one opaque or builtin value.
    Scalar(Vec<u8>),
    /// A unit.
    Unit,
    /// A newtype wrapper around one value.
    Newtype(Box<Wire>),
    /// A sequence of values.
    Sequence(Vec<Wire>),
    /// A map from identifiers to values, in the order of arrival.
    Mapping(Vec<(WireIdent, Wire)>),
    /// An enum variant: its identifier, and a unit, a sequence or a map for
    /// its fields.
    Variant { ident: WireIdent, payload: Box<Wire> },
}

/// [`Wire`] as a mathematical value.
pub ghost enum WireView {
    Scalar(Seq<u8>),
    Unit,
    Newtype(Box<WireView>),
    Sequence(Seq<WireView>),
    Mapping(Seq<(IdentView, WireView)>),
    Variant { ident: IdentView, payload: Box<WireView> },
}

/// The views of a vector of wire values, element by element.
pub open spec fn wire_views(items: Seq<Wire>) -> Seq<WireView> {
    Seq::new(items.len(), |i: int| items[i]@)
}

/// The views of a vector of map entries, element by element.
pub open spec fn wire_entry_views(items: Seq<(WireIdent, Wire)>) -> Seq<(IdentView, WireView)> {
    Seq::new(items.len(), |i: int| (items[i].0@, items[i].1@))
}

impl Wire {
    /// This value as a mathematical value.
    pub open spec fn model(self) -> WireView
        decreases self,
    {
        match self {
            Wire::Scalar(bytes) => WireView::Scalar(bytes@),
            Wire::Unit => WireView::Unit,
            Wire::Newtype(inner) => WireView::Newtype(Box::new((*inner).model())),
            Wire::Sequence(items) => WireView::Sequence(
                Seq::new(
                    items@.len(),
                    |i: int|
                        if 0 <= i < items@.len() {
                            items@[i].model()
                        } else {
                            arbitrary()
                        },
                ),
            ),
            Wire::Mapping(items) => WireView::Mapping(
                Seq::new(
                    items@.len(),
                    |i: int|
                        if 0 <= i < items@.len() {
                            (items@[i].0@, items@[i].1.model())
                        } else {
                            arbitrary()
                        },
                ),
            ),
            Wire::Variant { ident, payload } => WireView::Variant {
                ident: ident@,
                payload: Box::new((*payload).model()),
            },
        }
    }

    /// The view of a sequence is the view of its elements.
    pub proof fn lemma_view_seq(items: Vec<Wire>)
        ensures
            Wire::Sequence(items)@ == WireView::Sequence(wire_views(items@)),
    {
        assert(Wire::Sequence(items)@->Sequence_0 =~= wire_views(items@));
    }

    /// The view of a map is the view of its entries.
    pub proof fn lemma_view_map(items: Vec<(WireIdent, Wire)>)
        ensures
            Wire::Mapping(items)@ == WireView::Mapping(wire_entry_views(items@)),
    {
        assert(Wire::Mapping(items)@->Mapping_0 =~= wire_entry_views(items@));
    }
}

impl View for Wire {
    type V = WireView;

    open spec fn view(&self) -> WireView {
        self.model()
    }
}

/// The two usual ways in which a format writes down what was emitted.
#[derive(Clone, Copy, Debug, PartialEq, Eq, Structural)]
pub enum WireStyle {
    /// Self-describing: a struct is a map keyed by field name, and a variant
    /// goes by its label.
    Named,
    /// Compact: a struct is the sequence of its fields, and a variant goes by
    /// its index.
    Positional,
}

/// How a format of the given style names a variant.
pub open spec fn variant_ident(style: WireStyle, variant_index: u32, label: Seq<char>) -> IdentView {
    match style {
        WireStyle::Named => IdentView::Name(label),
        WireStyle::Positional => IdentView::Index(variant_index as u64),
    }
}

/// The map entries for named fields: each value under the name of its field.
pub open spec fn named_entries(names: Seq<Seq<char>>, values: Seq<WireView>) -> Seq<(IdentView, WireView)> {
    Seq::new(values.len(), |i: int| (IdentView::Name(names[i]), values[i]))
}

/// What a format of the given style presents for an emitted value.
pub open spec fn wire_of(e: EmittedView, style: WireStyle) -> WireView
    decreases e,
{
    match e {
        EmittedView::Leaf { bytes, .. } => WireView::Scalar(bytes),
        EmittedView::Builtin { bytes, .. } => WireView::Scalar(bytes),
        EmittedView::Tuple(items) => WireView::Sequence(wires_of(items, style)),
        EmittedView::Sequence(items) => WireView::Sequence(wires_of(items, style)),
        EmittedView::Newtype { inner, .. } => WireView::Newtype(Box::new(wire_of(*inner, style))),
        EmittedView::Struct { data, .. } => wire_of_data(data, style),
        EmittedView::Variant { variant_index, label, data, .. } => WireView::Variant {
            ident: variant_ident(style, variant_index, label),
            payload: Box::new(wire_of_data(data, style)),
        },
    }
}

/// What a format of the given style presents for a run of emitted values.
pub open spec fn wires_of(items: Seq<EmittedView>, style: WireStyle) -> Seq<WireView>
    decreases items,
{
    Seq::new(
        items.len(),
        |i: int|
            if 0 <= i < items.len() {
                wire_of(items[i], style)
            } else {
                arbitrary()
            },
    )
}

/// The names of a run of named values.
pub open spec fn names_of(items: Seq<(Seq<char>, EmittedView)>) -> Seq<Seq<char>> {
    Seq::new(items.len(), |i: int| items[i].0)
}

/// What a format of the given style presents for a run of named values, the
/// names left aside.
pub open spec fn field_wires_of(items: Seq<(Seq<char>, EmittedView)>, style: WireStyle) -> Seq<WireView>
    decreases items,
{
    Seq::new(
        items.len(),
        |i: int|
            if 0 <= i < items.len() {
                wire_of(items[i].1, style)
            } else {
                arbitrary()
            },
    )
}

/// What a format of the given style presents for the fields of a struct or
/// of a variant.
pub open spec fn wire_of_data(d: EmittedDataView, style: WireStyle) -> WireView
    decreases d,
{
    match d {
        EmittedDataView::Unit => WireView::Unit,
        EmittedDataView::Tuple(items) => WireView::Sequence(wires_of(items, style)),
        EmittedDataView::Fields(items) => match style {
            WireStyle::Named => WireView::Mapping(named_entries(names_of(items), field_wires_of(items, style))),
            WireStyle::Positional => WireView::Sequence(field_wires_of(items, style)),
        },
    }
}

impl Emitted {
    /// What a format of the given style presents for this value when it is
    /// read back.
    pub fn to_wire(&self, style: WireStyle) -> (w: Wire)
        ensures
            w@ == wire_of(self@, style),
        decreases self, 1nat,
    {
        match self {
            Emitted::Leaf { bytes, .. } => Wire::Scalar(bytes.clone()),
            Emitted::Builtin { bytes, .. } => Wire::Scalar(bytes.clone()),
            Emitted::Tuple(items) => {
                proof {
                    Emitted::lemma_view_tuple(*items);
                }
                let wires = wires_from(items, style);
                proof {
                    Wire::lemma_view_seq(wires);
                }
                Wire::Sequence(wires)
            },
            Emitted::Sequence(items) => {
                proof {
                    Emitted::lemma_view_seq(*items);
                }
                let wires = wires_from(items, style);
                proof {
                    Wire::lemma_view_seq(wires);
                }
                Wire::Sequence(wires)
            },
            Emitted::Newtype { inner, .. } => Wire::Newtype(Box::new(inner.to_wire(style))),
            Emitted::Struct { data, .. } => data.to_wire(style),
            Emitted::Variant { variant_index, label, data, .. } => {
                let ident = match style {
                    WireStyle::Named => WireIdent::Name(label.clone()),
                    WireStyle::Positional => WireIdent::Index(*variant_index as u64),
                };
                Wire::Variant { ident, payload: Box::new(data.to_wire(style)) }
            },
        }
    }
}

/// What a format of the given style presents for each of a run of values.
pub fn wires_from(items: &Vec<Emitted>, style: WireStyle) -> (wires: Vec<Wire>)
    ensures
        wire_views(wires@) == wires_of(emitted_views(items@), style),
    decreases items, 0nat,
{
    let mut wires: Vec<Wire> = Vec::new();
    let mut i: usize = 0;
    while i < items.len()
        invariant
            i <= items@.len(),
            wires@.len() == i,
            forall|k: int| 0 <= k < i ==> (#[trigger] wires@[k])@ == wire_of(items@[k]@, style),
        decreases items@.len() - i,
    {
        wires.push(items[i].to_wire(style));
        i += 1;
    }
    assert(wire_views(wires@) =~= wires_of(emitted_views(items@), style));
    wires
}

impl EmittedData {
    /// What a format of the given style presents for these fields when they
    /// are read back.
    pub fn to_wire(&self, style: WireStyle) -> (w: Wire)
        ensures
            w@ == wire_of_data(self@, style),
        decreases self, 1nat,
    {
        match self {
            EmittedData::Unit => Wire::Unit,
            EmittedData::Tuple(items) => {
                proof {
                    EmittedData::lemma_view_tuple(*items);
                }
                let wires = wires_from(items, style);
                proof {
                    Wire::lemma_view_seq(wires);
                }
                Wire::Sequence(wires)
            },
            EmittedData::Fields(items) => {
                proof {
                    EmittedData::lemma_view_fields(*items);
                }
                let ghost views = emitted_field_views(items@);
                match style {
                    WireStyle::Named => {
                        let mut entries: Vec<(WireIdent, Wire)> = Vec::new();
                        let mut i: usize = 0;
                        while i < items.len()
                            invariant
                                i <= items@.len(),
                                entries@.len() == i,
                                *self == EmittedData::Fields(*items),
                                forall|k: int|
                                    0 <= k < i ==> (#[trigger] entries@[k]).0@ == IdentView::Name(items@[k].0@)
                                        && entries@[k].1@ == wire_of(items@[k].1@, style),
                            decreases items@.len() - i,
                        {
                            assert((*self)->Fields_0 == *items);
                            entries.push((WireIdent::Name(items[i].0.clone()), items[i].1.to_wire(style)));
                            i += 1;
                        }
                        proof {
                            Wire::lemma_view_map(entries);
                            assert(wire_entry_views(entries@) =~= named_entries(
                                names_of(views),
                                field_wires_of(views, style),
                            ));
                        }
                        Wire::Mapping(entries)
                    },
                    WireStyle::Positional => {
                        let mut wires: Vec<Wire> = Vec::new();
                        let mut i: usize = 0;
                        while i < items.len()
                            invariant
                                i <= items@.len(),
                                wires@.len() == i,
                                *self == EmittedData::Fields(*items),
                                forall|k: int|
                                    0 <= k < i ==> (#[trigger] wires@[k])@ == wire_of(items@[k].1@, style),
                            decreases items@.len() - i,
                        {
                            assert((*self)->Fields_0 == *items);
                            wires.push(items[i].1.to_wire(style));
                            i += 1;
                        }
                        proof {
                            Wire::lemma_view_seq(wires);
                            assert(wire_views(wires@) =~= field_wires_of(views, style));
                        }
                        Wire::Sequence(wires)
                    },
                }
            },
        }
    }
}

/// A copy of each of a run of emitted values.
pub fn duplicate_emitted(items: &Vec<Emitted>) -> (copies: Vec<Emitted>)
    ensures
        emitted_views(copies@) == emitted_views(items@),
    decreases items, 0nat,
{
    let mut copies: Vec<Emitted> = Vec::new();
    let mut i: usize = 0;
    while i < items.len()
        invariant
            i <= items@.len(),
            copies@.len() == i,
            forall|k: int| 0 <= k < i ==> (#[trigger] copies@[k])@ == items@[k]@,
        decreases items@.len() - i,
    {
        copies.push(items[i].duplicate());
        i += 1;
    }
    assert(emitted_views(copies@) =~= emitted_views(items@));
    copies
}

impl EmittedData {
    /// A copy of these fields and of all they hold.
    pub fn duplicate(&self) -> (copy: EmittedData)
        ensures
            copy@ == self@,
        decreases self, 1nat,
    {
        match self {
            EmittedData::Unit => EmittedData::Unit,
            EmittedData::Tuple(items) => {
                let copies = duplicate_emitted(items);
                proof {
                    EmittedData::lemma_view_tuple(*items);
                    EmittedData::lemma_view_tuple(copies);
                }
                EmittedData::Tuple(copies)
            },
            EmittedData::Fields(items) => {
                let mut copies: Vec<(String, Emitted)> = Vec::new();
                let mut i: usize = 0;
                while i < items.len()
                    invariant
                        i <= items@.len(),
                        copies@.len() == i,
                        *self == EmittedData::Fields(*items),
                        forall|k: int|
                            0 <= k < i ==> (#[trigger] copies@[k]).0@ == items@[k].0@ && copies@[k].1@
                                == items@[k].1@,
                    decreases items@.len() - i,
                {
                    assert((*self)->Fields_0 == *items);
                    copies.push((items[i].0.clone(), items[i].1.duplicate()));
                    i += 1;
                }
                proof {
                    EmittedData::lemma_view_fields(*items);
                    EmittedData::lemma_view_fields(copies);
                    assert(emitted_field_views(copies@) =~= emitted_field_views(items@));
                }
                EmittedData::Fields(copies)
            },
        }
    }
}

impl Emitted {
    /// A copy of this value and of all it holds.
    pub fn duplicate(&self) -> (copy: Emitted)
        ensures
            copy@ == self@,
        decreases self, 1nat,
    {
        match self {
            Emitted::Leaf { type_id, bytes } => Emitted::Leaf { type_id: *type_id, bytes: bytes.clone() },
            Emitted::Builtin { kind, bytes } => Emitted::Builtin { kind: *kind, bytes: bytes.clone() },
            Emitted::Tuple(items) => {
                let copies = duplicate_emitted(items);
                proof {
                    Emitted::lemma_view_tuple(*items);
                    Emitted::lemma_view_tuple(copies);
                }
                Emitted::Tuple(copies)
            },
            Emitted::Sequence(items) => {
                let copies = duplicate_emitted(items);
                proof {
                    Emitted::lemma_view_seq(*items);
                    Emitted::lemma_view_seq(copies);
                }
                Emitted::Sequence(copies)
            },
            Emitted::Newtype { name, inner } => Emitted::Newtype {
                name: name.clone(),
                inner: Box::new(inner.duplicate()),
            },
            Emitted::Struct { name, data } => Emitted::Struct { name: name.clone(), data: data.duplicate() },
            Emitted::Variant { name, variant_index, label, data } => Emitted::Variant {
                name: name.clone(),
                variant_index: *variant_index,
                label: label.clone(),
                data: data.duplicate(),
            },
        }
    }
}

impl Clone for EmittedData {
    fn clone(&self) -> (copy: EmittedData)
        ensures
            copy@ == self@,
    {
        self.duplicate()
    }
}

impl Clone for Emitted {
    fn clone(&self) -> (copy: Emitted)
        ensures
            copy@ == self@,
    {
        self.duplicate()
    }
}

impl WireIdent {
    /// A copy of this identifier.
    pub fn duplicate(&self) -> (copy: WireIdent)
        ensures
            copy@ == self@,
    {
        match self {
            WireIdent::Index(i) => WireIdent::Index(*i),
            WireIdent::Name(n) => WireIdent::Name(n.clone()),
            WireIdent::Bytes(b) => WireIdent::Bytes(b.clone()),
        }
    }
}

impl Wire {
    /// A copy of this value and of all it holds.
    pub fn duplicate(&self) -> (copy: Wire)
        ensures
            copy@ == self@,
        decreases self,
    {
        match self {
            Wire::Scalar(bytes) => Wire::Scalar(bytes.clone()),
            Wire::Unit => Wire::Unit,
            Wire::Newtype(inner) => Wire::Newtype(Box::new(inner.duplicate())),
            Wire::Sequence(items) => {
                let mut copies: Vec<Wire> = Vec::new();
                let mut i: usize = 0;
                while i < items.len()
                    invariant
                        i <= items@.len(),
                        copies@.len() == i,
                        *self == Wire::Sequence(*items),
                        forall|k: int| 0 <= k < i ==> (#[trigger] copies@[k])@ == items@[k]@,
                    decreases items@.len() - i,
                {
                    assert((*self)->Sequence_0 == *items);
                    copies.push(items[i].duplicate());
                    i += 1;
                }
                proof {
                    Wire::lemma_view_seq(*items);
                    Wire::lemma_view_seq(copies);
                    assert(wire_views(copies@) =~= wire_views(items@));
                }
                Wire::Sequence(copies)
            },
            Wire::Mapping(items) => {
                let mut copies: Vec<(WireIdent, Wire)> = Vec::new();
                let mut i: usize = 0;
                while i < items.len()
                    invariant
                        i <= items@.len(),
                        copies@.len() == i,
                        *self == Wire::Mapping(*items),
                        forall|k: int|
                            0 <= k < i ==> (#[trigger] copies@[k]).0@ == items@[k].0@ && copies@[k].1@
                                == items@[k].1@,
                    decreases items@.len() - i,
                {
                    assert((*self)->Mapping_0 == *items);
                    copies.push((items[i].0.duplicate(), items[i].1.duplicate()));
                    i += 1;
                }
                proof {
                    Wire::lemma_view_map(*items);
                    Wire::lemma_view_map(copies);
                    assert(wire_entry_views(copies@) =~= wire_entry_views(items@));
                }
                Wire::Mapping(copies)
            },
            Wire::Variant { ident, payload } => Wire::Variant {
                ident: ident.duplicate(),
                payload: Box::new(payload.duplicate()),
            },
        }
    }
}

impl Clone for WireIdent {
    fn clone(&self) -> (copy: Self)
        ensures
            copy@ == self@,
    {
        self.duplicate()
    }
}

impl Clone for Wire {
    fn clone(&self) -> (copy: Wire)
        ensures
            copy@ == self@,
    {
        self.duplicate()
    }
}

} // verus!
