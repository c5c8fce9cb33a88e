//! The type descriptor model: what a registered type looks like in memory.
//!
//! A descriptor is plain data. Nested types are named by their identity and
//! resolved through the registry while a value is walked, so descriptors stay
//! small and type graphs may refer back to themselves.

use vstd::prelude::*;

verus! {

/// The identity of a registered type: opaque, and unique per distinct type.
pub type TypeKey = u64;

/// A primitive value that can occur in an attribute.
#[derive(Debug, PartialEq, Eq)]
pub enum RustPrimitive {
    Str(String),
    ByteStr(Vec<u8>),
    Byte(u8),
    Char(char),
    Int(i128),
    /// The bit pattern of a binary64 number.
    Float(u64),
    Bool(bool),
}

/// [`RustPrimitive`] as a mathematical value.
pub ghost enum RustPrimitiveView {
    Str(Seq<char>),
    ByteStr(Seq<u8>),
    Byte(u8),
    Char(char),
    Int(i128),
    Float(u64),
    Bool(bool),
}

impl View for RustPrimitive {
    type V = RustPrimitiveView;

    open spec fn view(&self) -> RustPrimitiveView {
        match self {
            RustPrimitive::Str(s) => RustPrimitiveView::Str(s@),
            RustPrimitive::ByteStr(b) => RustPrimitiveView::ByteStr(b@),
            RustPrimitive::Byte(b) => RustPrimitiveView::Byte(*b),
            RustPrimitive::Char(c) => RustPrimitiveView::Char(*c),
            RustPrimitive::Int(i) => RustPrimitiveView::Int(*i),
            RustPrimitive::Float(bits) => RustPrimitiveView::Float(*bits),
            RustPrimitive::Bool(b) => RustPrimitiveView::Bool(*b),
        }
    }
}

impl RustPrimitive {
    /// A copy of this value.
    pub fn duplicate(&self) -> (copy: RustPrimitive)
        ensures
            copy@ == self@,
    {
        match self {
            RustPrimitive::Str(s) => RustPrimitive::Str(s.clone()),
            RustPrimitive::ByteStr(b) => RustPrimitive::ByteStr(b.clone()),
            RustPrimitive::Byte(b) => RustPrimitive::Byte(*b),
            RustPrimitive::Char(c) => RustPrimitive::Char(*c),
            RustPrimitive::Int(i) => RustPrimitive::Int(*i),
            RustPrimitive::Float(bits) => RustPrimitive::Float(*bits),
            RustPrimitive::Bool(b) => RustPrimitive::Bool(*b),
        }
    }
}

impl Clone for RustPrimitive {
    fn clone(&self) -> (copy: RustPrimitive)
        ensures
            copy@ == self@,
    {
        self.duplicate()
    }
}

/// An `#[attribute]` carried along with a descriptor. The traversal never
/// interprets it.
#[derive(Debug, PartialEq, Eq)]
pub enum Attr {
    /// `#[foo]`
    Name(String),
    /// `#[foo(...)]`
    List(String, Vec<Attr>),
    /// `#[bar = ...]`
    NameValue(String, RustPrimitive),
}

/// [`Attr`] as a mathematical value.
pub ghost enum AttrView {
    Name(Seq<char>),
    List(Seq<char>, Seq<AttrView>),
    NameValue(Seq<char>, RustPrimitiveView),
}

/// The views of a run of attributes, element by element.
pub open spec fn attr_views(items: Seq<Attr>) -> Seq<AttrView> {
    Seq::new(items.len(), |i: int| items[i]@)
}

impl Attr {
    /// This attribute as a mathematical value.
    pub open spec fn model(self) -> AttrView
        decreases self,
    {
        match self {
            Attr::Name(n) => AttrView::Name(n@),
            Attr::List(n, items) => AttrView::List(
                n@,
                Seq::new(
                    items@.len(),
                    |i: int|
                        if 0 <= i < items@.len() {
                            items@[i].model()
                        } else {
                            arbitrary()
                        },
                ),
            ),
            Attr::NameValue(n, v) => AttrView::NameValue(n@, v@),
        }
    }

    /// The view of a list is the view of its elements.
    pub proof fn lemma_view_list(name: String, items: Vec<Attr>)
        ensures
            Attr::List(name, items)@ == AttrView::List(name@, attr_views(items@)),
    {
        assert(Attr::List(name, items)@->List_1 =~= attr_views(items@));
    }

    /// A copy of this attribute and of all it holds.
    pub fn duplicate(&self) -> (copy: Attr)
        ensures
            copy@ == self@,
        decreases self,
    {
        match self {
            Attr::Name(n) => Attr::Name(n.clone()),
            Attr::List(n, items) => {
                let mut copies: Vec<Attr> = Vec::new();
                let mut i: usize = 0;
                while i < items.len()
                    invariant
                        i <= items@.len(),
                        copies@.len() == i,
                        *self == Attr::List(*n, *items),
                        forall|k: int| 0 <= k < i ==> (#[trigger] copies@[k])@ == items@[k]@,
                    decreases items@.len() - i,
                {
                    assert((*self)->List_1 == *items);
                    copies.push(items[i].duplicate());
                    i += 1;
                }
                let name = n.clone();
                proof {
                    Attr::lemma_view_list(*n, *items);
                    Attr::lemma_view_list(name, copies);
                    assert(attr_views(copies@) =~= attr_views(items@));
                }
                Attr::List(name, copies)
            },
            Attr::NameValue(n, v) => Attr::NameValue(n.clone(), v.duplicate()),
        }
    }
}

impl View for Attr {
    type V = AttrView;

    open spec fn view(&self) -> AttrView {
        self.model()
    }
}

impl Clone for Attr {
    fn clone(&self) -> (copy: Attr)
        ensures
            copy@ == self@,
    {
        self.duplicate()
    }
}

/// The small builtin types whose width is fixed by the language.
#[derive(Clone, Copy, Debug, PartialEq, Eq, Structural)]
pub enum RustBuiltin {
    U8,
    I8,
    U16,
    I16,
    U32,
    I32,
    U64,
    I64,
    U128,
    I128,
    BOOLIN,
    CHAR,
}

impl RustBuiltin {
    /// The number of bytes a value of this builtin occupies.
    pub open spec fn width(self) -> nat {
        match self {
            RustBuiltin::U8 | RustBuiltin::I8 | RustBuiltin::BOOLIN => 1,
            RustBuiltin::U16 | RustBuiltin::I16 => 2,
            RustBuiltin::U32 | RustBuiltin::I32 | RustBuiltin::CHAR => 4,
            RustBuiltin::U64 | RustBuiltin::I64 => 8,
            RustBuiltin::U128 | RustBuiltin::I128 => 16,
        }
    }

    /// The number of bytes a value of this builtin occupies.
    pub fn size(&self) -> (n: usize)
        ensures
            n == self.width(),
    {
        match self {
            RustBuiltin::U8 | RustBuiltin::I8 | RustBuiltin::BOOLIN => 1,
            RustBuiltin::U16 | RustBuiltin::I16 => 2,
            RustBuiltin::U32 | RustBuiltin::I32 | RustBuiltin::CHAR => 4,
            RustBuiltin::U64 | RustBuiltin::I64 => 8,
            RustBuiltin::U128 | RustBuiltin::I128 => 16,
        }
    }
}

/// Size and alignment of a type, in bytes.
#[derive(Clone, Copy, Debug, PartialEq, Eq, Structural)]
pub struct Layout {
    pub size: usize,
    pub align: usize,
}

impl Layout {
    /// The distance between two neighbouring elements of an array of this
    /// layout: the size, rounded up to the next multiple of the alignment.
    /// An alignment of zero pads nothing.
    pub open spec fn stride(self) -> int {
        if self.align == 0 || self.size % self.align == 0 {
            self.size as int
        } else {
            self.size + self.align - self.size % self.align
        }
    }

    /// The stride is the least multiple of the alignment that holds the size.
    pub proof fn lemma_stride_is_least_padding(self)
        requires
            self.align > 0,
        ensures
            self.stride() % (self.align as int) == 0,
            self.size <= self.stride() < self.size + self.align,
            forall|m: int| #[trigger] (m % (self.align as int)) == 0 && self.size <= m ==> self.stride() <= m,
    {
        let a = self.align as int;
        let s = self.size as int;
        let r = s % a;
        let q = s / a;
        assert(s == a * q + r) by (nonlinear_arith)
            requires
                a > 0,
                q == s / a,
                r == s % a,
        ;
        if r != 0 {
            assert(self.stride() == a * (q + 1)) by (nonlinear_arith)
                requires
                    self.stride() == s + a - r,
                    s == a * q + r,
            ;
            assert((a * (q + 1)) % a == 0) by (nonlinear_arith)
                requires
                    a > 0,
            ;
        }
        assert forall|m: int| #[trigger] (m % a) == 0 && s <= m implies self.stride() <= m by {
            if r != 0 {
                let k = m / a;
                assert(m == a * k) by (nonlinear_arith)
                    requires
                        a > 0,
                        k == m / a,
                        m % a == 0,
                ;
                assert(k > q) by (nonlinear_arith)
                    requires
                        a > 0,
                        a * k >= a * q + r,
                        r > 0,
                ;
                assert(a * k >= a * (q + 1)) by (nonlinear_arith)
                    requires
                        a > 0,
                        k >= q + 1,
                ;
            }
        }
    }

    /// A layout of `size` bytes, aligned to `align` bytes.
    pub fn new(size: usize, align: usize) -> (l: Layout)
        ensures
            l.size == size,
            l.align == align,
    {
        Layout { size, align }
    }

    /// The size padded to the alignment, where it fits the machine word.
    pub fn padded_size(&self) -> (r: Option<usize>)
        ensures
            r == if self.stride() <= usize::MAX {
                Some(self.stride() as usize)
            } else {
                None::<usize>
            },
    {
        if self.align == 0 {
            return Some(self.size);
        }
        let rem: usize = self.size % self.align;
        if rem == 0 {
            Some(self.size)
        } else {
            self.size.checked_add(self.align - rem)
        }
    }
}

/// A named field, offset from the base of its containing type.
#[derive(Debug, PartialEq, Eq)]
pub struct Field {
    /// offset relative to the containing type
    pub offset: usize,
    pub name: String,
    /// the field's own type, looked up in the registry when the field is reached
    pub type_id: TypeKey,
    pub attrs: Vec<Attr>,
}

/// An unnamed field, such as occurs in tuples or tuple-structs.
#[derive(Debug, PartialEq, Eq)]
pub struct TupleField {
    /// offset relative to the containing type
    pub offset: usize,
    /// the field's own type, looked up in the registry when the field is reached
    pub type_id: TypeKey,
    pub attrs: Vec<Attr>,
}

/// A header together with the named fields it describes.
#[derive(Debug, PartialEq, Eq)]
pub struct WithFields<Hdr> {
    pub header: Hdr,
    pub fields: Vec<Field>,
}

/// A header together with the unnamed fields it describes.
#[derive(Debug, PartialEq, Eq)]
pub struct WithTupleFields<Hdr> {
    pub header: Hdr,
    pub fields: Vec<TupleField>,
}

/// The sorts of data carriers in structs and enum variants.
#[derive(Debug, PartialEq, Eq)]
pub enum VariantData {
    /// No fields
    Unit,
    /// Named fields, `{foo: T, ...}`. `labels_for_serde` lists the names of
    /// the fields, as a format is told them when the struct is asked for.
    Fields { labels_for_serde: Vec<String>, fields: Vec<Field> },
    /// Unnamed fields `(T, U, ...)`
    Tuple(Vec<TupleField>),
}

/// An arm of an enum declaration, describing a variant.
#[derive(Debug, PartialEq, Eq)]
pub struct EnumArm {
    pub label: String,
    /// position in the declaration
    pub variant_index: u16,
    /// the tag found in memory when this variant is the active one
    pub discriminant: u16,
    pub attrs: Vec<Attr>,
    /// The offsets in the variant's fields are relative to the enum base,
    /// that is, the address of the discriminant.
    pub variant: VariantData,
}

/// Each arm's discriminant is smaller than that of every later arm.
pub open spec fn ascending(arms: Seq<EnumArm>) -> bool {
    forall|i: int, j: int|
        0 <= i < j < arms.len() ==> (#[trigger] arms[i]).discriminant < (#[trigger] arms[j]).discriminant
}

/// Which arms have the discriminant `tag`.
pub open spec fn arm_hits(arms: Seq<EnumArm>, tag: u16) -> Seq<bool> {
    Seq::new(arms.len(), |i: int| arms[i].discriminant == tag)
}

/// The position of the arm whose discriminant is `tag`, the first if there
/// are several.
pub open spec fn arm_position(arms: Seq<EnumArm>, tag: u16) -> Option<int> {
    first_true(arm_hits(arms, tag))
}

/// The least position among the first `n` at which `hits` holds.
pub open spec fn first_true_within(hits: Seq<bool>, n: int) -> Option<int>
    decreases n,
{
    if n <= 0 {
        None
    } else {
        match first_true_within(hits, n - 1) {
            Some(i) => Some(i),
            None => if hits[n - 1] {
                Some(n - 1)
            } else {
                None
            },
        }
    }
}

/// The least position at which `hits` holds.
pub open spec fn first_true(hits: Seq<bool>) -> Option<int> {
    first_true_within(hits, hits.len() as int)
}

/// `first_true_within` finds a position exactly when one exists, and then the least.
pub proof fn lemma_first_true_within(hits: Seq<bool>, n: int)
    ensures
        match first_true_within(hits, n) {
            Some(i) => 0 <= i < n && hits[i] && forall|j: int| 0 <= j < i ==> !hits[j],
            None => forall|j: int| 0 <= j < n ==> !hits[j],
        },
    decreases n,
{
    if n > 0 {
        lemma_first_true_within(hits, n - 1);
    }
}

/// `first_true` finds a position exactly when one exists, and then the least.
pub proof fn lemma_first_true(hits: Seq<bool>)
    ensures
        match first_true(hits) {
            Some(i) => 0 <= i < hits.len() && hits[i] && forall|j: int| 0 <= j < i ==> !hits[j],
            None => forall|j: int| 0 <= j < hits.len() ==> !hits[j],
        },
{
    lemma_first_true_within(hits, hits.len() as int);
}

/// A position that holds and has none before it is the one `first_true` finds.
pub proof fn lemma_first_true_is(hits: Seq<bool>, i: int)
    requires
        0 <= i < hits.len(),
        hits[i],
        forall|j: int| 0 <= j < i ==> !hits[j],
    ensures
        first_true(hits) == Some(i),
{
    lemma_first_true(hits);
}

/// The arms of an enum, held in ascending order of discriminant so that the
/// arm for a tag read from memory is found by bisection.
#[derive(Debug, PartialEq, Eq)]
pub struct EnumArms {
    arms: Vec<EnumArm>,
}

impl View for EnumArms {
    type V = Seq<EnumArm>;

    closed spec fn view(&self) -> Seq<EnumArm> {
        self.arms@
    }
}

impl EnumArms {
    #[verifier::type_invariant]
    spec fn in_order(self) -> bool {
        ascending(self.arms@)
    }

    /// Accepts the arms where their discriminants ascend strictly.
    pub fn new(arms: Vec<EnumArm>) -> (r: Option<EnumArms>)
        ensures
            r is Some <==> ascending(arms@),
            r is Some ==> r->0@ == arms@,
    {
        let n = arms.len();
        let mut i: usize = 1;
        while i < n
            invariant
                n == arms@.len(),
                1 <= i,
                forall|k: int| 0 < k < i && k < n ==> (#[trigger] arms@[k - 1]).discriminant < arms@[k].discriminant,
            decreases n - i,
        {
            if arms[i - 1].discriminant >= arms[i].discriminant {
                return None;
            }
            i += 1;
        }
        proof {
            lemma_neighbours_ascend(arms@);
        }
        Some(EnumArms { arms })
    }

    /// The number of arms.
    pub fn len(&self) -> (n: usize)
        ensures
            n == self@.len(),
    {
        self.arms.len()
    }

    /// The arm at place `i`, counted in ascending order of discriminant.
    pub fn get(&self, i: usize) -> (arm: &EnumArm)
        requires
            i < self@.len(),
        ensures
            *arm == self@[i as int],
    {
        &self.arms[i]
    }

    /// The arms as a slice, in ascending order of discriminant.
    pub fn as_slice(&self) -> (arms: &[EnumArm])
        ensures
            arms@ == self@,
            ascending(arms@),
    {
        proof {
            use_type_invariant(self);
        }
        self.arms.as_slice()
    }

    /// Finds the arm for a discriminant read from memory, by bisection.
    pub fn find(&self, tag: u16) -> (r: Option<usize>)
        ensures
            match r {
                Some(i) => i < self@.len() && arm_position(self@, tag) == Some(i as int),
                None => arm_position(self@, tag) is None,
            },
    {
        proof {
            use_type_invariant(self);
        }
        let mut lo: usize = 0;
        let mut hi: usize = self.arms.len();
        while lo < hi
            invariant
                0 <= lo <= hi <= self.arms@.len(),
                ascending(self.arms@),
                forall|k: int| 0 <= k < lo ==> (#[trigger] self.arms@[k]).discriminant < tag,
                forall|k: int| hi <= k < self.arms@.len() ==> (#[trigger] self.arms@[k]).discriminant > tag,
            decreases hi - lo,
        {
            let mid = lo + (hi - lo) / 2;
            let d = self.arms[mid].discriminant;
            if d == tag {
                proof {
                    let hits = arm_hits(self.arms@, tag);
                    assert forall|j: int| 0 <= j < mid implies !hits[j] by {
                        assert(self.arms@[j].discriminant < self.arms@[mid as int].discriminant);
                    }
                    lemma_first_true_is(hits, mid as int);
                }
                return Some(mid);
            } else if d < tag {
                lo = mid + 1;
            } else {
                hi = mid;
            }
        }
        proof {
            lemma_first_true(arm_hits(self.arms@, tag));
        }
        None
    }
}

impl Clone for EnumArms {
    /// The copy holds copies of the arms, in the same order.
    fn clone(&self) -> (copy: EnumArms)
        ensures
            arm_views(copy@) == arm_views(self@),
    {
        proof {
            use_type_invariant(self);
        }
        let mut arms: Vec<EnumArm> = Vec::new();
        let mut i: usize = 0;
        while i < self.arms.len()
            invariant
                i <= self.arms@.len(),
                arms@.len() == i,
                forall|k: int| 0 <= k < i ==> (#[trigger] arms@[k])@ == self.arms@[k]@,
            decreases self.arms@.len() - i,
        {
            arms.push(self.arms[i].duplicate());
            i += 1;
        }
        assert(ascending(arms@)) by {
            assert forall|a: int, b: int| 0 <= a < b < arms@.len() implies (#[trigger] arms@[a]).discriminant < (
            #[trigger] arms@[b]).discriminant by {
                assert(arms@[a]@ == self.arms@[a]@);
                assert(arms@[b]@ == self.arms@[b]@);
                assert(self.arms@[a].discriminant < self.arms@[b].discriminant);
            }
        }
        assert(arm_views(arms@) =~= arm_views(self.arms@));
        EnumArms { arms }
    }
}

/// Arms whose neighbours ascend are ascending throughout.
proof fn lemma_neighbours_ascend(arms: Seq<EnumArm>)
    requires
        forall|k: int| 0 < k < arms.len() ==> (#[trigger] arms[k - 1]).discriminant < arms[k].discriminant,
    ensures
        ascending(arms),
{
    assert forall|i: int, j: int| 0 <= i < j < arms.len() implies (#[trigger] arms[i]).discriminant < (
    #[trigger] arms[j]).discriminant by {
        lemma_ascend_between(arms, i, j);
    }
}

/// Of two arms whose neighbours ascend, the earlier has the smaller
/// discriminant.
proof fn lemma_ascend_between(arms: Seq<EnumArm>, i: int, j: int)
    requires
        forall|k: int| 0 < k < arms.len() ==> (#[trigger] arms[k - 1]).discriminant < arms[k].discriminant,
        0 <= i < j < arms.len(),
    ensures
        arms[i].discriminant < arms[j].discriminant,
    decreases j - i,
{
    assert(arms[j - 1].discriminant < arms[j].discriminant);
    if i < j - 1 {
        lemma_ascend_between(arms, i, j - 1);
    }
}

/// How a value of a type is laid out.
#[derive(Debug, PartialEq, Eq)]
pub enum DataShape {
    /// The traversal goes no further with this type: it is marshalled by the
    /// routine registered for it.
    Leaf(TypeKey),
    /// A small builtin type like `i128` or `char`.
    Builtin(RustBuiltin),
    /// `[T; n]`
    FixedArray(TypeKey, usize),
    /// `&[T]`: the address of the first element and the number of elements.
    Slice(TypeKey),
    /// `&T`: the address of the pointee.
    Ref(TypeKey),
    /// `(T, U, ...)`
    Tuple(Vec<TupleField>),
    /// `struct Foo(T);`, kept apart from a one-field tuple struct.
    Newtype(TypeKey),
    /// `struct Foo...`
    Struct(VariantData),
    /// `enum Foo { ... }`. `variant_labels_for_serde` lists the labels of the
    /// variants in declaration order, as a format is told them when the enum
    /// is asked for. The arms themselves are held by discriminant.
    Enum { variant_labels_for_serde: Vec<String>, variants: EnumArms },
}

/// The declaration of an item: the shapes that only a `struct` or an `enum`
/// can have.
#[derive(Debug, PartialEq, Eq)]
pub enum ItemDeclaration {
    /// `struct Foo(T);`
    Newtype(TypeKey),
    /// `struct Foo...`
    Struct(VariantData),
    /// `enum Foo { ... }`
    Enum { variant_labels_for_serde: Vec<String>, variants: EnumArms },
}

impl ItemDeclaration {
    /// The shape that this declaration gives its type.
    pub open spec fn shape(self) -> DataShape {
        match self {
            ItemDeclaration::Newtype(inner) => DataShape::Newtype(inner),
            ItemDeclaration::Struct(data) => DataShape::Struct(data),
            ItemDeclaration::Enum { variant_labels_for_serde, variants } => DataShape::Enum {
                variant_labels_for_serde,
                variants,
            },
        }
    }

    /// Turns the declaration into the shape it gives its type.
    pub fn into_shape(self) -> (s: DataShape)
        ensures
            s == self.shape(),
    {
        match self {
            ItemDeclaration::Newtype(inner) => DataShape::Newtype(inner),
            ItemDeclaration::Struct(data) => DataShape::Struct(data),
            ItemDeclaration::Enum { variant_labels_for_serde, variants } => DataShape::Enum {
                variant_labels_for_serde,
                variants,
            },
        }
    }
}

/// A type, of some kind, with a unique identity.
#[derive(Debug, PartialEq, Eq)]
pub struct ReflectedType {
    pub id: TypeKey,
    pub name: String,
    pub layout: Layout,
    pub shape: DataShape,
    pub attrs: Vec<Attr>,
}

/// The texts of a run of labels, element by element.
pub open spec fn label_views(labels: Seq<String>) -> Seq<Seq<char>> {
    Seq::new(labels.len(), |i: int| labels[i]@)
}

/// [`TupleField`] as a mathematical value.
pub ghost struct TupleFieldView {
    pub offset: usize,
    pub type_id: TypeKey,
    pub attrs: Seq<AttrView>,
}

/// [`Field`] as a mathematical value.
pub ghost struct FieldView {
    pub offset: usize,
    pub name: Seq<char>,
    pub type_id: TypeKey,
    pub attrs: Seq<AttrView>,
}

/// [`VariantData`] as a mathematical value.
pub ghost enum VariantDataView {
    Unit,
    Fields { labels_for_serde: Seq<Seq<char>>, fields: Seq<FieldView> },
    Tuple(Seq<TupleFieldView>),
}

/// [`EnumArm`] as a mathematical value.
pub ghost struct EnumArmView {
    pub label: Seq<char>,
    pub variant_index: u16,
    pub discriminant: u16,
    pub attrs: Seq<AttrView>,
    pub variant: VariantDataView,
}

/// [`DataShape`] as a mathematical value.
pub ghost enum DataShapeView {
    Leaf(TypeKey),
    Builtin(RustBuiltin),
    FixedArray(TypeKey, usize),
    Slice(TypeKey),
    Ref(TypeKey),
    Tuple(Seq<TupleFieldView>),
    Newtype(TypeKey),
    Struct(VariantDataView),
    Enum { variant_labels_for_serde: Seq<Seq<char>>, variants: Seq<EnumArmView> },
}

/// [`ReflectedType`] as a mathematical value.
pub ghost struct ReflectedTypeView {
    pub id: TypeKey,
    pub name: Seq<char>,
    pub layout: Layout,
    pub shape: DataShapeView,
    pub attrs: Seq<AttrView>,
}

impl View for TupleField {
    type V = TupleFieldView;

    open spec fn view(&self) -> TupleFieldView {
        TupleFieldView { offset: self.offset, type_id: self.type_id, attrs: attr_views(self.attrs@) }
    }
}

impl View for Field {
    type V = FieldView;

    open spec fn view(&self) -> FieldView {
        FieldView { offset: self.offset, name: self.name@, type_id: self.type_id, attrs: attr_views(self.attrs@) }
    }
}

/// The views of a run of unnamed fields, element by element.
pub open spec fn tuple_field_views(fields: Seq<TupleField>) -> Seq<TupleFieldView> {
    Seq::new(fields.len(), |i: int| fields[i]@)
}

/// The views of a run of named fields, element by element.
pub open spec fn field_views(fields: Seq<Field>) -> Seq<FieldView> {
    Seq::new(fields.len(), |i: int| fields[i]@)
}

impl View for VariantData {
    type V = VariantDataView;

    open spec fn view(&self) -> VariantDataView {
        match self {
            VariantData::Unit => VariantDataView::Unit,
            VariantData::Fields { labels_for_serde, fields } => VariantDataView::Fields {
                labels_for_serde: label_views(labels_for_serde@),
                fields: field_views(fields@),
            },
            VariantData::Tuple(fields) => VariantDataView::Tuple(tuple_field_views(fields@)),
        }
    }
}

impl View for EnumArm {
    type V = EnumArmView;

    open spec fn view(&self) -> EnumArmView {
        EnumArmView {
            label: self.label@,
            variant_index: self.variant_index,
            discriminant: self.discriminant,
            attrs: attr_views(self.attrs@),
            variant: self.variant@,
        }
    }
}

/// The views of a run of arms, element by element.
pub open spec fn arm_views(arms: Seq<EnumArm>) -> Seq<EnumArmView> {
    Seq::new(arms.len(), |i: int| arms[i]@)
}

impl View for DataShape {
    type V = DataShapeView;

    open spec fn view(&self) -> DataShapeView {
        match self {
            DataShape::Leaf(id) => DataShapeView::Leaf(*id),
            DataShape::Builtin(kind) => DataShapeView::Builtin(*kind),
            DataShape::FixedArray(elem, len) => DataShapeView::FixedArray(*elem, *len),
            DataShape::Slice(elem) => DataShapeView::Slice(*elem),
            DataShape::Ref(inner) => DataShapeView::Ref(*inner),
            DataShape::Tuple(fields) => DataShapeView::Tuple(tuple_field_views(fields@)),
            DataShape::Newtype(inner) => DataShapeView::Newtype(*inner),
            DataShape::Struct(data) => DataShapeView::Struct(data@),
            DataShape::Enum { variant_labels_for_serde, variants } => DataShapeView::Enum {
                variant_labels_for_serde: label_views(variant_labels_for_serde@),
                variants: arm_views(variants@),
            },
        }
    }
}

impl View for ReflectedType {
    type V = ReflectedTypeView;

    open spec fn view(&self) -> ReflectedTypeView {
        ReflectedTypeView {
            id: self.id,
            name: self.name@,
            layout: self.layout,
            shape: self.shape@,
            attrs: attr_views(self.attrs@),
        }
    }
}

/// A copy of each of a run of attributes.
pub fn duplicate_attrs(items: &Vec<Attr>) -> (copies: Vec<Attr>)
    ensures
        attr_views(copies@) == attr_views(items@),
{
    let mut copies: Vec<Attr> = Vec::new();
    let mut i: usize = 0;
    while i < items.len()
        invariant
            i <= items@.len(),
            copies@.len() == i,
            forall|k: int| 0 <= k < i ==> (#[trigger] copies@[k])@ == items@[k]@,
        decreases items@.len() - i,
    {
        copies.push(items[i].duplicate());
        i += 1;
    }
    assert(attr_views(copies@) =~= attr_views(items@));
    copies
}

/// A copy of each of a run of labels.
pub fn duplicate_labels(labels: &Vec<String>) -> (copies: Vec<String>)
    ensures
        label_views(copies@) == label_views(labels@),
{
    let mut copies: Vec<String> = Vec::new();
    let mut i: usize = 0;
    while i < labels.len()
        invariant
            i <= labels@.len(),
            copies@.len() == i,
            forall|k: int| 0 <= k < i ==> (#[trigger] copies@[k])@ == labels@[k]@,
        decreases labels@.len() - i,
    {
        copies.push(labels[i].clone());
        i += 1;
    }
    assert(label_views(copies@) =~= label_views(labels@));
    copies
}

/// A copy of each of a run of unnamed fields.
pub fn duplicate_tuple_fields(fields: &Vec<TupleField>) -> (copies: Vec<TupleField>)
    ensures
        tuple_field_views(copies@) == tuple_field_views(fields@),
{
    let mut copies: Vec<TupleField> = Vec::new();
    let mut i: usize = 0;
    while i < fields.len()
        invariant
            i <= fields@.len(),
            copies@.len() == i,
            forall|k: int| 0 <= k < i ==> (#[trigger] copies@[k])@ == fields@[k]@,
        decreases fields@.len() - i,
    {
        copies.push(fields[i].duplicate());
        i += 1;
    }
    assert(tuple_field_views(copies@) =~= tuple_field_views(fields@));
    copies
}

/// A copy of each of a run of named fields.
pub fn duplicate_fields(fields: &Vec<Field>) -> (copies: Vec<Field>)
    ensures
        field_views(copies@) == field_views(fields@),
{
    let mut copies: Vec<Field> = Vec::new();
    let mut i: usize = 0;
    while i < fields.len()
        invariant
            i <= fields@.len(),
            copies@.len() == i,
            forall|k: int| 0 <= k < i ==> (#[trigger] copies@[k])@ == fields@[k]@,
        decreases fields@.len() - i,
    {
        copies.push(fields[i].duplicate());
        i += 1;
    }
    assert(field_views(copies@) =~= field_views(fields@));
    copies
}

impl TupleField {
    /// A copy of this field and of all it holds.
    pub fn duplicate(&self) -> (copy: TupleField)
        ensures
            copy@ == self@,
    {
        TupleField { offset: self.offset, type_id: self.type_id, attrs: duplicate_attrs(&self.attrs) }
    }
}

impl Clone for TupleField {
    fn clone(&self) -> (copy: TupleField)
        ensures
            copy@ == self@,
    {
        self.duplicate()
    }
}

impl Field {
    /// A copy of this field and of all it holds.
    pub fn duplicate(&self) -> (copy: Field)
        ensures
            copy@ == self@,
    {
        Field {
            offset: self.offset,
            name: self.name.clone(),
            type_id: self.type_id,
            attrs: duplicate_attrs(&self.attrs),
        }
    }
}

impl Clone for Field {
    fn clone(&self) -> (copy: Field)
        ensures
            copy@ == self@,
    {
        self.duplicate()
    }
}

impl VariantData {
    /// A copy of these fields and of all they hold.
    pub fn duplicate(&self) -> (copy: VariantData)
        ensures
            copy@ == self@,
    {
        match self {
            VariantData::Unit => VariantData::Unit,
            VariantData::Fields { labels_for_serde, fields } => VariantData::Fields {
                labels_for_serde: duplicate_labels(labels_for_serde),
                fields: duplicate_fields(fields),
            },
            VariantData::Tuple(fields) => VariantData::Tuple(duplicate_tuple_fields(fields)),
        }
    }
}

impl Clone for VariantData {
    fn clone(&self) -> (copy: VariantData)
        ensures
            copy@ == self@,
    {
        self.duplicate()
    }
}

impl EnumArm {
    /// A copy of this arm and of all it holds.
    pub fn duplicate(&self) -> (copy: EnumArm)
        ensures
            copy@ == self@,
    {
        EnumArm {
            label: self.label.clone(),
            variant_index: self.variant_index,
            discriminant: self.discriminant,
            attrs: duplicate_attrs(&self.attrs),
            variant: self.variant.duplicate(),
        }
    }
}

impl Clone for EnumArm {
    fn clone(&self) -> (copy: EnumArm)
        ensures
            copy@ == self@,
    {
        self.duplicate()
    }
}

impl DataShape {
    /// A copy of this shape and of all it holds.
    pub fn duplicate(&self) -> (copy: DataShape)
        ensures
            copy@ == self@,
    {
        match self {
            DataShape::Leaf(id) => DataShape::Leaf(*id),
            DataShape::Builtin(kind) => DataShape::Builtin(*kind),
            DataShape::FixedArray(elem, len) => DataShape::FixedArray(*elem, *len),
            DataShape::Slice(elem) => DataShape::Slice(*elem),
            DataShape::Ref(inner) => DataShape::Ref(*inner),
            DataShape::Tuple(fields) => DataShape::Tuple(duplicate_tuple_fields(fields)),
            DataShape::Newtype(inner) => DataShape::Newtype(*inner),
            DataShape::Struct(data) => DataShape::Struct(data.duplicate()),
            DataShape::Enum { variant_labels_for_serde, variants } => DataShape::Enum {
                variant_labels_for_serde: duplicate_labels(variant_labels_for_serde),
                variants: variants.clone(),
            },
        }
    }
}

impl Clone for DataShape {
    fn clone(&self) -> (copy: DataShape)
        ensures
            copy@ == self@,
    {
        self.duplicate()
    }
}

impl Clone for ItemDeclaration {
    fn clone(&self) -> (copy: ItemDeclaration)
        ensures
            copy.shape()@ == self.shape()@,
    {
        match self {
            ItemDeclaration::Newtype(inner) => ItemDeclaration::Newtype(*inner),
            ItemDeclaration::Struct(data) => ItemDeclaration::Struct(data.duplicate()),
            ItemDeclaration::Enum { variant_labels_for_serde, variants } => ItemDeclaration::Enum {
                variant_labels_for_serde: duplicate_labels(variant_labels_for_serde),
                variants: variants.clone(),
            },
        }
    }
}

impl ReflectedType {
    /// A copy of this descriptor and of all it holds.
    pub fn duplicate(&self) -> (copy: ReflectedType)
        ensures
            copy@ == self@,
    {
        ReflectedType {
            id: self.id,
            name: self.name.clone(),
            layout: self.layout,
            shape: self.shape.duplicate(),
            attrs: duplicate_attrs(&self.attrs),
        }
    }
}

impl Clone for ReflectedType {
    fn clone(&self) -> (copy: ReflectedType)
        ensures
            copy@ == self@,
    {
        self.duplicate()
    }
}

impl<Hdr: Clone> Clone for WithFields<Hdr> {
    /// A copy: the header as its own `clone` gives it, and fields that say
    /// the same.
    fn clone(&self) -> (copy: Self)
        ensures
            field_views(copy.fields@) == field_views(self.fields@),
    {
        WithFields { header: self.header.clone(), fields: duplicate_fields(&self.fields) }
    }
}

impl<Hdr: Clone> Clone for WithTupleFields<Hdr> {
    /// A copy: the header as its own `clone` gives it, and fields that say
    /// the same.
    fn clone(&self) -> (copy: Self)
        ensures
            tuple_field_views(copy.fields@) == tuple_field_views(self.fields@),
    {
        WithTupleFields { header: self.header.clone(), fields: duplicate_tuple_fields(&self.fields) }
    }
}

} // verus!
