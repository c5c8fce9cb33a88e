use serde_reflect::{
    DataShape, Db, Emitted, EmittedData, EnumArm, EnumArms, Error, Field, Layout, ReflectedType,
    RustBuiltin, Serialize, TupleField, TypedLocation, VariantData, MAX_DEPTH,
};

const U8: u64 = 1;
const I32: u64 = 2;
const PAIR: u64 = 10;
const METERS: u64 = 11;
const MARKER: u64 = 12;
const POINT: u64 = 13;
const COLOR: u64 = 14;
const SPARSE: u64 = 15;
const ODD: u64 = 16;
const ROW: u64 = 17;
const WORD: u64 = 18;
const LOOP: u64 = 19;
const BORROWED: u64 = 20;
const VIEW: u64 = 21;
const MISSING: u64 = 99;

fn typ(id: u64, name: &str, size: usize, align: usize, shape: DataShape) -> ReflectedType {
    ReflectedType { id, name: name.to_string(), layout: Layout::new(size, align), shape, attrs: Vec::new() }
}

fn unnamed(offset: usize, type_id: u64) -> TupleField {
    TupleField { offset, type_id, attrs: Vec::new() }
}

fn named(offset: usize, name: &str, type_id: u64) -> Field {
    Field { offset, name: name.to_string(), type_id, attrs: Vec::new() }
}

fn fields_of(fields: Vec<Field>) -> VariantData {
    VariantData::Fields { labels_for_serde: fields.iter().map(|f| f.name.clone()).collect(), fields }
}

fn arm(label: &str, variant_index: u16, discriminant: u16, variant: VariantData) -> EnumArm {
    EnumArm { label: label.to_string(), variant_index, discriminant, attrs: Vec::new(), variant }
}

fn leaf(type_id: u64, bytes: &[u8]) -> Emitted {
    Emitted::Leaf { type_id, bytes: bytes.to_vec() }
}

fn db() -> Db {
    let mut db = Db::new();
    db.insert(U8, typ(U8, "u8", 1, 1, DataShape::Leaf(U8)));
    db.register_serde_leaf(U8);
    db.insert(I32, typ(I32, "i32", 4, 4, DataShape::Leaf(I32)));
    db.register_serde_leaf(I32);
    db.insert(PAIR, typ(PAIR, "(u8, i32)", 8, 4, DataShape::Tuple(vec![unnamed(0, U8), unnamed(4, I32)])));
    db.insert(METERS, typ(METERS, "Meters", 4, 4, DataShape::Newtype(I32)));
    db.insert(MARKER, typ(MARKER, "Marker", 0, 1, DataShape::Struct(VariantData::Unit)));
    db.insert(
        POINT,
        typ(POINT, "Point", 8, 4, DataShape::Struct(fields_of(vec![named(0, "x", I32), named(4, "y", I32)]))),
    );
    db.insert(
        COLOR,
        typ(
            COLOR,
            "Color",
            3,
            1,
            DataShape::Struct(VariantData::Tuple(vec![unnamed(0, U8), unnamed(1, U8), unnamed(2, U8)])),
        ),
    );
    db.insert(
        SPARSE,
        typ(
            SPARSE,
            "Sparse",
            8,
            4,
            DataShape::Enum {
                variant_labels_for_serde: vec!["A".to_string(), "B".to_string(), "C".to_string()],
                variants: EnumArms::new(vec![
                    arm("A", 0, 10, VariantData::Unit),
                    arm("B", 1, 300, VariantData::Tuple(vec![unnamed(2, U8), unnamed(3, U8)])),
                    arm("C", 2, 301, fields_of(vec![named(4, "v", I32)])),
                ])
                .unwrap(),
            },
        ),
    );
    db.insert(ODD, typ(ODD, "Odd", 3, 2, DataShape::Tuple(vec![unnamed(0, U8), unnamed(2, U8)])));
    db.insert(ROW, typ(ROW, "[Odd; 3]", 12, 2, DataShape::FixedArray(ODD, 3)));
    db.insert(WORD, typ(WORD, "u16", 2, 2, DataShape::Builtin(RustBuiltin::U16)));
    db.insert(LOOP, typ(LOOP, "Loop", 0, 1, DataShape::Newtype(LOOP)));
    db.insert(BORROWED, typ(BORROWED, "&Point", 8, 8, DataShape::Ref(POINT)));
    db.insert(VIEW, typ(VIEW, "&[u8]", 16, 8, DataShape::Slice(U8)));
    db
}

#[test]
fn a_tuple_emits_its_fields_in_order() {
    let mem = [7u8, 0xEE, 0xEE, 0xEE, 1, 2, 3, 4];
    assert_eq!(
        db().serialize(&mem, PAIR),
        Ok(Emitted::Tuple(vec![leaf(U8, &[7]), leaf(I32, &[1, 2, 3, 4])]))
    );
}

#[test]
fn a_newtype_wraps_the_inner_value() {
    let mem = [5u8, 0, 0, 0];
    assert_eq!(
        db().serialize(&mem, METERS),
        Ok(Emitted::Newtype { name: "Meters".to_string(), inner: Box::new(leaf(I32, &[5, 0, 0, 0])) })
    );
}

#[test]
fn a_unit_struct_emits_its_name() {
    assert_eq!(
        db().serialize(&[], MARKER),
        Ok(Emitted::Struct { name: "Marker".to_string(), data: EmittedData::Unit })
    );
}

#[test]
fn a_tuple_struct_emits_its_fields_in_order() {
    assert_eq!(
        db().serialize(&[255, 128, 0], COLOR),
        Ok(Emitted::Struct {
            name: "Color".to_string(),
            data: EmittedData::Tuple(vec![leaf(U8, &[255]), leaf(U8, &[128]), leaf(U8, &[0])]),
        })
    );
}

#[test]
fn a_struct_emits_its_fields_under_their_names() {
    let mem = [3u8, 0, 0, 0, 4, 0, 0, 0];
    assert_eq!(
        db().serialize(&mem, POINT),
        Ok(Emitted::Struct {
            name: "Point".to_string(),
            data: EmittedData::Fields(vec![
                ("x".to_string(), leaf(I32, &[3, 0, 0, 0])),
                ("y".to_string(), leaf(I32, &[4, 0, 0, 0])),
            ]),
        })
    );
}

#[test]
fn an_enum_emits_the_arm_of_the_stored_tag() {
    let unit = [10u8, 0, 0, 0, 0, 0, 0, 0];
    assert_eq!(
        db().serialize(&unit, SPARSE),
        Ok(Emitted::Variant {
            name: "Sparse".to_string(),
            variant_index: 0,
            label: "A".to_string(),
            data: EmittedData::Unit,
        })
    );
    // 300 = 0x012C
    let tuple = [0x2Cu8, 0x01, 8, 9, 0, 0, 0, 0];
    assert_eq!(
        db().serialize(&tuple, SPARSE),
        Ok(Emitted::Variant {
            name: "Sparse".to_string(),
            variant_index: 1,
            label: "B".to_string(),
            data: EmittedData::Tuple(vec![leaf(U8, &[8]), leaf(U8, &[9])]),
        })
    );
    // 301 = 0x012D
    let fields = [0x2Du8, 0x01, 0, 0, 1, 1, 0, 0];
    assert_eq!(
        db().serialize(&fields, SPARSE),
        Ok(Emitted::Variant {
            name: "Sparse".to_string(),
            variant_index: 2,
            label: "C".to_string(),
            data: EmittedData::Fields(vec![("v".to_string(), leaf(I32, &[1, 1, 0, 0]))]),
        })
    );
}

#[test]
fn a_tag_of_no_arm_is_an_unknown_discriminant() {
    assert_eq!(db().serialize(&[11u8, 0, 0, 0, 0, 0, 0, 0], SPARSE), Err(Error::UnknownDiscriminant(11)));
    assert_eq!(db().serialize(&[0u8, 0, 0, 0, 0, 0, 0, 0], SPARSE), Err(Error::UnknownDiscriminant(0)));
    assert_eq!(db().serialize(&[0x2Eu8, 0x01, 0, 0, 0, 0, 0, 0], SPARSE), Err(Error::UnknownDiscriminant(302)));
    // the low byte alone is that of arm A
    assert_eq!(db().serialize(&[10u8, 1, 0, 0, 0, 0, 0, 0], SPARSE), Err(Error::UnknownDiscriminant(266)));
}

#[test]
fn array_elements_lie_a_padded_size_apart() {
    // Odd has size 3 and alignment 2: the stride is 4.
    let mem = [1u8, 0xEE, 2, 0xEE, 3, 0xEE, 4, 0xEE, 5, 0xEE, 6, 0xEE];
    let odd = |a: u8, b: u8| Emitted::Tuple(vec![leaf(U8, &[a]), leaf(U8, &[b])]);
    assert_eq!(db().serialize(&mem, ROW), Ok(Emitted::Sequence(vec![odd(1, 2), odd(3, 4), odd(5, 6)])));
}

#[test]
fn an_empty_array_emits_an_empty_sequence() {
    let mut db = db();
    db.insert(ROW, typ(ROW, "[Odd; 0]", 0, 2, DataShape::FixedArray(ODD, 0)));
    assert_eq!(db.serialize(&[], ROW), Ok(Emitted::Sequence(Vec::new())));
}

#[test]
fn an_array_of_an_unknown_type_fails_even_when_empty() {
    let mut db = db();
    db.insert(ROW, typ(ROW, "[Missing; 0]", 0, 1, DataShape::FixedArray(MISSING, 0)));
    assert_eq!(db.serialize(&[], ROW), Err(Error::UnknownType(MISSING)));
}

#[test]
fn a_builtin_emits_the_bytes_of_its_width() {
    assert_eq!(
        db().serialize(&[0x34, 0x12], WORD),
        Ok(Emitted::Builtin { kind: RustBuiltin::U16, bytes: vec![0x34, 0x12] })
    );
    assert_eq!(db().serialize(&[0x34], WORD), Err(Error::OutOfBounds));
}

#[test]
fn a_reference_emits_its_pointee() {
    // the pointee lies at address 8
    let mem = [8u8, 0, 0, 0, 0, 0, 0, 0, 3, 0, 0, 0, 4, 0, 0, 0];
    assert_eq!(
        db().serialize(&mem, BORROWED),
        Ok(Emitted::Struct {
            name: "Point".to_string(),
            data: EmittedData::Fields(vec![
                ("x".to_string(), leaf(I32, &[3, 0, 0, 0])),
                ("y".to_string(), leaf(I32, &[4, 0, 0, 0])),
            ]),
        })
    );
    let dangling = [200u8, 0, 0, 0, 0, 0, 0, 0, 3, 0, 0, 0, 4, 0, 0, 0];
    assert_eq!(db().serialize(&dangling, BORROWED), Err(Error::OutOfBounds));
}

#[test]
fn a_slice_emits_as_many_elements_as_it_holds() {
    // three elements from address 17 on
    let mem = [17u8, 0, 0, 0, 0, 0, 0, 0, 3, 0, 0, 0, 0, 0, 0, 0, 0xEE, 5, 6, 7, 0xEE];
    assert_eq!(
        db().serialize(&mem, VIEW),
        Ok(Emitted::Sequence(vec![leaf(U8, &[5]), leaf(U8, &[6]), leaf(U8, &[7])]))
    );
    let empty = [17u8, 0, 0, 0, 0, 0, 0, 0, 0, 0, 0, 0, 0, 0, 0, 0];
    assert_eq!(db().serialize(&empty, VIEW), Ok(Emitted::Sequence(Vec::new())));
    let long = [17u8, 0, 0, 0, 0, 0, 0, 0, 5, 0, 0, 0, 0, 0, 0, 0, 0xEE, 5, 6, 7, 0xEE];
    assert_eq!(db().serialize(&long, VIEW), Err(Error::OutOfBounds));
}

#[test]
fn an_unregistered_root_is_an_unknown_type() {
    assert_eq!(db().serialize(&[0u8; 8], MISSING), Err(Error::UnknownType(MISSING)));
    assert_eq!(Db::new().serialize(&[], U8), Err(Error::UnknownType(U8)));
}

#[test]
fn an_unregistered_field_type_is_an_unknown_type() {
    let mut db = db();
    db.insert(PAIR, typ(PAIR, "(u8, ?)", 8, 4, DataShape::Tuple(vec![unnamed(0, U8), unnamed(4, MISSING)])));
    assert_eq!(db.serialize(&[0u8; 8], PAIR), Err(Error::UnknownType(MISSING)));
    db.insert(METERS, typ(METERS, "Meters", 4, 4, DataShape::Newtype(MISSING)));
    assert_eq!(db.serialize(&[0u8; 4], METERS), Err(Error::UnknownType(MISSING)));
}

#[test]
fn a_leaf_without_a_routine_is_an_unknown_leaf() {
    let mut db = Db::new();
    db.insert(U8, typ(U8, "u8", 1, 1, DataShape::Leaf(U8)));
    assert_eq!(db.serialize(&[1], U8), Err(Error::UnknownLeaf(U8)));
    db.register_serde_leaf(U8);
    assert_eq!(db.serialize(&[1], U8), Ok(leaf(U8, &[1])));
}

#[test]
fn a_field_past_the_end_of_the_image_is_out_of_bounds() {
    assert_eq!(db().serialize(&[7u8, 0, 0, 0, 1, 2, 3], PAIR), Err(Error::OutOfBounds));
    assert_eq!(db().serialize(&[7u8, 0, 0], PAIR), Err(Error::OutOfBounds));
    assert_eq!(db().serialize(&[], PAIR), Err(Error::OutOfBounds));
    assert_eq!(db().serialize(&[10u8], SPARSE), Err(Error::OutOfBounds));
}

#[test]
fn the_first_failure_is_the_one_reported() {
    let mut db = db();
    db.insert(
        PAIR,
        typ(PAIR, "bad", 8, 4, DataShape::Tuple(vec![unnamed(0, MISSING), unnamed(400, I32)])),
    );
    assert_eq!(db.serialize(&[0u8; 8], PAIR), Err(Error::UnknownType(MISSING)));
    db.insert(
        PAIR,
        typ(PAIR, "bad", 8, 4, DataShape::Tuple(vec![unnamed(400, I32), unnamed(0, MISSING)])),
    );
    assert_eq!(db.serialize(&[0u8; 8], PAIR), Err(Error::OutOfBounds));
}

#[test]
fn a_type_that_wraps_itself_exceeds_the_depth() {
    assert_eq!(db().serialize(&[], LOOP), Err(Error::DepthExceeded));
}

#[test]
fn depth_counts_the_nested_types_entered() {
    let db = db();
    let meters = db.type_layout(METERS).unwrap();
    let mem = [5u8, 0, 0, 0];
    let at_root = Serialize { db: &db, location: TypedLocation::new(meters, 0) };
    assert_eq!(at_root.serialize(&mem, 0), Err(Error::DepthExceeded));
    assert!(at_root.serialize(&mem, 1).is_ok());
    let marker = db.type_layout(MARKER).unwrap();
    let flat = Serialize { db: &db, location: TypedLocation::new(marker, 0) };
    assert!(flat.serialize(&mem, 0).is_ok());
    assert_eq!(MAX_DEPTH, 128);
}

#[test]
fn a_value_is_read_where_its_location_says() {
    let db = db();
    let point = db.type_layout(POINT).unwrap();
    let mem = [0xEEu8, 0xEE, 0xEE, 3, 0, 0, 0, 4, 0, 0, 0];
    let emitted = Serialize { db: &db, location: TypedLocation::new(point, 3) }.serialize(&mem, 4);
    assert_eq!(emitted, db.serialize(&[3, 0, 0, 0, 4, 0, 0, 0], POINT));
    let past = Serialize { db: &db, location: TypedLocation::new(point, 12) }.serialize(&mem, 4);
    assert_eq!(past, Err(Error::OutOfBounds));
}

#[test]
fn a_leaf_routine_takes_precedence_over_the_shape() {
    let mut db = db();
    let mem = [3u8, 0, 0, 0, 4, 0, 0, 0];
    db.register_serde_leaf(POINT);
    let whole = Ok(leaf(POINT, &[3, 0, 0, 0, 4, 0, 0, 0]));
    assert_eq!(db.serialize(&mem, POINT), whole);
    // another shape under the same identity and layout changes nothing
    db.insert(POINT, typ(POINT, "Point", 8, 4, DataShape::Struct(VariantData::Unit)));
    assert_eq!(db.serialize(&mem, POINT), whole);
    db.insert(POINT, typ(POINT, "Point", 8, 4, DataShape::Newtype(MISSING)));
    assert_eq!(db.serialize(&mem, POINT), whole);
    db.insert(POINT, typ(POINT, "Point", 8, 4, DataShape::Ref(MISSING)));
    assert_eq!(db.serialize(&mem, POINT), whole);
}

#[test]
fn a_nested_leaf_is_handed_over_whole() {
    let mut db = db();
    db.register_serde_leaf(POINT);
    db.insert(
        PAIR,
        typ(PAIR, "(Point, u8)", 12, 4, DataShape::Tuple(vec![unnamed(0, POINT), unnamed(8, U8)])),
    );
    let mem = [3u8, 0, 0, 0, 4, 0, 0, 0, 9, 0, 0, 0];
    assert_eq!(
        db.serialize(&mem, PAIR),
        Ok(Emitted::Tuple(vec![leaf(POINT, &[3, 0, 0, 0, 4, 0, 0, 0]), leaf(U8, &[9])]))
    );
}

#[test]
fn serialization_leaves_the_memory_as_it_was() {
    let mem = vec![0x2Cu8, 0x01, 8, 9, 0, 0, 0, 0];
    let before = mem.clone();
    let _ = db().serialize(&mem, SPARSE);
    assert_eq!(mem, before);
}

#[test]
fn the_parts_of_the_walk_can_be_called_alone() {
    let db = db();
    let mem = [3u8, 0, 0, 0, 4, 0, 0, 0];
    assert_eq!(db.serialize_at(&mem, I32, 4, 1), Ok(leaf(I32, &[4, 0, 0, 0])));
    assert_eq!(db.serialize_at(&mem, I32, 4, 0), Err(Error::DepthExceeded));
    assert_eq!(db.serialize_at(&mem, MISSING, 4, 1), Err(Error::UnknownType(MISSING)));
    assert_eq!(db.serialize_at(&mem, I32, 9, 1), Err(Error::OutOfBounds));
    assert_eq!(
        db.serialize_array(&mem, U8, 2, 6, 1),
        Ok(Emitted::Sequence(vec![leaf(U8, &[0]), leaf(U8, &[0])]))
    );
    assert_eq!(db.serialize_data(&mem, &VariantData::Unit, 0, 0), Ok(EmittedData::Unit));
    let fields = vec![named(4, "y", I32)];
    assert_eq!(
        db.serialize_named_fields(&mem, &fields, 0, 1),
        Ok(vec![("y".to_string(), leaf(I32, &[4, 0, 0, 0]))])
    );
    let i32_type = db.type_layout(I32).unwrap();
    assert_eq!(db.serialize_leaf(&mem, &TypedLocation::new(i32_type, 0)), Ok(leaf(I32, &[3, 0, 0, 0])));
    let point = db.type_layout(POINT).unwrap();
    assert_eq!(db.serialize_leaf(&mem, &TypedLocation::new(point, 0)), Err(Error::UnknownLeaf(POINT)));
}

#[test]
fn a_greater_depth_changes_no_answer_but_that_of_depth() {
    let db = db();
    let meters = db.type_layout(METERS).unwrap();
    let mem = [5u8, 0, 0, 0];
    let at_root = Serialize { db: &db, location: TypedLocation::new(meters, 0) };
    let shallow = at_root.serialize(&mem, 1);
    assert!(shallow.is_ok());
    for depth in [2usize, 3, 64, MAX_DEPTH, 1000] {
        assert_eq!(at_root.serialize(&mem, depth), shallow);
    }
    // a failure of another kind stays as well
    let short = [5u8, 0];
    let failure = at_root.serialize(&short, 1);
    assert_eq!(failure, Err(Error::OutOfBounds));
    assert_eq!(at_root.serialize(&short, 1000), failure);
}
