use serde_reflect::{
    DataShape, Db, Deserialize, Emitted, EmittedData, EnumArm, EnumArms, Error, Field, Layout,
    ReflectedType, Serialize, TupleField, TypedLocation, TypedOutputLocation, VariantData, Wire,
    WireIdent, WireStyle,
};

const U8: u64 = 1;
const I32: u64 = 2;
const POINT: u64 = 13;
const SHAPE2: u64 = 14;
const DRAWING: u64 = 15;
const BACKWARDS: u64 = 16;

fn typ(id: u64, name: &str, size: usize, align: usize, shape: DataShape) -> ReflectedType {
    ReflectedType { id, name: name.to_string(), layout: Layout::new(size, align), shape, attrs: Vec::new() }
}

fn unnamed(offset: usize, type_id: u64) -> TupleField {
    TupleField { offset, type_id, attrs: Vec::new() }
}

fn named(offset: usize, name: &str, type_id: u64) -> Field {
    Field { offset, name: name.to_string(), type_id, attrs: Vec::new() }
}

fn fields_of(fields: Vec<Field>) -> VariantData {
    VariantData::Fields { labels_for_serde: fields.iter().map(|f| f.name.clone()).collect(), fields }
}

fn arm(label: &str, variant_index: u16, discriminant: u16, variant: VariantData) -> EnumArm {
    EnumArm { label: label.to_string(), variant_index, discriminant, attrs: Vec::new(), variant }
}

fn leaf(type_id: u64, bytes: &[u8]) -> Emitted {
    Emitted::Leaf { type_id, bytes: bytes.to_vec() }
}

fn scalar(bytes: &[u8]) -> Wire {
    Wire::Scalar(bytes.to_vec())
}

fn db() -> Db {
    let mut db = Db::new();
    db.insert(U8, typ(U8, "u8", 1, 1, DataShape::Leaf(U8)));
    db.register_serde_leaf(U8);
    db.insert(I32, typ(I32, "i32", 4, 4, DataShape::Leaf(I32)));
    db.register_serde_leaf(I32);
    db.insert(
        POINT,
        typ(POINT, "Point", 8, 4, DataShape::Struct(fields_of(vec![named(0, "x", I32), named(4, "y", I32)]))),
    );
    db.insert(
        SHAPE2,
        typ(
            SHAPE2,
            "Shape2",
            12,
            4,
            DataShape::Enum {
                variant_labels_for_serde: vec!["Circle".to_string(), "Blank".to_string()],
                variants: EnumArms::new(vec![
                    arm("Circle", 0, 0, VariantData::Tuple(vec![unnamed(4, POINT)])),
                    arm("Blank", 1, 1, VariantData::Unit),
                ])
                .unwrap(),
            },
        ),
    );
    db.insert(
        DRAWING,
        typ(
            DRAWING,
            "Drawing",
            40,
            4,
            DataShape::Struct(fields_of(vec![
                named(0, "layer", U8),
                named(4, "shapes", DRAWING + 100),
            ])),
        ),
    );
    db.insert(DRAWING + 100, typ(DRAWING + 100, "[Shape2; 3]", 36, 4, DataShape::FixedArray(SHAPE2, 3)));
    db
}

fn circle_3_4() -> Vec<u8> {
    vec![0, 0, 0xEE, 0xEE, 3, 0, 0, 0, 4, 0, 0, 0]
}

fn emitted_circle() -> Emitted {
    Emitted::Variant {
        name: "Shape2".to_string(),
        variant_index: 0,
        label: "Circle".to_string(),
        data: EmittedData::Tuple(vec![Emitted::Struct {
            name: "Point".to_string(),
            data: EmittedData::Fields(vec![
                ("x".to_string(), leaf(I32, &[3, 0, 0, 0])),
                ("y".to_string(), leaf(I32, &[4, 0, 0, 0])),
            ]),
        }]),
    }
}

#[test]
fn a_circle_is_emitted_as_a_tuple_variant_with_one_field() {
    assert_eq!(db().serialize(&circle_3_4(), SHAPE2), Ok(emitted_circle()));
}

#[test]
fn the_named_style_keeps_labels_and_names() {
    let wire = emitted_circle().to_wire(WireStyle::Named);
    assert_eq!(
        wire,
        Wire::Variant {
            ident: WireIdent::Name("Circle".to_string()),
            payload: Box::new(Wire::Sequence(vec![Wire::Mapping(vec![
                (WireIdent::Name("x".to_string()), scalar(&[3, 0, 0, 0])),
                (WireIdent::Name("y".to_string()), scalar(&[4, 0, 0, 0])),
            ])])),
        }
    );
}

#[test]
fn the_positional_style_keeps_indices_and_order() {
    let wire = emitted_circle().to_wire(WireStyle::Positional);
    assert_eq!(
        wire,
        Wire::Variant {
            ident: WireIdent::Index(0),
            payload: Box::new(Wire::Sequence(vec![Wire::Sequence(vec![
                scalar(&[3, 0, 0, 0]),
                scalar(&[4, 0, 0, 0]),
            ])])),
        }
    );
}

#[test]
fn every_kind_of_node_has_a_wire_form() {
    let e = Emitted::Tuple(vec![
        Emitted::Newtype { name: "N".to_string(), inner: Box::new(leaf(U8, &[1])) },
        Emitted::Struct { name: "U".to_string(), data: EmittedData::Unit },
        Emitted::Sequence(vec![Emitted::Builtin { kind: serde_reflect::RustBuiltin::U16, bytes: vec![1, 2] }]),
        Emitted::Variant {
            name: "E".to_string(),
            variant_index: 7,
            label: "V".to_string(),
            data: EmittedData::Fields(vec![("f".to_string(), leaf(U8, &[2]))]),
        },
        Emitted::Struct { name: "T".to_string(), data: EmittedData::Tuple(vec![leaf(U8, &[3])]) },
    ]);
    assert_eq!(
        e.to_wire(WireStyle::Named),
        Wire::Sequence(vec![
            Wire::Newtype(Box::new(scalar(&[1]))),
            Wire::Unit,
            Wire::Sequence(vec![scalar(&[1, 2])]),
            Wire::Variant {
                ident: WireIdent::Name("V".to_string()),
                payload: Box::new(Wire::Mapping(vec![(WireIdent::Name("f".to_string()), scalar(&[2]))])),
            },
            Wire::Sequence(vec![scalar(&[3])]),
        ])
    );
    assert_eq!(
        e.to_wire(WireStyle::Positional),
        Wire::Sequence(vec![
            Wire::Newtype(Box::new(scalar(&[1]))),
            Wire::Unit,
            Wire::Sequence(vec![scalar(&[1, 2])]),
            Wire::Variant { ident: WireIdent::Index(7), payload: Box::new(Wire::Sequence(vec![scalar(&[2])])) },
            Wire::Sequence(vec![scalar(&[3])]),
        ])
    );
    assert_eq!(EmittedData::Unit.to_wire(WireStyle::Named), Wire::Unit);
}

#[test]
fn a_circle_comes_back_from_either_style() {
    let db = db();
    let emitted = db.serialize(&circle_3_4(), SHAPE2).unwrap();
    for style in [WireStyle::Named, WireStyle::Positional] {
        let filled = db.deserialize(SHAPE2, &emitted.to_wire(style)).unwrap();
        assert_eq!(filled, vec![0, 0, 0, 0, 3, 0, 0, 0, 4, 0, 0, 0]);
        assert_eq!(db.serialize(&filled, SHAPE2), Ok(emitted_circle()));
    }
}

#[test]
fn a_blank_comes_back_from_either_style() {
    let db = db();
    let blank = vec![1u8, 0, 0xEE, 0xEE, 0xEE, 0xEE, 0xEE, 0xEE, 0xEE, 0xEE, 0xEE, 0xEE];
    let emitted = db.serialize(&blank, SHAPE2).unwrap();
    for style in [WireStyle::Named, WireStyle::Positional] {
        let filled = db.deserialize(SHAPE2, &emitted.to_wire(style)).unwrap();
        assert_eq!(filled, vec![1, 0, 0, 0, 0, 0, 0, 0, 0, 0, 0, 0]);
        assert_eq!(db.serialize(&filled, SHAPE2), Ok(emitted.clone()));
    }
}

#[test]
fn a_nested_value_comes_back_into_an_image_that_held_something_else() {
    let db = db();
    let mut src = vec![0x55u8; 40];
    src[0] = 9;
    // shapes[0] = Circle(Point { x: 1, y: 2 })
    src[4..16].copy_from_slice(&[0, 0, 0x55, 0x55, 1, 0, 0, 0, 2, 0, 0, 0]);
    // shapes[1] = Blank
    src[16..18].copy_from_slice(&[1, 0]);
    // shapes[2] = Circle(Point { x: -1, y: 7 })
    src[28..40].copy_from_slice(&[0, 0, 0x55, 0x55, 255, 255, 255, 255, 7, 0, 0, 0]);
    let drawing = db.type_layout(DRAWING).unwrap();
    let emitted = Serialize { db: &db, location: TypedLocation::new(drawing, 0) }.serialize(&src, 8).unwrap();
    for style in [WireStyle::Named, WireStyle::Positional] {
        let mut dst = vec![0xAAu8; 40];
        let r = Deserialize { db: &db, location: TypedOutputLocation::new(drawing, 0) }.deserialize(
            &mut dst,
            &emitted.to_wire(style),
            8,
        );
        assert_eq!(r, Ok(()));
        let again = Serialize { db: &db, location: TypedLocation::new(drawing, 0) }.serialize(&dst, 8);
        assert_eq!(again.as_ref(), Ok(&emitted));
        // every byte is the old byte of the destination or the byte of the source
        for p in 0..40 {
            assert!(dst[p] == 0xAA || dst[p] == src[p]);
        }
        assert_eq!(&dst[16..18], &[1, 0]);
        assert_eq!(&dst[18..28], &[0xAA; 10]);
    }
}

#[test]
fn names_and_positions_fill_alike() {
    let db = db();
    let emitted = db.serialize(&circle_3_4(), SHAPE2).unwrap();
    assert_eq!(
        db.deserialize(SHAPE2, &emitted.to_wire(WireStyle::Named)),
        db.deserialize(SHAPE2, &emitted.to_wire(WireStyle::Positional))
    );
}

#[test]
fn an_enum_declared_against_its_discriminants_comes_back() {
    // enum Backwards { First = 9, Second = 4 }: the arms are held by discriminant
    let mut db = db();
    db.insert(
        BACKWARDS,
        typ(
            BACKWARDS,
            "Backwards",
            2,
            2,
            DataShape::Enum {
                variant_labels_for_serde: vec!["First".to_string(), "Second".to_string()],
                variants: EnumArms::new(vec![
                    arm("Second", 1, 4, VariantData::Unit),
                    arm("First", 0, 9, VariantData::Unit),
                ])
                .unwrap(),
            },
        ),
    );
    let first = vec![9u8, 0];
    let emitted = db.serialize(&first, BACKWARDS).unwrap();
    assert_eq!(
        emitted,
        Emitted::Variant {
            name: "Backwards".to_string(),
            variant_index: 0,
            label: "First".to_string(),
            data: EmittedData::Unit,
        }
    );
    assert_eq!(db.deserialize(BACKWARDS, &emitted.to_wire(WireStyle::Named)), Ok(vec![9, 0]));
    // by position, index 0 stands for the arm declared first, wherever it is held
    assert_eq!(emitted.to_wire(WireStyle::Positional), Wire::Variant {
        ident: WireIdent::Index(0),
        payload: Box::new(Wire::Unit),
    });
    assert_eq!(db.deserialize(BACKWARDS, &emitted.to_wire(WireStyle::Positional)), Ok(vec![9, 0]));
    let second = db.serialize(&[4u8, 0], BACKWARDS).unwrap();
    for style in [WireStyle::Named, WireStyle::Positional] {
        assert_eq!(db.deserialize(BACKWARDS, &second.to_wire(style)), Ok(vec![4, 0]));
    }
}

#[test]
fn what_fails_to_serialize_has_no_wire_form_to_come_back_from() {
    assert_eq!(db().serialize(&[5u8, 0, 0, 0, 0, 0, 0, 0, 0, 0, 0, 0], SHAPE2), Err(Error::UnknownDiscriminant(5)));
}

#[test]
fn trees_are_copied_whole() {
    let emitted = emitted_circle();
    assert_eq!(emitted.duplicate(), emitted);
    assert_eq!(emitted.clone(), emitted);
    for style in [WireStyle::Named, WireStyle::Positional] {
        let wire = emitted.to_wire(style);
        assert_eq!(wire.duplicate(), wire);
        assert_eq!(wire.clone(), wire);
    }
    let unit = Wire::Variant { ident: WireIdent::Bytes(vec![66]), payload: Box::new(Wire::Unit) };
    assert_eq!(unit.duplicate(), unit);
    assert_eq!(WireIdent::Index(4).duplicate(), WireIdent::Index(4));
    assert_eq!(EmittedData::Unit.duplicate(), EmittedData::Unit);
}

#[test]
fn a_default_database_is_empty() {
    let db = Db::default();
    assert_eq!(db.type_layout(U8).err(), Some(Error::UnknownType(U8)));
    assert!(!db.is_leaf(U8));
}

#[test]
fn a_reference_is_emitted_and_cannot_be_filled_again() {
    let mut db = db();
    db.insert(90, typ(90, "&Point", 8, 8, DataShape::Ref(POINT)));
    db.insert(91, typ(91, "(u8, &Point)", 16, 8, DataShape::Tuple(vec![unnamed(0, U8), unnamed(8, 90)])));
    let mut src = vec![0u8; 24];
    src[0] = 7;
    src[8] = 16;
    src[16..24].copy_from_slice(&[3, 0, 0, 0, 4, 0, 0, 0]);
    let emitted = db.serialize(&src, 91).unwrap();
    for style in [WireStyle::Named, WireStyle::Positional] {
        assert_eq!(db.deserialize(91, &emitted.to_wire(style)), Err(Error::Indirection));
    }
}
