use proptest::strategy::Strategy;
use proptest::test_runner::{TestCaseError, TestRunner};
use serde_json::{Number, Value};
use serde_reflect::{
    DataShape, Db, Emitted, EmittedData, EnumArm, EnumArms, Error, Field, FieldIx, Layout,
    Reflect, ReflectedType, StaticReflect, TupleField, VariantData, VariantIx, Wire, WireIdent,
};

const U8: u64 = 1;
const I32: u64 = 2;
const USIZE: u64 = 3;
const STRING: u64 = 4;
const BYTES: u64 = 5;
const POINT: u64 = 13;
const SHAPE2: u64 = 14;
const UNIT: u64 = 30;
const NEWTYPE: u64 = 31;
const UNIT_LIKE: u64 = 32;
const TUPLE_LIKE: u64 = 33;
const REAL_STRUCT: u64 = 34;
const BIG_FINAL_TYPE: u64 = 35;
const COMPLICATED_THING: u64 = 40;
const DYNAMIC: u64 = 41;

fn typ(id: u64, name: &str, size: usize, align: usize, shape: DataShape) -> ReflectedType {
    ReflectedType { id, name: name.to_string(), layout: Layout::new(size, align), shape, attrs: Vec::new() }
}

fn unnamed(offset: usize, type_id: u64) -> TupleField {
    TupleField { offset, type_id, attrs: Vec::new() }
}

fn named(offset: usize, name: &str, type_id: u64) -> Field {
    Field { offset, name: name.to_string(), type_id, attrs: Vec::new() }
}

fn fields_of(fields: Vec<Field>) -> VariantData {
    VariantData::Fields { labels_for_serde: fields.iter().map(|f| f.name.clone()).collect(), fields }
}

fn arm(label: &str, variant_index: u16, discriminant: u16, variant: VariantData) -> EnumArm {
    EnumArm { label: label.to_string(), variant_index, discriminant, attrs: Vec::new(), variant }
}

fn enum_of(arms: Vec<EnumArm>) -> DataShape {
    DataShape::Enum {
        variant_labels_for_serde: arms.iter().map(|a| a.label.clone()).collect(),
        variants: EnumArms::new(arms).unwrap(),
    }
}

// The leaf routines of this file: how each opaque type is written in JSON. A
// text and a byte string are held inline: one byte of length, then the content.

fn leaf_to_json(type_id: u64, bytes: &[u8]) -> Value {
    match type_id {
        U8 => Value::Number(Number::from(bytes[0])),
        I32 => Value::Number(Number::from(i32::from_le_bytes([bytes[0], bytes[1], bytes[2], bytes[3]]))),
        USIZE => {
            let mut word = [0u8; 8];
            word.copy_from_slice(bytes);
            Value::Number(Number::from(u64::from_le_bytes(word)))
        }
        STRING => {
            let len = bytes[0] as usize;
            Value::String(String::from_utf8(bytes[1..1 + len].to_vec()).unwrap())
        }
        BYTES => {
            let len = bytes[0] as usize;
            Value::Array(bytes[1..1 + len].iter().map(|b| Value::Number(Number::from(*b))).collect())
        }
        other => panic!("no leaf routine for {}", other),
    }
}

fn inline(content: &[u8]) -> Vec<u8> {
    let mut bytes = vec![0u8; 24];
    bytes[0] = content.len() as u8;
    bytes[1..1 + content.len()].copy_from_slice(content);
    bytes
}

fn leaf_from_json(type_id: u64, v: &Value) -> Vec<u8> {
    match type_id {
        U8 => vec![v.as_u64().unwrap() as u8],
        I32 => (v.as_i64().unwrap() as i32).to_le_bytes().to_vec(),
        USIZE => v.as_u64().unwrap().to_le_bytes().to_vec(),
        STRING => inline(v.as_str().unwrap().as_bytes()),
        BYTES => {
            let content: Vec<u8> = v.as_array().unwrap().iter().map(|b| b.as_u64().unwrap() as u8).collect();
            inline(&content)
        }
        other => panic!("no leaf routine for {}", other),
    }
}

// A JSON-like protocol: what the serializer emitted, written as a JSON value
// the way a self-describing format does it.

fn data_to_json(data: &EmittedData) -> Value {
    match data {
        EmittedData::Unit => Value::Null,
        EmittedData::Tuple(items) => Value::Array(items.iter().map(to_json).collect()),
        EmittedData::Fields(items) => {
            let mut object = serde_json::Map::new();
            for (name, item) in items {
                object.insert(name.clone(), to_json(item));
            }
            Value::Object(object)
        }
    }
}

fn to_json(e: &Emitted) -> Value {
    match e {
        Emitted::Leaf { type_id, bytes } => leaf_to_json(*type_id, bytes),
        Emitted::Builtin { .. } => panic!("no builtin is registered here"),
        Emitted::Tuple(items) => Value::Array(items.iter().map(to_json).collect()),
        Emitted::Sequence(items) => Value::Array(items.iter().map(to_json).collect()),
        Emitted::Newtype { inner, .. } => to_json(inner),
        Emitted::Struct { data, .. } => data_to_json(data),
        Emitted::Variant { label, data, .. } => match data {
            EmittedData::Unit => Value::String(label.clone()),
            _ => {
                let mut object = serde_json::Map::new();
                object.insert(label.clone(), data_to_json(data));
                Value::Object(object)
            }
        },
    }
}

// The way back: the JSON value is visited under the guidance of the
// descriptors, as a deserializer visits its input under the guidance of the
// type it is asked for. Identifiers go through as they are found; whether
// they stand for anything is for the library to say.

fn items_from_json(db: &Db, types: Vec<u64>, v: &Value) -> Wire {
    match v {
        Value::Array(items) => Wire::Sequence(
            items
                .iter()
                .enumerate()
                .map(|(i, item)| match types.get(i) {
                    Some(id) => from_json(db, *id, item),
                    None => Wire::Unit,
                })
                .collect(),
        ),
        _ => Wire::Unit,
    }
}

fn data_from_json(db: &Db, data: &VariantData, v: &Value) -> Wire {
    match data {
        VariantData::Unit => Wire::Unit,
        VariantData::Tuple(fields) => items_from_json(db, fields.iter().map(|f| f.type_id).collect(), v),
        VariantData::Fields { fields, .. } => match v {
            Value::Object(object) => Wire::Mapping(
                object
                    .iter()
                    .map(|(key, item)| {
                        let value = match (FieldIx { fields }).visit_str(key) {
                            Ok(ix) => from_json(db, fields[ix].type_id, item),
                            Err(_) => Wire::Unit,
                        };
                        (WireIdent::Name(key.clone()), value)
                    })
                    .collect(),
            ),
            _ => items_from_json(db, fields.iter().map(|f| f.type_id).collect(), v),
        },
    }
}

fn variant_from_json(db: &Db, variants: &EnumArms, label: &str, v: &Value) -> Wire {
    let payload = match (VariantIx { variants }).visit_str(label) {
        Ok(ix) => data_from_json(db, &variants.get(ix).variant, v),
        Err(_) => Wire::Unit,
    };
    Wire::Variant { ident: WireIdent::Name(label.to_string()), payload: Box::new(payload) }
}

fn from_json(db: &Db, id: u64, v: &Value) -> Wire {
    let typ = match db.type_layout(id) {
        Ok(typ) => typ,
        Err(_) => return Wire::Unit,
    };
    if db.is_leaf(typ.id) {
        return Wire::Scalar(leaf_from_json(typ.id, v));
    }
    match &typ.shape {
        DataShape::Tuple(fields) => items_from_json(db, fields.iter().map(|f| f.type_id).collect(), v),
        DataShape::FixedArray(elem, len) => items_from_json(db, vec![*elem; *len], v),
        DataShape::Newtype(inner) => Wire::Newtype(Box::new(from_json(db, *inner, v))),
        DataShape::Struct(data) => data_from_json(db, data, v),
        DataShape::Enum { variants, .. } => match v {
            Value::String(label) => variant_from_json(db, variants, label, &Value::Null),
            Value::Object(object) if object.len() == 1 => {
                let (label, payload) = object.iter().next().unwrap();
                variant_from_json(db, variants, label, payload)
            }
            _ => Wire::Unit,
        },
        _ => Wire::Unit,
    }
}

/// Through the text of a JSON document and back.
fn through_text(v: &Value) -> Value {
    serde_json::from_str(&serde_json::to_string(v).unwrap()).unwrap()
}

fn register_leaves(db: &mut Db) {
    for (id, name, size, align) in
        [(U8, "u8", 1, 1), (I32, "i32", 4, 4), (USIZE, "usize", 8, 8), (STRING, "String", 24, 8), (BYTES, "Vec<u8>", 24, 8)]
    {
        db.insert(id, typ(id, name, size, align, DataShape::Leaf(id)));
        db.register_serde_leaf(id);
    }
}

fn shapes_db() -> Db {
    let mut db = Db::new();
    register_leaves(&mut db);
    db.insert(
        POINT,
        typ(POINT, "Point", 8, 4, DataShape::Struct(fields_of(vec![named(0, "x", I32), named(4, "y", I32)]))),
    );
    db.insert(
        SHAPE2,
        typ(
            SHAPE2,
            "Shape2",
            12,
            4,
            enum_of(vec![
                arm("Circle", 0, 0, VariantData::Tuple(vec![unnamed(4, POINT)])),
                arm("Blank", 1, 1, VariantData::Unit),
            ]),
        ),
    );
    db
}

#[test]
fn circle_of_point_3_4_through_json() {
    let db = shapes_db();
    let circle = [0u8, 0, 0xEE, 0xEE, 3, 0, 0, 0, 4, 0, 0, 0];
    let emitted = db.serialize(&circle, SHAPE2).unwrap();
    let json = to_json(&emitted);
    let expected: Value = serde_json::from_str(r#"{"Circle":[{"x":3,"y":4}]}"#).unwrap();
    assert_eq!(json, expected);
    assert_eq!(serde_json::to_string(&json).unwrap(), r#"{"Circle":[{"x":3,"y":4}]}"#);

    let wire = from_json(&db, SHAPE2, &through_text(&json));
    let filled = db.deserialize(SHAPE2, &wire).unwrap();
    assert_eq!(filled, vec![0, 0, 0, 0, 3, 0, 0, 0, 4, 0, 0, 0]);
    assert_eq!(db.serialize(&filled, SHAPE2), Ok(emitted));
}

#[test]
fn blank_through_json() {
    let db = shapes_db();
    let blank = [1u8, 0, 0, 0, 0, 0, 0, 0, 0, 0, 0, 0];
    let emitted = db.serialize(&blank, SHAPE2).unwrap();
    let json = to_json(&emitted);
    assert_eq!(json, Value::String("Blank".to_string()));
    let filled = db.deserialize(SHAPE2, &from_json(&db, SHAPE2, &json)).unwrap();
    assert_eq!(filled, blank.to_vec());
}

#[test]
fn json_fields_in_another_order_fill_the_same_value() {
    let db = shapes_db();
    let a: Value = serde_json::from_str(r#"{"Circle":[{"x":3,"y":4}]}"#).unwrap();
    let b: Value = serde_json::from_str(r#"{"Circle":[{"y":4,"x":3}]}"#).unwrap();
    let c: Value = serde_json::from_str(r#"{"Circle":[[3,4]]}"#).unwrap();
    let filled = db.deserialize(SHAPE2, &from_json(&db, SHAPE2, &a));
    assert_eq!(filled, Ok(vec![0, 0, 0, 0, 3, 0, 0, 0, 4, 0, 0, 0]));
    assert_eq!(db.deserialize(SHAPE2, &from_json(&db, SHAPE2, &b)), filled);
    assert_eq!(db.deserialize(SHAPE2, &from_json(&db, SHAPE2, &c)), filled);
}

#[test]
fn json_with_an_unknown_field_or_variant_is_rejected() {
    let db = shapes_db();
    let field: Value = serde_json::from_str(r#"{"Circle":[{"x":3,"z":4}]}"#).unwrap();
    assert_eq!(db.deserialize(SHAPE2, &from_json(&db, SHAPE2, &field)), Err(Error::UnknownField));
    let missing: Value = serde_json::from_str(r#"{"Circle":[{"x":3}]}"#).unwrap();
    assert_eq!(db.deserialize(SHAPE2, &from_json(&db, SHAPE2, &missing)), Err(Error::MissingField));
    let variant: Value = serde_json::from_str(r#"{"Oval":[{"x":3,"y":4}]}"#).unwrap();
    assert_eq!(db.deserialize(SHAPE2, &from_json(&db, SHAPE2, &variant)), Err(Error::UnknownVariant));
    let unit: Value = serde_json::from_str(r#""Square""#).unwrap();
    assert_eq!(db.deserialize(SHAPE2, &from_json(&db, SHAPE2, &unit)), Err(Error::UnknownVariant));
}

// Types that exercise every kind of item: a generic newtype, a unit struct, a
// tuple struct, a struct with named fields, and an enum that mixes unit,
// tuple and struct variants.

struct NewtypeOfUnit;

struct UnitLike;

struct TupleLike;

struct RealStruct;

struct BigFinalType;

impl Reflect for NewtypeOfUnit {
    fn key() -> u64 {
        NEWTYPE
    }

    fn rust_type() -> ReflectedType {
        typ(NEWTYPE, "Newtype", 0, 1, DataShape::Newtype(UNIT))
    }

    fn register(db: &mut Db) {
        db.insert(UNIT, typ(UNIT, "()", 0, 1, DataShape::Tuple(Vec::new())));
        db.register_type::<Self>();
    }
}

impl Reflect for UnitLike {
    fn key() -> u64 {
        UNIT_LIKE
    }

    fn rust_type() -> ReflectedType {
        typ(UNIT_LIKE, "UnitLike", 0, 1, DataShape::Struct(VariantData::Unit))
    }

    fn register(db: &mut Db) {
        db.register_type::<Self>();
    }
}

impl Reflect for TupleLike {
    fn key() -> u64 {
        TUPLE_LIKE
    }

    fn rust_type() -> ReflectedType {
        let fields = vec![unnamed(0, STRING), unnamed(24, BYTES)];
        typ(TUPLE_LIKE, "TupleLike", 48, 8, DataShape::Struct(VariantData::Tuple(fields)))
    }

    fn register(db: &mut Db) {
        db.register_type::<Self>();
    }
}

impl Reflect for RealStruct {
    fn key() -> u64 {
        REAL_STRUCT
    }

    fn rust_type() -> ReflectedType {
        typ(REAL_STRUCT, "RealStruct", 1, 1, DataShape::Struct(fields_of(vec![named(0, "field", U8)])))
    }

    fn register(db: &mut Db) {
        db.register_type::<Self>();
    }
}

impl Reflect for BigFinalType {
    fn key() -> u64 {
        BIG_FINAL_TYPE
    }

    fn rust_type() -> ReflectedType {
        typ(
            BIG_FINAL_TYPE,
            "BigFinalType",
            56,
            8,
            enum_of(vec![
                arm("UnitVariant", 0, 0, VariantData::Unit),
                arm("StructUnit", 1, 1, VariantData::Tuple(vec![unnamed(2, UNIT_LIKE)])),
                arm("StructTuple", 2, 2, VariantData::Tuple(vec![unnamed(8, TUPLE_LIKE)])),
                arm("StructStruct", 3, 3, VariantData::Tuple(vec![unnamed(2, REAL_STRUCT)])),
                arm("TupleVariant", 4, 4, VariantData::Tuple(vec![unnamed(2, U8), unnamed(3, NEWTYPE)])),
                arm("StructVariant", 5, 5, fields_of(vec![named(8, "datum", STRING), named(32, "wee_woo", USIZE)])),
            ]),
        )
    }

    fn register(db: &mut Db) {
        register_leaves(db);
        NewtypeOfUnit::register(db);
        UnitLike::register(db);
        TupleLike::register(db);
        RealStruct::register(db);
        db.register_type::<Self>();
    }
}

/// The memory image of a `BigFinalType`: the variant, what its fields hold,
/// and whatever lies in the bytes that the variant does not use.
fn big_final_type(variant: usize, byte: u8, text: &str, bytes: &[u8], word: usize, rest: &[u8]) -> Vec<u8> {
    let mut mem = rest.to_vec();
    mem[0] = variant as u8;
    mem[1] = 0;
    match variant {
        2 => {
            mem[8..32].copy_from_slice(&inline(text.as_bytes()));
            mem[32..56].copy_from_slice(&inline(bytes));
        }
        3 | 4 => mem[2] = byte,
        5 => {
            mem[8..32].copy_from_slice(&inline(text.as_bytes()));
            mem[32..40].copy_from_slice(&(word as u64).to_le_bytes());
        }
        _ => {}
    }
    mem
}

#[test]
fn all_derive_features_main() {
    let mut db = Db::new();
    BigFinalType::register(&mut db);
    let values = (
        0usize..6,
        proptest::arbitrary::any::<u8>(),
        "[a-zA-Z0-9 ]{0,23}",
        proptest::collection::vec(proptest::arbitrary::any::<u8>(), 0..24),
        proptest::arbitrary::any::<usize>(),
        proptest::collection::vec(proptest::arbitrary::any::<u8>(), 56),
    )
        .prop_map(|(variant, byte, text, bytes, word, rest)| {
            big_final_type(variant, byte, &text, &bytes, word, &rest)
        });
    let mut runner = TestRunner::default();
    let outcome = runner.run(&values, |b| {
        let emitted = db.serialize(&b, BIG_FINAL_TYPE).map_err(|e| TestCaseError::fail(format!("{:?}", e)))?;
        let json_val = through_text(&to_json(&emitted));
        let deser = db
            .deserialize(BIG_FINAL_TYPE, &from_json(&db, BIG_FINAL_TYPE, &json_val))
            .map_err(|e| TestCaseError::fail(format!("{:?}", e)))?;
        // two images hold the same value where they serialize alike
        if db.serialize(&deser, BIG_FINAL_TYPE) == Ok(emitted) {
            Ok(())
        } else {
            Err(TestCaseError::fail(format!("{:?} came back as {:?}", b, deser)))
        }
    });
    assert!(outcome.is_ok(), "{:?}", outcome);
}

#[test]
fn every_variant_of_the_big_type_has_its_json() {
    let mut db = Db::new();
    BigFinalType::register(&mut db);
    let rest = [0xEEu8; 56];
    let json_of = |variant: usize| {
        let mem = big_final_type(variant, 7, "hello", &[1, 2, 3], 99, &rest);
        serde_json::to_string(&to_json(&db.serialize(&mem, BIG_FINAL_TYPE).unwrap())).unwrap()
    };
    assert_eq!(json_of(0), r#""UnitVariant""#);
    assert_eq!(json_of(1), r#"{"StructUnit":[null]}"#);
    assert_eq!(json_of(2), r#"{"StructTuple":[["hello",[1,2,3]]]}"#);
    assert_eq!(json_of(3), r#"{"StructStruct":[{"field":7}]}"#);
    assert_eq!(json_of(4), r#"{"TupleVariant":[7,[]]}"#);
    assert_eq!(json_of(5), r#"{"StructVariant":{"datum":"hello","wee_woo":99}}"#);
}

struct ComplicatedThing;

struct Dynamic;

impl Reflect for ComplicatedThing {
    fn key() -> u64 {
        COMPLICATED_THING
    }

    fn rust_type() -> ReflectedType {
        Self::static_type()
    }

    fn register(db: &mut Db) {
        db.register_const::<Self>();
    }
}

impl StaticReflect for ComplicatedThing {
    fn static_type() -> ReflectedType {
        typ(COMPLICATED_THING, "ComplicatedThing", 0, 1, DataShape::Struct(VariantData::Unit))
    }
}

impl Reflect for Dynamic {
    fn key() -> u64 {
        DYNAMIC
    }

    fn rust_type() -> ReflectedType {
        typ(DYNAMIC, "Dynamic", 0, 1, DataShape::Struct(VariantData::Unit))
    }

    fn register(db: &mut Db) {
        db.register_type::<Self>();
    }
}

/// Every value of a single registered type comes back through JSON.
fn single_type<T: Reflect>(size: usize) {
    let mut db = Db::new();
    T::register(&mut db);
    let mut runner = TestRunner::default();
    let outcome = runner.run(&proptest::collection::vec(proptest::arbitrary::any::<u8>(), size), |orig| {
        let emitted = db.serialize(&orig, T::key()).map_err(|e| TestCaseError::fail(format!("{:?}", e)))?;
        let json_val = through_text(&to_json(&emitted));
        let deser = db
            .deserialize(T::key(), &from_json(&db, T::key(), &json_val))
            .map_err(|e| TestCaseError::fail(format!("{:?}", e)))?;
        if db.serialize(&deser, T::key()) == Ok(emitted) {
            Ok(())
        } else {
            Err(TestCaseError::fail(format!("{:?} came back as {:?}", orig, deser)))
        }
    });
    assert!(outcome.is_ok(), "{:?}", outcome);
}

#[test]
fn static_reflection_main() {
    single_type::<ComplicatedThing>(0);
    let mut db = Db::new();
    // a fixed descriptor can be inserted and still be used dynamically
    db.insert(COMPLICATED_THING, ComplicatedThing::static_type());
    // and so can a copy of it
    let rfltyp = ComplicatedThing::static_type().clone();
    db.insert(COMPLICATED_THING, rfltyp);
    db.register_const::<ComplicatedThing>().register_type::<Dynamic>().register_const::<ComplicatedThing>();

    let emitted = db.serialize(&[], COMPLICATED_THING).unwrap();
    assert_eq!(emitted, Emitted::Struct { name: "ComplicatedThing".to_string(), data: EmittedData::Unit });
    let json_val = to_json(&emitted);
    assert_eq!(json_val, Value::Null);
    let filled = db.deserialize(COMPLICATED_THING, &from_json(&db, COMPLICATED_THING, &json_val));
    assert_eq!(filled, Ok(Vec::new()));
    assert_eq!(db.type_layout(DYNAMIC).unwrap().name, "Dynamic");
}

#[test]
fn registration_goes_by_the_key_that_the_type_names() {
    let mut db = Db::new();
    assert_eq!(db.type_layout(DYNAMIC).err(), Some(Error::UnknownType(DYNAMIC)));
    db.register_type::<Dynamic>();
    assert_eq!(db.type_layout(DYNAMIC).unwrap(), &Dynamic::rust_type());
    assert_eq!(db.type_layout(COMPLICATED_THING).err(), Some(Error::UnknownType(COMPLICATED_THING)));
    db.register_const::<ComplicatedThing>();
    assert_eq!(db.type_layout(COMPLICATED_THING).unwrap(), &ComplicatedThing::static_type());
    assert!(!db.is_leaf(DYNAMIC));
    db.register_serde_leaf(DYNAMIC);
    assert!(db.is_leaf(DYNAMIC));
    assert!(!db.is_leaf(COMPLICATED_THING));
}

#[test]
fn last_registration_wins() {
    let mut db = Db::new();
    db.insert(7, typ(7, "First", 0, 1, DataShape::Struct(VariantData::Unit)));
    db.insert(7, typ(7, "Second", 0, 1, DataShape::Struct(VariantData::Unit)));
    assert_eq!(db.type_layout(7).unwrap().name, "Second");
    assert_eq!(Db::new().type_layout(7).err(), Some(Error::UnknownType(7)));
}

#[test]
fn single_types_come_back_through_json() {
    single_type::<ByteRow>(56);
    single_type::<RealStructAlone>(1);
}

struct ByteRow;

impl Reflect for ByteRow {
    fn key() -> u64 {
        7000
    }

    fn rust_type() -> ReflectedType {
        typ(7000, "[u8; 56]", 56, 1, DataShape::FixedArray(U8, 56))
    }

    fn register(db: &mut Db) {
        register_leaves(db);
        db.register_type::<Self>();
    }
}

struct RealStructAlone;

impl Reflect for RealStructAlone {
    fn key() -> u64 {
        REAL_STRUCT
    }

    fn rust_type() -> ReflectedType {
        RealStruct::rust_type()
    }

    fn register(db: &mut Db) {
        register_leaves(db);
        db.register_type::<Self>();
    }
}
