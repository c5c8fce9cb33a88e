use serde_reflect::ident::{bytes_eq, str_eq};
use serde_reflect::{EnumArm, EnumArms, Error, Field, FieldIx, VariantData, VariantIx, WireIdent};

fn fields(names: &[&str]) -> Vec<Field> {
    names
        .iter()
        .enumerate()
        .map(|(i, n)| Field { offset: i * 4, name: n.to_string(), type_id: 1, attrs: Vec::new() })
        .collect()
}

fn arms(names: &[&str]) -> EnumArms {
    EnumArms::new(
        names
            .iter()
            .enumerate()
            .map(|(i, n)| EnumArm {
                label: n.to_string(),
                variant_index: i as u16,
                discriminant: 10 + 7 * i as u16,
                attrs: Vec::new(),
                variant: VariantData::Unit,
            })
            .collect(),
    )
    .unwrap()
}

#[test]
fn texts_and_bytes_compare_by_content() {
    assert!(bytes_eq(&[1, 2, 3], &[1, 2, 3]));
    assert!(!bytes_eq(&[1, 2, 3], &[1, 2, 4]));
    assert!(!bytes_eq(&[1, 2, 3], &[1, 2]));
    assert!(bytes_eq(&[], &[]));
    assert!(str_eq("field", "field"));
    assert!(!str_eq("field", "fiel"));
    assert!(!str_eq("field", "Field"));
    assert!(str_eq("", ""));
    assert!(str_eq("größe", "größe"));
}

#[test]
fn a_name_stands_for_the_first_field_that_has_it() {
    let fs = fields(&["x", "y", "x", "z"]);
    let ix = FieldIx { fields: &fs };
    assert_eq!(ix.visit_str("x"), Ok(0));
    assert_eq!(ix.visit_str("y"), Ok(1));
    assert_eq!(ix.visit_str("z"), Ok(3));
    assert_eq!(ix.visit_str("w"), Err(Error::UnknownField));
    assert_eq!(ix.visit_bytes(b"z"), Ok(3));
    assert_eq!(ix.visit_bytes(b"x"), Ok(0));
    assert_eq!(ix.visit_bytes(&[0xff]), Err(Error::UnknownField));
    let none = fields(&[]);
    assert_eq!(FieldIx { fields: &none }.visit_str("x"), Err(Error::UnknownField));
    assert_eq!(FieldIx { fields: &none }.visit_u64(0), Err(Error::UnknownField));
}

#[test]
fn field_by_position() {
    let fs = fields(&["x", "y"]);
    let ix = FieldIx { fields: &fs };
    assert_eq!(ix.visit_u64(0), Ok(0));
    assert_eq!(ix.visit_u64(1), Ok(1));
    assert_eq!(ix.visit_u64(2), Err(Error::UnknownField));
    assert_eq!(ix.visit_u64(u64::MAX), Err(Error::UnknownField));
}

#[test]
fn field_by_name() {
    let fs = fields(&["x", "y"]);
    let ix = FieldIx { fields: &fs };
    assert_eq!(ix.visit_str("x"), Ok(0));
    assert_eq!(ix.visit_str("y"), Ok(1));
    assert_eq!(ix.visit_str("z"), Err(Error::UnknownField));
    assert_eq!(ix.visit_str(""), Err(Error::UnknownField));
    assert_eq!(ix.visit_bytes(b"y"), Ok(1));
    assert_eq!(ix.visit_bytes(b"yy"), Err(Error::UnknownField));
    assert_eq!(ix.visit_bytes(&[0xc3]), Err(Error::UnknownField));
}

#[test]
fn field_identifier_of_any_kind() {
    let fs = fields(&["x", "y"]);
    let ix = FieldIx { fields: &fs };
    assert_eq!(ix.deserialize(&WireIdent::Index(1)), Ok(1));
    assert_eq!(ix.deserialize(&WireIdent::Name("x".to_string())), Ok(0));
    assert_eq!(ix.deserialize(&WireIdent::Bytes(b"y".to_vec())), Ok(1));
    assert_eq!(ix.deserialize(&WireIdent::Index(2)), Err(Error::UnknownField));
    assert_eq!(ix.deserialize(&WireIdent::Name("q".to_string())), Err(Error::UnknownField));
    assert_eq!(ix.deserialize(&WireIdent::Bytes(b"q".to_vec())), Err(Error::UnknownField));
}

#[test]
fn name_bytes_and_position_stand_for_the_same_field() {
    let fs = fields(&["alpha", "beta", "gamma"]);
    let ix = FieldIx { fields: &fs };
    for (i, f) in fs.iter().enumerate() {
        assert_eq!(ix.visit_str(&f.name), Ok(i));
        assert_eq!(ix.visit_bytes(f.name.as_bytes()), Ok(i));
        assert_eq!(ix.visit_u64(i as u64), Ok(i));
    }
}

#[test]
fn variant_by_position_and_by_name() {
    let vs = arms(&["Circle", "Blank", "Square"]);
    let ix = VariantIx { variants: &vs };
    assert_eq!(ix.visit_u64(0), Ok(0));
    assert_eq!(ix.visit_u64(2), Ok(2));
    assert_eq!(ix.visit_u64(3), Err(Error::UnknownVariant));
    assert_eq!(ix.visit_str("Blank"), Ok(1));
    assert_eq!(ix.visit_str("blank"), Err(Error::UnknownVariant));
    assert_eq!(ix.visit_bytes(b"Square"), Ok(2));
    assert_eq!(ix.visit_bytes(b"Squar"), Err(Error::UnknownVariant));
    assert_eq!(ix.deserialize(&WireIdent::Index(1)), Ok(1));
    assert_eq!(ix.deserialize(&WireIdent::Name("Circle".to_string())), Ok(0));
    assert_eq!(ix.deserialize(&WireIdent::Bytes(b"Blank".to_vec())), Ok(1));
    assert_eq!(ix.deserialize(&WireIdent::Name("Oval".to_string())), Err(Error::UnknownVariant));
    assert_eq!(ix.deserialize(&WireIdent::Index(9)), Err(Error::UnknownVariant));
}

#[test]
fn a_variant_is_found_where_it_is_held_not_where_it_was_declared() {
    // enum { A = 20, B = 10, C = 15 }: held as B, C, A
    let held = |label: &str, variant_index: u16, discriminant: u16| EnumArm {
        label: label.to_string(),
        variant_index,
        discriminant,
        attrs: Vec::new(),
        variant: VariantData::Unit,
    };
    let vs = EnumArms::new(vec![held("B", 1, 10), held("C", 2, 15), held("A", 0, 20)]).unwrap();
    let ix = VariantIx { variants: &vs };
    assert_eq!(ix.visit_u64(0), Ok(2));
    assert_eq!(ix.visit_u64(1), Ok(0));
    assert_eq!(ix.visit_u64(2), Ok(1));
    assert_eq!(ix.visit_u64(3), Err(Error::UnknownVariant));
    assert_eq!(ix.visit_u64(65536), Err(Error::UnknownVariant));
    assert_eq!(ix.visit_str("A"), Ok(2));
    assert_eq!(ix.visit_str("B"), Ok(0));
    assert_eq!(ix.visit_bytes(b"C"), Ok(1));
    assert_eq!(ix.visit_bytes(b"D"), Err(Error::UnknownVariant));
    assert_eq!(ix.deserialize(&WireIdent::Index(0)), Ok(2));
    assert_eq!(ix.deserialize(&WireIdent::Name("C".to_string())), Ok(1));
}
