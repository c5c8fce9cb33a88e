use serde_reflect::location::{copy_in, copy_out};
use serde_reflect::{
    DataShape, Error, Field, Layout, ReflectedType, Slots, TupleField, TypedLocation,
    TypedOutputLocation, VariantData,
};

fn unit_type() -> ReflectedType {
    ReflectedType {
        id: 1,
        name: "Unit".to_string(),
        layout: Layout::new(0, 1),
        shape: DataShape::Struct(VariantData::Unit),
        attrs: Vec::new(),
    }
}

#[test]
fn discriminant_is_stored_low_byte_first() {
    let typ = unit_type();
    let mut mem = vec![0xAAu8; 6];
    let dst = TypedOutputLocation::new(&typ, 2);
    assert_eq!(dst.write_discriminant(&mut mem, 0x1234), Ok(()));
    assert_eq!(mem, vec![0xAA, 0xAA, 0x34, 0x12, 0xAA, 0xAA]);
    let src = TypedLocation::new(&typ, 2);
    assert_eq!(src.read_discriminant(&mem), Ok(0x1234));
}

#[test]
fn discriminant_at_the_very_end_fits() {
    let typ = unit_type();
    let mut mem = vec![0u8; 4];
    assert_eq!(TypedOutputLocation::new(&typ, 2).write_discriminant(&mut mem, 65535), Ok(()));
    assert_eq!(mem, vec![0, 0, 255, 255]);
    assert_eq!(TypedLocation::new(&typ, 2).read_discriminant(&mem), Ok(65535));
}

#[test]
fn discriminant_past_the_end_is_out_of_bounds() {
    let typ = unit_type();
    let mut mem = vec![7u8; 4];
    assert_eq!(
        TypedOutputLocation::new(&typ, 3).write_discriminant(&mut mem, 1),
        Err(Error::OutOfBounds)
    );
    assert_eq!(mem, vec![7u8; 4]);
    assert_eq!(TypedLocation::new(&typ, 3).read_discriminant(&mem), Err(Error::OutOfBounds));
    assert_eq!(TypedLocation::new(&typ, 9).read_discriminant(&mem), Err(Error::OutOfBounds));
    assert_eq!(
        TypedLocation::new(&typ, usize::MAX).read_discriminant(&mem),
        Err(Error::OutOfBounds)
    );
}

#[test]
fn address_is_read_low_byte_first() {
    let typ = unit_type();
    let mem = vec![9u8, 0x08, 0x07, 0x06, 0x05, 0x04, 0x03, 0x02, 0x01];
    assert_eq!(TypedLocation::new(&typ, 1).read_address(&mem), Ok(0x0102030405060708));
    assert_eq!(TypedLocation::new(&typ, 2).read_address(&mem), Err(Error::OutOfBounds));
}

#[test]
fn an_output_location_becomes_a_read_location() {
    let typ = unit_type();
    let dst = TypedOutputLocation::new(&typ, 12);
    let src = TypedLocation::from(dst);
    assert_eq!(src.ptr, 12);
    assert_eq!(src.typ.name, "Unit");
}

#[test]
fn bytes_are_copied_out_of_the_image() {
    let mem = vec![1u8, 2, 3, 4, 5];
    assert_eq!(copy_out(&mem, 1, 3), Ok(vec![2, 3, 4]));
    assert_eq!(copy_out(&mem, 5, 0), Ok(Vec::new()));
    assert_eq!(copy_out(&mem, 0, 5), Ok(vec![1, 2, 3, 4, 5]));
    assert_eq!(copy_out(&mem, 3, 3), Err(Error::OutOfBounds));
    assert_eq!(copy_out(&mem, 6, 0), Err(Error::OutOfBounds));
    assert_eq!(copy_out(&mem, 2, usize::MAX), Err(Error::OutOfBounds));
}

#[test]
fn bytes_are_copied_into_the_image() {
    let mut mem = vec![1u8, 2, 3, 4, 5];
    assert_eq!(copy_in(&mut mem, 2, &[9, 8]), Ok(()));
    assert_eq!(mem, vec![1, 2, 9, 8, 5]);
    assert_eq!(copy_in(&mut mem, 4, &[7, 7]), Err(Error::OutOfBounds));
    assert_eq!(mem, vec![1, 2, 9, 8, 5]);
    assert_eq!(copy_in(&mut mem, 5, &[]), Ok(()));
    assert_eq!(mem, vec![1, 2, 9, 8, 5]);
}

#[test]
fn slots_of_fields_lie_at_their_offsets() {
    let fields = vec![
        TupleField { offset: 0, type_id: 5, attrs: Vec::new() },
        TupleField { offset: 12, type_id: 6, attrs: Vec::new() },
    ];
    let slots = Slots::Tuple(&fields);
    assert_eq!(slots.len(), 2);
    assert_eq!(slots.locate(100, 0, 1000), (5, Some(100)));
    assert_eq!(slots.locate(100, 1, 1000), (6, Some(112)));
    assert_eq!(slots.locate(100, 1, 112), (6, Some(112)));
    assert_eq!(slots.locate(100, 1, 111), (6, None));
    assert_eq!(slots.locate(usize::MAX, 1, usize::MAX), (6, None));

    let named = vec![Field { offset: 3, name: "a".to_string(), type_id: 8, attrs: Vec::new() }];
    let slots = Slots::Named(&named);
    assert_eq!(slots.len(), 1);
    assert_eq!(slots.locate(4, 0, 10), (8, Some(7)));
}

#[test]
fn slots_of_an_array_lie_a_stride_apart() {
    let slots = Slots::Array { elem: 3, len: 4, each: Layout::new(5, 4) };
    assert_eq!(slots.len(), 4);
    assert_eq!(slots.locate(10, 0, 1000), (3, Some(10)));
    assert_eq!(slots.locate(10, 1, 1000), (3, Some(18)));
    assert_eq!(slots.locate(10, 3, 1000), (3, Some(34)));
    assert_eq!(slots.locate(10, 3, 33), (3, None));
    let wide = Slots::Array { elem: 3, len: 2, each: Layout::new(usize::MAX, 2) };
    assert_eq!(wide.locate(0, 0, 8), (3, Some(0)));
    assert_eq!(wide.locate(0, 1, 8), (3, None));
}
