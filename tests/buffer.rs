use pico_wireless::buffer::{Buffer, BufferError, GenBuffer};

#[test]
fn fields_are_kept_in_order() {
    let mut b: Buffer<16, 5> = Buffer::new();
    assert_eq!(b.len(), 0);
    assert_eq!(b.add_field(&[1, 2, 3]), Ok(()));
    assert_eq!(b.add_field(&[]), Ok(()));
    assert_eq!(b.add_field(&[9]), Ok(()));
    assert_eq!(b.len(), 3);
    assert_eq!(b.field_as_slice_fixed(0, 3), Ok(&[1u8, 2, 3][..]));
    assert_eq!(b.field_as_slice_fixed(1, 0), Ok(&[][..]));
    assert_eq!(b.field_as_u8(2), Ok(9));
}

#[test]
fn field_count_limit_is_an_error_without_change() {
    let mut b: Buffer<16, 3> = Buffer::new();
    assert_eq!(b.add_field(&[1]), Ok(()));
    assert_eq!(b.add_field(&[2]), Ok(()));
    assert_eq!(b.add_field(&[3]), Err(BufferError::LenOverflow));
    assert_eq!(b.len(), 2);
    assert_eq!(b.field_as_u8(1), Ok(2));
}

#[test]
fn byte_capacity_is_an_error_without_change() {
    let mut b: Buffer<4, 9> = Buffer::new();
    assert_eq!(b.add_field(&[1, 2, 3]), Ok(()));
    assert_eq!(b.add_field(&[4, 5]), Err(BufferError::SizeOverflow));
    assert_eq!(b.len(), 1);
    assert_eq!(b.add_field(&[4]), Ok(()));
    assert_eq!(b.add_field(&[]), Ok(()));
    assert_eq!(b.field_as_slice_fixed(0, 3), Ok(&[1u8, 2, 3][..]));
    assert_eq!(b.field_as_u8(1), Ok(4));
}

#[test]
fn check_room_reports_both_limits() {
    let mut b: Buffer<2, 2> = Buffer::new();
    assert_eq!(b.check_room(3), Err(BufferError::SizeOverflow));
    assert_eq!(b.check_room(2), Ok(()));
    assert_eq!(b.add_field(&[0]), Ok(()));
    assert_eq!(b.check_room(0), Err(BufferError::LenOverflow));
}

#[test]
fn wrong_index_is_reported() {
    let mut b: Buffer<8, 3> = Buffer::new();
    assert_eq!(b.field_as_u8(0), Err(BufferError::WrongFieldIndex));
    b.add_field(&[1]).unwrap();
    assert_eq!(b.field_as_i32(1), Err(BufferError::WrongFieldIndex));
    assert_eq!(b.field_as_str(1), Err(BufferError::WrongFieldIndex));
    assert_eq!(b.field_as_slice_fixed(5, 1), Err(BufferError::WrongFieldIndex));
}

#[test]
fn wrong_size_is_reported_for_any_content() {
    let mut b: Buffer<16, 4> = Buffer::new();
    b.add_field(&[1, 2]).unwrap();
    b.add_field(&[0xFF, 0xFF, 0xFF]).unwrap();
    b.add_field(&[7, 7, 7, 7, 7]).unwrap();
    assert_eq!(b.field_as_u8(0), Err(BufferError::WrongFieldSize));
    assert_eq!(b.field_as_i32(0), Err(BufferError::WrongFieldSize));
    assert_eq!(b.field_as_i32(1), Err(BufferError::WrongFieldSize));
    assert_eq!(b.field_as_i32(2), Err(BufferError::WrongFieldSize));
    assert_eq!(b.field_as_slice_fixed(2, 4), Err(BufferError::WrongFieldSize));
}

#[test]
fn i32_field_uses_native_byte_order() {
    let mut b: Buffer<8, 3> = Buffer::new();
    b.add_field(&(-123456i32).to_ne_bytes()).unwrap();
    b.add_field(&[1, 0, 0, 0]).unwrap();
    assert_eq!(b.field_as_i32(0), Ok(-123456));
    assert_eq!(b.field_as_i32(1), Ok(i32::from_ne_bytes([1, 0, 0, 0])));
    assert_ne!(b.field_as_i32(0), Ok(0));
}

#[test]
fn str_field_round_trips_utf8() {
    let mut b: Buffer<32, 4> = Buffer::new();
    b.add_field("héllo wörld".as_bytes()).unwrap();
    b.add_field(&[0x66, 0x6F, 0x80]).unwrap();
    b.add_field(&[0xE2, 0x82]).unwrap();
    assert_eq!(b.field_as_str(0), Ok("héllo wörld"));
    assert_eq!(b.field_as_str(1), Err(BufferError::Utf8Error));
    assert_eq!(b.field_as_str(2), Err(BufferError::Utf8Error));
}

#[test]
fn buffer_filled_exactly_to_capacity() {
    let mut b: Buffer<6, 3> = Buffer::new();
    assert_eq!(b.add_field(&[1, 2, 3, 4]), Ok(()));
    assert_eq!(b.add_field(&[5, 6]), Ok(()));
    assert_eq!(b.add_field(&[]), Err(BufferError::LenOverflow));
    assert_eq!(b.field_as_slice_fixed(1, 2), Ok(&[5u8, 6][..]));
    let bytes = b.field_as_slice_fixed(0, 4).unwrap();
    assert_eq!(bytes, &[1, 2, 3, 4]);
}
