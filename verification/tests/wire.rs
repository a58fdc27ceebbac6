use lidl::wire::{copy_into, read_i16, read_u16, write_i16, write_u16, FIELD_MAX, FIELD_SIZE};

#[test]
fn field_constants() {
    assert_eq!(FIELD_SIZE, 2);
    assert_eq!(FIELD_MAX, 65535);
}

#[test]
fn unsigned_field_is_little_endian() {
    let mut field = [0u8; 2];
    write_u16(&mut field, 0x1234);
    assert_eq!(field, [0x34, 0x12]);
    assert_eq!(read_u16(&field), 0x1234);
    write_u16(&mut field, 10);
    assert_eq!(field, [10, 0]);
    write_u16(&mut field, 65535);
    assert_eq!(field, [255, 255]);
    assert_eq!(read_u16(&[0, 1]), 256);
    assert_eq!(read_u16(&[1, 0, 77]), 1);
}

#[test]
fn unsigned_field_round_trip() {
    for n in [0u16, 1, 255, 256, 257, 32767, 32768, 65534, 65535] {
        let mut field = [0u8; 2];
        write_u16(&mut field, n);
        assert_eq!(read_u16(&field), n);
        assert_eq!(field, n.to_le_bytes());
    }
}

#[test]
fn signed_field_is_twos_complement() {
    let mut field = [0u8; 2];
    write_i16(&mut field, -4);
    assert_eq!(field, [252, 255]);
    assert_eq!(read_i16(&field), -4);
    write_i16(&mut field, -32768);
    assert_eq!(field, [0, 128]);
    write_i16(&mut field, 32767);
    assert_eq!(field, [255, 127]);
    assert_eq!(read_i16(&[255, 255]), -1);
    assert_eq!(read_i16(&[0, 128]), -32768);
}

#[test]
fn signed_field_round_trip() {
    for d in [-32768i16, -32767, -257, -256, -255, -1, 0, 1, 255, 256, 32767] {
        let mut field = [0u8; 2];
        write_i16(&mut field, d);
        assert_eq!(read_i16(&field), d);
        assert_eq!(field, d.to_le_bytes());
    }
}

#[test]
fn writing_a_field_keeps_the_rest() {
    let mut range = [1u8, 2, 3, 4];
    write_u16(&mut range, 0);
    assert_eq!(range, [0, 0, 3, 4]);
    write_i16(&mut range, -1);
    assert_eq!(range, [255, 255, 3, 4]);
}

#[test]
fn copy_into_replaces_only_its_range() {
    let mut dst = [0u8; 6];
    copy_into(&mut dst, 2, &[7, 8, 9]);
    assert_eq!(dst, [0, 0, 7, 8, 9, 0]);
    copy_into(&mut dst, 6, &[]);
    assert_eq!(dst, [0, 0, 7, 8, 9, 0]);
    copy_into(&mut dst, 0, &[1, 2, 3, 4, 5, 6]);
    assert_eq!(dst, [1, 2, 3, 4, 5, 6]);
}
