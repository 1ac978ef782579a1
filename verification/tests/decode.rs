use mdfr::bytes::{read_int, read_uint};
use mdfr::mdfinfo::mdfinfo3::convert_data_type_3to4;
use mdfr::text::{latin1_string, sbc_string, utf16_string, utf8_string};

#[test]
fn unsigned_reads_follow_byte_order() {
    let data = [0x01u8, 0x02, 0x03, 0x04, 0x05, 0x06, 0x07, 0x08];
    assert_eq!(read_uint(&data, 0, 2, false), 0x0201);
    assert_eq!(read_uint(&data, 0, 2, true), 0x0102);
    assert_eq!(read_uint(&data, 1, 3, false), 0x040302);
    assert_eq!(read_uint(&data, 1, 3, true), 0x020304);
    assert_eq!(read_uint(&data, 0, 8, false), 0x0807060504030201);
    assert_eq!(read_uint(&data, 0, 8, true), 0x0102030405060708);
}

#[test]
fn signed_reads_extend_the_sign() {
    let data = [0xffu8, 0xff, 0xfe, 0x00];
    assert_eq!(read_int(&data, 0, 3, true), -2);
    assert_eq!(read_int(&data, 0, 3, false), -65537);
    assert_eq!(read_int(&data, 2, 2, true), -512);
    assert_eq!(read_int(&data, 2, 2, false), 254);
    assert_eq!(read_int(&data, 0, 1, false), -1);
}

#[test]
fn data_types_of_version_3_map_to_version_4() {
    assert_eq!(convert_data_type_3to4(0), 0);
    assert_eq!(convert_data_type_3to4(1), 2);
    assert_eq!(convert_data_type_3to4(7), 6);
    assert_eq!(convert_data_type_3to4(8), 10);
    assert_eq!(convert_data_type_3to4(12), 5);
    assert_eq!(convert_data_type_3to4(16), 4);
    assert_eq!(convert_data_type_3to4(4), 13);
    assert_eq!(convert_data_type_3to4(999), 13);
}

#[test]
fn strings_lose_their_padding() {
    assert_eq!(latin1_string(b"caf\xe9\0\0\0"), "caf\u{e9}");
    assert_eq!(sbc_string(b"zero\0\0"), "zero");
    assert_eq!(sbc_string(b"\x80uro"), "\u{20ac}uro");
    assert_eq!(utf8_string("deux \u{e9}\0\0".as_bytes()), "deux \u{e9}");
    assert_eq!(utf8_string(b"\xff\xfe"), "");
    assert_eq!(utf16_string(&[0, b'o', 0, b'n', 0, b'e', 0, 0], true), "one");
    assert_eq!(utf16_string(&[b'o', 0, b'n', 0, b'e', 0, 0, 0], false), "one");
    assert_eq!(latin1_string(b"\0\0"), "");
}
