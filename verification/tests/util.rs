use wickdb::db::filename::{generate_filename, push_numeral, FileType};
use wickdb::db::format::{ParsedInternalKey, ValueType};
use wickdb::options::ReadOptions;
use wickdb::util::coding::{
    decode_fixed_32, encode_fixed_32, encode_varint64, get_varint64, put_varint64,
};
use wickdb::util::crc32::{extend, mask, unmask, value};
use wickdb::util::status::{Status, WickErr};

#[test]
fn status_names() {
    assert_eq!(Status::NotFound.as_str(), "NotFoundError");
    assert_eq!(Status::Corruption.as_str(), "CorruptionError");
    assert_eq!(Status::NotSupported.as_str(), "NotSupportedError");
    assert_eq!(Status::InvalidArgument.as_str(), "InvalidArgumentError");
    assert_eq!(Status::CompressionError.as_str(), "CompressionError");
    assert_eq!(Status::IOError.as_str(), "IOError");
}

#[test]
fn error_with_message_and_cause() {
    let e = WickErr::new_from_raw(Status::IOError, Some("write failed"), String::from("disk full"));
    assert_eq!(e.status(), Status::IOError);
    assert_eq!(e.to_string(), "WickDB error [IOError] : write failed , raw : disk full");
    assert_eq!(e.description(), "write failed");
}

#[test]
fn error_with_message_only() {
    let e = WickErr::new(Status::Corruption, Some("bad block"));
    assert_eq!(e.status(), Status::Corruption);
    assert_eq!(e.msg, Some("bad block"));
    assert!(e.raw.is_none());
    assert_eq!(e.to_string(), "WickDB error [CorruptionError] : bad block");
    assert_eq!(e.description(), "bad block");
}

#[test]
fn error_with_cause_only() {
    let e = WickErr::new_from_raw(Status::NotFound, None, String::from("no such file"));
    assert_eq!(e.raw, Some(String::from("no such file")));
    assert_eq!(e.to_string(), "WickDB error [NotFoundError] , raw : no such file");
    assert_eq!(e.description(), "no such file");
}

#[test]
fn error_with_neither() {
    let e = WickErr::new(Status::NotSupported, None);
    assert_eq!(e.to_string(), "WickDB error [NotSupportedError]");
    assert_eq!(e.description(), "");
    let e = WickErr::new(Status::InvalidArgument, None);
    assert_eq!(e.to_string(), "WickDB error [InvalidArgumentError]");
    let e = WickErr::new(Status::CompressionError, None);
    assert_eq!(e.to_string(), "WickDB error [CompressionError]");
}

#[test]
fn crc_of_known_inputs() {
    assert_eq!(value(b""), 0);
    assert_eq!(value(b"123456789"), 0xe306_9283);
    assert_eq!(value(&[0u8; 32]), 0x8a91_36aa);
    assert_eq!(value(&[0xffu8; 32]), 0x62a8_ab43);
}

#[test]
fn crc_can_be_continued() {
    assert_eq!(extend(value(b"hello "), b"world"), value(b"hello world"));
    assert_eq!(extend(value(b"1234"), b"56789"), 0xe306_9283);
    assert_eq!(extend(0, b"123456789"), 0xe306_9283);
    assert_eq!(extend(value(b"abc"), b""), value(b"abc"));
}

#[test]
fn mask_of_known_values() {
    assert_eq!(mask(0xe306_9283), 0xc78a_b0e5);
    assert_eq!(mask(0), 0xa282_ead8);
    // the sum wraps round
    assert_eq!(mask(0xffff_ffff), 0xa282_ead7);
}

#[test]
fn unmask_undoes_mask() {
    for c in [0u32, 1, 0xe306_9283, 0xffff_ffff, 0x8000_0000, 0x0001_0000, 12345] {
        assert_ne!(mask(c), c);
        assert_eq!(unmask(mask(c)), c);
        assert_eq!(unmask(mask(mask(c))), mask(c));
    }
}

#[test]
fn fixed32_is_little_endian() {
    assert_eq!(encode_fixed_32(0x0403_0201), [1, 2, 3, 4]);
    assert_eq!(encode_fixed_32(0), [0, 0, 0, 0]);
    assert_eq!(encode_fixed_32(0xffff_ffff), [255, 255, 255, 255]);
    assert_eq!(decode_fixed_32(&[1, 2, 3, 4]), 0x0403_0201);
    assert_eq!(decode_fixed_32(&[0xd8, 0xea, 0x82, 0xa2, 77]), 0xa282_ead8);
    for v in [0u32, 1, 255, 256, 65_535, 65_536, 0xdead_beef, u32::MAX] {
        assert_eq!(decode_fixed_32(&encode_fixed_32(v)), v);
    }
}

#[test]
fn varint_encodings() {
    assert_eq!(encode_varint64(0), vec![0]);
    assert_eq!(encode_varint64(1), vec![1]);
    assert_eq!(encode_varint64(127), vec![127]);
    assert_eq!(encode_varint64(128), vec![128, 1]);
    assert_eq!(encode_varint64(300), vec![172, 2]);
    assert_eq!(
        encode_varint64(u64::MAX),
        vec![255, 255, 255, 255, 255, 255, 255, 255, 255, 1]
    );
    let mut dst = vec![9u8];
    put_varint64(&mut dst, 300);
    put_varint64(&mut dst, 5);
    assert_eq!(dst, vec![9, 172, 2, 5]);
}

#[test]
fn varint_decodings() {
    assert_eq!(get_varint64(&[0]), Some((0, 1)));
    assert_eq!(get_varint64(&[172, 2]), Some((300, 2)));
    assert_eq!(get_varint64(&[172, 2, 99, 98]), Some((300, 2)));
    assert_eq!(
        get_varint64(&[255, 255, 255, 255, 255, 255, 255, 255, 255, 1]),
        Some((u64::MAX, 10))
    );
    // nothing to read
    assert_eq!(get_varint64(&[]), None);
    // cut short
    assert_eq!(get_varint64(&[172]), None);
    assert_eq!(get_varint64(&[255, 255, 255]), None);
    // too long
    assert_eq!(get_varint64(&[128; 11]), None);
    assert_eq!(
        get_varint64(&[255, 255, 255, 255, 255, 255, 255, 255, 255, 255, 1]),
        None
    );
    // too large for 64 bits
    assert_eq!(
        get_varint64(&[255, 255, 255, 255, 255, 255, 255, 255, 255, 2]),
        None
    );
}

#[test]
fn varint_round_trip() {
    for shift in 0..64 {
        for delta in [0u64, 1] {
            let v = (1u64 << shift).wrapping_sub(delta);
            let mut bytes = encode_varint64(v);
            let n = bytes.len();
            assert!(n >= 1 && n <= 10);
            bytes.push(0x55);
            assert_eq!(get_varint64(&bytes), Some((v, n)));
        }
    }
}

#[test]
fn table_file_names() {
    assert_eq!(generate_filename("db", FileType::Table, 5), "db/000005.ldb");
    assert_eq!(generate_filename("db", FileType::Table, 0), "db/000000.ldb");
    assert_eq!(generate_filename("/tmp/x", FileType::Table, 999_999), "/tmp/x/999999.ldb");
    assert_eq!(generate_filename("db", FileType::Table, 1_000_000), "db/1000000.ldb");
    assert_eq!(generate_filename("db", FileType::Table, 1_234_567), "db/1234567.ldb");
    assert_eq!(
        generate_filename("", FileType::Table, u64::MAX),
        "/18446744073709551615.ldb"
    );
    assert_eq!(
        generate_filename("d", FileType::Table, 10_000_000_000_000_000_000),
        "d/10000000000000000000.ldb"
    );
}

#[test]
fn log_file_names() {
    assert_eq!(generate_filename("db", FileType::Log, 42), "db/000042.log");
}

#[test]
fn numerals_have_six_digits_or_more() {
    for (n, text) in [
        (0u64, "000000"),
        (9, "000009"),
        (10, "000010"),
        (123_456, "123456"),
        (99_999, "099999"),
        (100_000, "100000"),
        (9_999_999, "9999999"),
    ] {
        let mut s = String::from("n=");
        push_numeral(&mut s, n);
        assert_eq!(s, format!("n={}", text));
        assert_eq!(s, format!("n={:06}", n));
    }
}

#[test]
fn read_options_by_default() {
    let o = ReadOptions::new();
    assert!(!o.verify_checksums);
    assert!(o.fill_cache);
}

#[test]
fn parsed_key_holds_its_parts() {
    let k = ParsedInternalKey::new(b"user".to_vec(), 77, ValueType::Value);
    assert_eq!(k.user_key, b"user".to_vec());
    assert_eq!(k.seq, 77);
    assert_eq!(k.value_type, ValueType::Value);
    assert_ne!(k.value_type, ValueType::Deletion);
}
