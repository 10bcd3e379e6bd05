use std::time::{Duration, SystemTime};
use ulys::{encode, Ulys, UlysError};
use uuid::Uuid;

#[test]
fn test_is_default() {
    let ulys = Ulys::new();
    assert!(!ulys.is_default());

    let nil = Ulys::default();
    assert!(nil.is_default());

    assert_eq!(nil.to_string(), "00000000000000000000000000");
}

#[test]
fn test_from_string() {
    let text = "068cbxpc1wy9d0v9gbhrg0020r";
    let ulys = Ulys::from_string(text);

    assert!(ulys.is_ok());

    let data = ulys.expect("failed to deserialize");
    assert_eq!(data.to_string(), text);
    assert_eq!(data.0, 8_323_735_725_548_763_795_324_817_799_594_903_576);
}

#[test]
fn test_from_string_invalid_length() {
    let ulys = Ulys::from_string("ABC");

    assert!(ulys.is_err());
    assert_eq!(ulys.unwrap_err(), UlysError::ParseInvalidLength);
}

#[test]
fn test_from_string_invalid_letter() {
    let ulys = Ulys::from_string("0000000000000u000000000000");

    assert!(ulys.is_err());
    assert_eq!(ulys.unwrap_err(), UlysError::ParseBase32Decode);
}

#[test]
fn lib_test_dynamic() {
    let ulys = Ulys::new();
    let encoded = ulys.to_string();
    let ulys2 = Ulys::from_string(&encoded).expect("failed to deserialize");

    assert_eq!(ulys, ulys2);
}

#[test]
fn test_is_valid() {
    let ulys = Ulys::from_string("01j3cz558th10c0g57tyd7msat").expect("failed to deserialize");

    assert!(ulys.is_valid());
}

#[test]
fn test_is_not_valid() {
    let ulys = Ulys::from_string("01j3cz558th10c0g57tyd7g000").expect("failed to deserialize");

    assert!(!ulys.is_valid());
}

#[test]
fn time_test_dynamic() {
    let ulys = Ulys::new();
    let encoded = ulys.to_string();
    let ulys2 = Ulys::from_string(&encoded).expect("failed to deserialize");

    println!("{encoded}");
    println!("{ulys:?}");
    println!("{ulys2:?}");
    assert_eq!(ulys, ulys2);
}

#[test]
fn default_is_nil() {
    assert_eq!(Ulys::default(), Ulys::nil());
}

#[test]
fn nil_is_at_unix_epoch() {
    assert_eq!(Ulys::nil().datetime(), SystemTime::UNIX_EPOCH);
}

#[test]
fn uuid_cycle() {
    let ulys = Ulys::new();
    let uuid: Uuid = ulys.into();
    let ulys2: Ulys = uuid.into();

    assert_eq!(ulys, ulys2);
}

#[test]
fn uuid_str_cycle() {
    let uuid_txt = "881a3bfe-01e9-4438-a68e-b1e7e82b7f9c";
    let ulys_txt = "4838xzw0f98gwad3nhwzm2pzww";

    let ulys: Ulys = Uuid::parse_str(uuid_txt).unwrap().into();
    assert_eq!(ulys.to_string(), ulys_txt);

    let uuid: Uuid = ulys.into();
    assert_eq!(uuid.to_string(), uuid_txt);
}

#[test]
fn from_string_reads_upper_case() {
    assert_eq!(
        Ulys::from_string("068CBXPC1WY9D0V9GBHRG0020R").unwrap().0,
        8_323_735_725_548_763_795_324_817_799_594_903_576
    );
}

#[test]
fn from_string_rejects_ambiguous_letters() {
    for text in [
        "i0000000000000000000000000",
        "0000000000000000000000000L",
        "000000000000o0000000000000",
        "0000000000000U000000000000",
    ] {
        assert_eq!(Ulys::from_string(text), Err(UlysError::ParseBase32Decode));
    }
}

#[test]
fn from_string_rejects_symbols_outside_the_table() {
    assert_eq!(
        Ulys::from_string("000000000000000000000000-0"),
        Err(UlysError::ParseBase32Decode)
    );
    assert_eq!(
        Ulys::from_string("000000000000000000000000é"),
        Err(UlysError::ParseBase32Decode)
    );
    assert_eq!(Ulys::from_string(""), Err(UlysError::ParseInvalidLength));
}

#[test]
fn text_form_is_the_codec_text() {
    let ulys = Ulys(1);
    assert_eq!(ulys.to_string(), "00000000000000000000000001");
    assert_eq!(ulys.to_string(), encode(ulys.0));
    for v in [0u128, 1, 0x4141_4141_4141_4141_4141_4141_4141_4141, u128::MAX] {
        assert_eq!(Ulys::from_string(&encode(v)), Ok(Ulys(v)));
        assert_eq!(Ulys::from_string(&Ulys(v).to_string()), Ok(Ulys(v)));
    }
}

#[test]
fn from_parts_packs_and_cuts_fields() {
    let ulys = Ulys::from_parts(0x1234, 0x5678);
    assert_eq!(ulys.0, (0x1234u128 << 80) | 0x5678);
    assert_eq!(ulys.timestamp_ms(), 0x1234);
    assert_eq!(ulys.random(), 0x5678);

    let cut = Ulys::from_parts(u64::MAX, u128::MAX);
    assert_eq!(cut.0, u128::MAX);
    assert_eq!(cut.timestamp_ms(), 0xffff_ffff_ffff);
    assert_eq!(cut.random(), (1u128 << 80) - 1);
}

#[test]
fn repeated_byte_pattern_scenario() {
    let pattern: u128 = 0x4141_4141_4141_4141_4141_4141_4141_4141;
    let ulys = Ulys::from_parts(0, pattern & ((1u128 << 80) - 1));
    assert_eq!(ulys.timestamp_ms(), 0);
    assert_eq!(ulys.random(), pattern & ((1u128 << 80) - 1));
    assert_eq!(encode(pattern), "21850m2ga1850m2ga1850m2ga1");
    assert_eq!(ulys::decode("21850m2ga1850m2ga1850m2ga1"), Ok(pattern));
}

#[test]
fn same_timestamp_orders_by_random() {
    let a = Ulys::from_parts(1_700_000_000_000, 5);
    let b = Ulys::from_parts(1_700_000_000_000, 6);
    assert!(a < b);
    assert!(a.0 < b.0);
    assert!(encode(a.0) < encode(b.0));
}

#[test]
fn increment_adds_one_or_refuses() {
    let full_random = Ulys::from_parts(42, (1u128 << 80) - 1);
    assert_eq!(full_random.increment(), None);
    assert_eq!(Ulys(u128::MAX).increment(), None);

    let ulys = Ulys::from_parts(42, 7);
    assert_eq!(ulys.increment(), Some(Ulys(ulys.0 + 1)));
    assert_eq!(Ulys::nil().increment(), Some(Ulys(1)));
}

#[test]
fn all_ones_identifier() {
    let ones = Ulys(u128::MAX);
    assert_eq!(encode(ones.0), "7zzzzzzzzzzzzzzzzzzzzzzzzz");
    assert_eq!(ones.increment(), None);
}

#[test]
fn nil_identifier() {
    let nil = Ulys::nil();
    assert!(nil.is_nil());
    assert_eq!(nil.0, 0);
    assert_eq!(encode(nil.0), "00000000000000000000000000");
    assert!(!Ulys(1).is_nil());
}

#[test]
fn bytes_round_trip() {
    let ulys = Ulys(0x0102_0304_0506_0708_090a_0b0c_0d0e_0f10);
    let bytes = ulys.to_bytes();
    assert_eq!(bytes, [1, 2, 3, 4, 5, 6, 7, 8, 9, 10, 11, 12, 13, 14, 15, 16]);
    assert_eq!(Ulys::from_bytes(bytes), ulys);
    assert_eq!(Ulys::from_bytes([0xff; 16]), Ulys(u128::MAX));
}

#[test]
fn words_round_trip() {
    let ulys = Ulys::from((0x0102_0304_0506_0708, 0x090a_0b0c_0d0e_0f10));
    assert_eq!(ulys.0, 0x0102_0304_0506_0708_090a_0b0c_0d0e_0f10);
    assert_eq!(ulys.to_words(), (0x0102_0304_0506_0708, 0x090a_0b0c_0d0e_0f10));
}

#[test]
fn sealed_identifiers_are_valid() {
    let ulys = Ulys::sealed(1_700_000_000_123, 0xabcd, 0x1234_5678_9abc_def0);
    assert!(ulys.is_valid());
    assert_eq!(ulys.timestamp_ms(), 1_700_000_000_123);
    assert_eq!((ulys.0 >> 64) & 0xffff, 0xabcd);
    assert_eq!((ulys.0 >> 32) & 0xffff_ffff, 0x9abc_def0);
    assert!(!Ulys(ulys.0 ^ 1).is_valid());
}

#[test]
fn checksum_field_is_the_top_half_of_the_hash() {
    let data: u128 = 0x0123_4567_89ab_cdef_0011_2233_0000_0000;
    let checksum = Ulys::checksum(data);
    assert_eq!(checksum, xxhash_rust::xxh3::xxh3_64(&data.to_be_bytes()));
    let sealed = Ulys::with_checksum(data | 0xffff, checksum);
    assert_eq!(sealed.0, data | u128::from(checksum >> 32));
    assert!(sealed.checksum_matches(checksum));
    assert!(sealed.is_valid());
}

#[test]
fn datetime_follows_the_timestamp() {
    let ulys = Ulys::from_parts(1_500, 0);
    assert_eq!(
        ulys.datetime(),
        SystemTime::UNIX_EPOCH + Duration::from_millis(1_500)
    );
}

#[test]
fn new_uses_the_current_time() {
    let before = SystemTime::now()
        .duration_since(SystemTime::UNIX_EPOCH)
        .unwrap()
        .as_millis() as u64;
    let ulys = Ulys::new();
    let after = SystemTime::now()
        .duration_since(SystemTime::UNIX_EPOCH)
        .unwrap()
        .as_millis() as u64;
    assert!(before <= ulys.timestamp_ms() && ulys.timestamp_ms() <= after);
}

#[test]
fn parse_error_messages() {
    assert_eq!(UlysError::ParseInvalidLength.message(), "invalid length");
    assert_eq!(UlysError::ParseBase32Decode.message(), "invalid character");
    assert_eq!(UlysError::ParseToArray.message(), "invalid array");
}
