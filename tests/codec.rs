use ulys::codec::{alphabet_symbol, lookup, NO_VALUE};
use ulys::{decode, encode, encode_to, encode_to_array, DecodeError, EncodeError, ULYS_LEN};

fn in_alphabet(c: u8) -> bool {
    (0..32u8).any(|i| alphabet_symbol(i) == c)
}

#[test]
fn test_lookup_table() {
    let mut table = [NO_VALUE; 256];
    for i in 0..32u8 {
        let c = alphabet_symbol(i);
        table[c as usize] = i;
        if !(c as char).is_numeric() {
            // upper case
            table[c.to_ascii_uppercase() as usize] = i;
        }
    }
    let mut looked_up = [0u8; 256];
    for b in 0..=255u8 {
        looked_up[b as usize] = lookup(b);
    }
    assert_eq!(looked_up, table);
}

#[test]
fn test_valid() {
    let val = 0x4141_4141_4141_4141_4141_4141_4141_4141;
    assert_eq!(decode("21850m2ga1850m2ga1850m2ga1").unwrap(), val);
    assert_eq!(encode(val), "21850m2ga1850m2ga1850m2ga1");

    let val = 0x4d4e_3850_5144_4a59_4542_3433_5a41_3756;
    let enc = "2d9rw50ma499cmaghm6dd42dtp";
    let lower = enc.to_lowercase();
    assert_eq!(encode(val), enc);
    assert_eq!(decode(enc).unwrap(), val);
    assert_eq!(decode(&lower).unwrap(), val);
}

#[test]
fn test_length() {
    assert_eq!(
        encode(0xffff_ffff_ffff_ffff_ffff_ffff_ffff_ffff).len(),
        ULYS_LEN
    );
    assert_eq!(
        encode(0x0f0f_0f0f_0f0f_0f0f_0f0f_0f0f_0f0f_0f0f).len(),
        ULYS_LEN
    );
    assert_eq!(
        encode(0x0000_0000_0000_0000_0000_0000_0000_0000).len(),
        ULYS_LEN
    );

    assert_eq!(decode(""), Err(DecodeError::InvalidLength));
    assert_eq!(
        decode("2d9rw50ma499cmaghm6dd42dt"),
        Err(DecodeError::InvalidLength)
    );
    assert_eq!(
        decode("2d9rw50ma499cmaghm6dd42dtpP"),
        Err(DecodeError::InvalidLength)
    );
}

#[test]
fn test_chars() {
    for c in encode(0xffff_ffff_ffff_ffff_ffff_ffff_ffff_ffff).bytes() {
        assert!(in_alphabet(c));
    }
    for c in encode(0x0f0f_0f0f_0f0f_0f0f_0f0f_0f0f_0f0f_0f0f).bytes() {
        assert!(in_alphabet(c));
    }
    for c in encode(0x0000_0000_0000_0000_0000_0000_0000_0000).bytes() {
        assert!(in_alphabet(c));
    }

    assert_eq!(
        decode("2d9rw50[a499cmaghm6dd42dtp"),
        Err(DecodeError::InvalidChar)
    );
    assert_eq!(
        decode("2d9rw50la499cmaghm6dd42dtp"),
        Err(DecodeError::InvalidChar)
    );
    assert_eq!(
        decode("2d9rw50ia499cmaghm6dd42dtp"),
        Err(DecodeError::InvalidChar)
    );
}

#[test]
fn decode_accepts_upper_and_mixed_case() {
    let val = 0x4d4e_3850_5144_4a59_4542_3433_5a41_3756;
    assert_eq!(decode("2D9RW50MA499CMAGHM6DD42DTP").unwrap(), val);
    assert_eq!(decode("2d9Rw50mA499cMaghM6dd42DtP").unwrap(), val);
}

#[test]
fn encode_then_decode_gives_the_value_back() {
    for v in [0u128, 1, 31, 32, 0x1234_5678_9abc_def0_0fed_cba9_8765_4321, u128::MAX] {
        assert_eq!(decode(&encode(v)), Ok(v));
    }
}

#[test]
fn decode_then_encode_gives_lower_case() {
    let text = "7ZZZZZZZZZZZZZZZZZZZZZZZZZ";
    assert_eq!(encode(decode(text).unwrap()), text.to_lowercase());
}

#[test]
fn decode_drops_bits_above_128() {
    // The first symbol carries two bits above the 128th.
    assert_eq!(decode("fzzzzzzzzzzzzzzzzzzzzzzzzz"), Ok(u128::MAX));
    assert_eq!(decode("g0000000000000000000000000"), Ok(0));
}

#[test]
fn decode_rejects_bytes_outside_the_alphabet() {
    for bad in ["o", "O", "u", "U", "I", "L", "-", " ", "~"] {
        let text = format!("0000000000000{}000000000000", bad);
        assert_eq!(text.len(), 26);
        assert_eq!(decode(&text), Err(DecodeError::InvalidChar));
    }
    // 26 bytes, not 26 characters.
    assert_eq!(decode("000000000000000000000000é"), Err(DecodeError::InvalidChar));
}

#[test]
fn nil_and_max_texts() {
    assert_eq!(encode(0), "00000000000000000000000000");
    assert_eq!(encode(u128::MAX), "7zzzzzzzzzzzzzzzzzzzzzzzzz");
}

#[test]
fn repeated_byte_pattern_text() {
    let val: u128 = 0x4141_4141_4141_4141_4141_4141_4141_4141;
    let text = encode(val);
    assert_eq!(text, "21850m2ga1850m2ga1850m2ga1");
    assert_eq!(text.len(), 26);
    assert_eq!(decode(&text), Ok(val));
}

#[test]
fn text_order_follows_value_order() {
    let values = [0u128, 1, 31, 32, 1 << 80, (1 << 80) + 1, u128::MAX - 1, u128::MAX];
    for pair in values.windows(2) {
        assert!(encode(pair[0]) < encode(pair[1]));
    }
}

#[test]
fn encode_to_array_writes_the_text() {
    let mut buffer = [0u8; ULYS_LEN];
    encode_to_array(0x4141_4141_4141_4141_4141_4141_4141_4141, &mut buffer);
    assert_eq!(&buffer, b"21850m2ga1850m2ga1850m2ga1");
}

#[test]
fn encode_to_fills_a_large_enough_buffer() {
    let mut buffer = [b'#'; 30];
    assert_eq!(encode_to(u128::MAX, &mut buffer), Ok(ULYS_LEN));
    assert_eq!(&buffer[..26], b"7zzzzzzzzzzzzzzzzzzzzzzzzz");
    assert_eq!(&buffer[26..], b"####");
}

#[test]
fn encode_to_refuses_a_short_buffer() {
    let mut buffer = [b'#'; 25];
    assert_eq!(encode_to(7, &mut buffer), Err(EncodeError::BufferTooSmall));
    assert_eq!(buffer, [b'#'; 25]);
}

#[test]
fn error_messages() {
    assert_eq!(EncodeError::BufferTooSmall.message(), "buffer too small");
    assert_eq!(DecodeError::InvalidLength.message(), "invalid length");
    assert_eq!(DecodeError::InvalidChar.message(), "invalid character");
}
