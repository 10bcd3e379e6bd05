//! The base-32 text form of a 128-bit value: 26 symbols, most significant first.
use crate::radix::{
    all_below, digits, lemma_digits_below, lemma_digits_index, lemma_digits_len,
    lemma_digits_ordered, lemma_digits_value, lemma_power_positive, lemma_value_digits, power,
    value_of,
};
use vstd::arithmetic::div_mod::{
    lemma_div_denominator, lemma_fundamental_div_mod, lemma_fundamental_div_mod_converse,
    lemma_mod_mod,
};
use vstd::prelude::*;
use vstd::string::StringSliceAdditionalSpecFns;
use vstd::utf8::{encode_utf8, is_ascii_chars, is_ascii_chars_encode_utf8};

verus! {

/// Length of the text form of an identifier.
pub const ULYS_LEN: usize = 26;

/// The byte that `lookup` gives for a byte outside the alphabet.
pub const NO_VALUE: u8 = 255;

/// The symbol for the digit `d < 32`: `0-9`, then the lower-case letters
/// without `i`, `l`, `o` and `u`.
pub open spec fn symbol(d: nat) -> u8 {
    if d < 10 {
        (48 + d) as u8
    } else if d < 18 {
        (97 + (d - 10)) as u8
    } else if d < 20 {
        (106 + (d - 18)) as u8
    } else if d < 22 {
        (109 + (d - 20)) as u8
    } else if d < 27 {
        (112 + (d - 22)) as u8
    } else {
        (118 + (d - 27)) as u8
    }
}

/// An upper-case ASCII letter in lower case; any other byte unchanged.
pub open spec fn ascii_lower(b: u8) -> u8 {
    if 65 <= b <= 90 {
        (b + 32) as u8
    } else {
        b
    }
}

/// Whether `b` is a symbol of the alphabet, in either case.
pub open spec fn is_symbol(b: u8) -> bool {
    let c = ascii_lower(b);
    (48 <= c <= 57) || (97 <= c <= 122 && c != 105 && c != 108 && c != 111 && c != 117)
}

/// The digit that the symbol `b` stands for (meaningful where `is_symbol(b)`).
pub open spec fn symbol_digit(b: u8) -> nat {
    let c = ascii_lower(b) as nat;
    if c <= 57 {
        (c - 48) as nat
    } else if c <= 104 {
        (c - 97 + 10) as nat
    } else if c <= 107 {
        (c - 106 + 18) as nat
    } else if c <= 110 {
        (c - 109 + 20) as nat
    } else if c <= 116 {
        (c - 112 + 22) as nat
    } else {
        (c - 118 + 27) as nat
    }
}

/// A digit's symbol is in the alphabet, in lower case, and reads back as the digit.
pub proof fn lemma_symbol_digit(d: nat)
    requires
        d < 32,
    ensures
        is_symbol(symbol(d)),
        symbol_digit(symbol(d)) == d,
        ascii_lower(symbol(d)) == symbol(d),
{
}

/// A symbol's digit is below 32, and its symbol is the lower-case form of the byte.
pub proof fn lemma_digit_symbol(b: u8)
    requires
        is_symbol(b),
    ensures
        symbol_digit(b) < 32,
        symbol(symbol_digit(b)) == ascii_lower(b),
{
}

/// The symbol of the alphabet for `index`.
pub fn alphabet_symbol(index: u8) -> (r: u8)
    requires
        index < 32,
    ensures
        r == symbol(index as nat),
{
    if index < 10 {
        48 + index
    } else if index < 18 {
        97 + (index - 10)
    } else if index < 20 {
        106 + (index - 18)
    } else if index < 22 {
        109 + (index - 20)
    } else if index < 27 {
        112 + (index - 22)
    } else {
        118 + (index - 27)
    }
}

/// The digit of a symbol of either case, or `NO_VALUE` for any other byte.
pub fn lookup(byte: u8) -> (r: u8)
    ensures
        is_symbol(byte) ==> r as nat == symbol_digit(byte),
        !is_symbol(byte) ==> r == NO_VALUE,
{
    let c: u8 = if 65 <= byte && byte <= 90 {
        byte + 32
    } else {
        byte
    };
    if 48 <= c && c <= 57 {
        c - 48
    } else if c < 97 || c > 122 || c == 105 || c == 108 || c == 111 || c == 117 {
        NO_VALUE
    } else if c <= 104 {
        c - 97 + 10
    } else if c <= 107 {
        c - 106 + 18
    } else if c <= 110 {
        c - 109 + 20
    } else if c <= 116 {
        c - 112 + 22
    } else {
        c - 118 + 27
    }
}

/// An error that can occur when encoding into a caller's buffer.
#[derive(Debug, PartialEq, Eq, Hash, Copy, Clone, Structural)]
pub enum EncodeError {
    /// The buffer is shorter than `ULYS_LEN`.
    BufferTooSmall,
}

impl EncodeError {
    /// A short description of the error.
    pub fn message(&self) -> (r: &'static str)
        ensures
            r@ == "buffer too small"@,
    {
        match self {
            EncodeError::BufferTooSmall => "buffer too small",
        }
    }
}

/// An error that can occur when decoding the text form.
#[derive(Debug, PartialEq, Eq, Hash, Copy, Clone, Structural)]
pub enum DecodeError {
    /// The text is not `ULYS_LEN` bytes long.
    InvalidLength,
    /// The text holds a byte outside the alphabet.
    InvalidChar,
}

impl DecodeError {
    /// A short description of the error.
    pub fn message(&self) -> (r: &'static str)
        ensures
            *self == DecodeError::InvalidLength ==> r@ == "invalid length"@,
            *self == DecodeError::InvalidChar ==> r@ == "invalid character"@,
    {
        match self {
            DecodeError::InvalidLength => "invalid length",
            DecodeError::InvalidChar => "invalid character",
        }
    }
}

/// 2 to the power 128: one more than the largest `u128`.
pub open spec fn u128_range() -> nat {
    0xffff_ffff_ffff_ffff_ffff_ffff_ffff_ffff + 1
}

/// The 26 digits, in base 32, of `value`: two leading zero bits and then its
/// 128 bits, five at a time, most significant first.
pub open spec fn text_digits(value: u128) -> Seq<nat> {
    digits(value as nat, 32, ULYS_LEN as nat)
}

/// The text form of `value`, as bytes.
pub open spec fn encoded(value: u128) -> Seq<u8> {
    text_digits(value).map_values(|d: nat| symbol(d))
}

/// Bytes read as characters.
pub open spec fn ascii_text(bytes: Seq<u8>) -> Seq<char> {
    bytes.map_values(|b: u8| b as char)
}

/// Whether every byte of `bytes` is a symbol of the alphabet.
pub open spec fn all_symbols(bytes: Seq<u8>) -> bool {
    forall|i: int| 0 <= i < bytes.len() ==> is_symbol(#[trigger] bytes[i])
}

/// The number that the symbols of `bytes` write in base 32.
pub open spec fn text_value(bytes: Seq<u8>) -> nat {
    value_of(bytes.map_values(|b: u8| symbol_digit(b)), 32)
}

/// What decoding `bytes` gives: an error for a wrong length, then for a byte
/// outside the alphabet; else the value written, of which the bits above the
/// 128th are dropped.
pub open spec fn decoded(bytes: Seq<u8>) -> Result<u128, DecodeError> {
    if bytes.len() != ULYS_LEN {
        Err(DecodeError::InvalidLength)
    } else if !all_symbols(bytes) {
        Err(DecodeError::InvalidChar)
    } else {
        Ok((text_value(bytes) % u128_range()) as u128)
    }
}

proof fn lemma_five_bits(x: u128)
    ensures
        x & 31 == x % 32,
        x >> 5 == x / 32,
        x & 31 < 32,
{
    assert(x & 31 == x % 32 && x >> 5 == x / 32 && x & 31 < 32) by (bit_vector);
}

proof fn lemma_shift_in(x: u128, d: u128)
    requires
        d < 32,
    ensures
        (x << 5) | d == (x % 0x8000000000000000000000000000000) * 32 + d,
{
    assert((x << 5) | d == (x % 0x8000000000000000000000000000000) * 32 + d) by (bit_vector)
        requires
            d < 32,
    ;
}

/// One more digit, read into the value kept modulo 2 to the power 128.
proof fn lemma_mod_step(v: nat, d: nat)
    requires
        d < 32,
    ensures
        ((v % u128_range()) % 0x8000000000000000000000000000000) * 32 + d == (v * 32 + d)
            % u128_range(),
{
    let m: int = 0x8000000000000000000000000000000;
    lemma_mod_mod(v as int, m, 32);
    lemma_fundamental_div_mod(v as int, m);
    let q = v as int / m;
    let r = v as int % m;
    assert(v * 32 + d == q * u128_range() + (r * 32 + d)) by (nonlinear_arith)
        requires
            v == m * q + r,
            m == 0x8000000000000000000000000000000,
    ;
    lemma_fundamental_div_mod_converse((v * 32 + d) as int, u128_range() as int, q, r * 32 + d);
}

/// Writes the text form of `value` into `buffer`.
pub fn encode_to_array(value: u128, buffer: &mut [u8; ULYS_LEN])
    ensures
        final(buffer)@ == encoded(value),
{
    let mut rest: u128 = value;
    let mut i: usize = 0;
    proof {
        lemma_digits_len(value as nat, 32, 26);
        assert(power(32, 0) == 1);
    }
    while i < ULYS_LEN
        invariant
            i <= ULYS_LEN,
            rest as nat == value as nat / power(32, i as nat),
            buffer@.len() == ULYS_LEN,
            encoded(value).len() == ULYS_LEN,
            forall|j: int| ULYS_LEN - i <= j < ULYS_LEN ==> buffer@[j] == encoded(value)[j],
        decreases ULYS_LEN - i,
    {
        proof {
            lemma_five_bits(rest);
            lemma_digits_index(value as nat, 32, 26, 25 - i);
            lemma_power_positive(32, i as nat);
            lemma_div_denominator(value as int, power(32, i as nat) as int, 32);
            assert(power(32, (i + 1) as nat) == power(32, i as nat) * 32);
        }
        buffer[ULYS_LEN - 1 - i] = alphabet_symbol((rest & 0x1f) as u8);
        rest = rest >> 5;
        i += 1;
    }
    assert(buffer@ =~= encoded(value));
}

/// Writes the text form of `value` into the first `ULYS_LEN` bytes of
/// `buffer`, and gives the number of bytes written; a shorter buffer is left
/// as it was.
pub fn encode_to(value: u128, buffer: &mut [u8]) -> (r: Result<usize, EncodeError>)
    ensures
        old(buffer)@.len() < ULYS_LEN ==> r == Err::<usize, EncodeError>(EncodeError::BufferTooSmall)
            && final(buffer)@ == old(buffer)@,
        old(buffer)@.len() >= ULYS_LEN ==> r == Ok::<usize, EncodeError>(ULYS_LEN)
            && final(buffer)@ == encoded(value) + old(buffer)@.skip(ULYS_LEN as int),
{
    if buffer.len() < ULYS_LEN {
        return Err(EncodeError::BufferTooSmall);
    }
    let ghost start = buffer@;
    let mut rest: u128 = value;
    let mut i: usize = 0;
    proof {
        lemma_digits_len(value as nat, 32, 26);
        assert(power(32, 0) == 1);
    }
    while i < ULYS_LEN
        invariant
            i <= ULYS_LEN,
            rest as nat == value as nat / power(32, i as nat),
            buffer@.len() == start.len(),
            start.len() >= ULYS_LEN,
            encoded(value).len() == ULYS_LEN,
            forall|j: int| ULYS_LEN - i <= j < ULYS_LEN ==> buffer@[j] == encoded(value)[j],
            forall|j: int| 0 <= j < ULYS_LEN - i ==> buffer@[j] == start[j],
            forall|j: int| ULYS_LEN <= j < start.len() ==> buffer@[j] == start[j],
        decreases ULYS_LEN - i,
    {
        proof {
            lemma_five_bits(rest);
            lemma_digits_index(value as nat, 32, 26, 25 - i);
            lemma_power_positive(32, i as nat);
            lemma_div_denominator(value as int, power(32, i as nat) as int, 32);
            assert(power(32, (i + 1) as nat) == power(32, i as nat) * 32);
        }
        buffer[ULYS_LEN - 1 - i] = alphabet_symbol((rest & 0x1f) as u8);
        rest = rest >> 5;
        i += 1;
    }
    assert(buffer@ =~= encoded(value) + start.skip(ULYS_LEN as int));
    Ok(ULYS_LEN)
}

/// Relies on `String::from_utf8`: bytes that are all ASCII make a string of
/// the same characters.
#[verifier::external_body]
pub(crate) fn ascii_string(bytes: &[u8; ULYS_LEN]) -> (r: String)
    requires
        forall|i: int| 0 <= i < ULYS_LEN ==> #[trigger] bytes@[i] < 128,
    ensures
        r@ == ascii_text(bytes@),
{
    String::from_utf8(bytes.to_vec()).unwrap_or_default()
}

/// The text form is 26 ASCII symbols, one per digit.
pub proof fn lemma_encoded_symbols(value: u128)
    ensures
        encoded(value).len() == ULYS_LEN,
        forall|i: int|
            0 <= i < ULYS_LEN ==> #[trigger] encoded(value)[i] == symbol(text_digits(value)[i])
                && text_digits(value)[i] < 32 && is_symbol(encoded(value)[i]) && encoded(
                value,
            )[i] < 128,
{
    lemma_digits_len(value as nat, 32, 26);
    lemma_digits_below(value as nat, 32, 26);
    assert forall|i: int| 0 <= i < ULYS_LEN implies #[trigger] encoded(value)[i] == symbol(
        text_digits(value)[i],
    ) && text_digits(value)[i] < 32 && is_symbol(encoded(value)[i]) && encoded(value)[i]
        < 128 by {
        lemma_symbol_digit(text_digits(value)[i]);
    }
}

/// The text form of `value`: 26 lower-case symbols.
pub fn encode(value: u128) -> (r: String)
    ensures
        r@ == ascii_text(encoded(value)),
{
    let mut buffer: [u8; ULYS_LEN] = [0; ULYS_LEN];
    encode_to_array(value, &mut buffer);
    proof {
        lemma_encoded_symbols(value);
    }
    ascii_string(&buffer)
}

proof fn lemma_text_value_push(bytes: Seq<u8>, i: int)
    requires
        0 <= i < bytes.len(),
    ensures
        text_value(bytes.take(i + 1)) == text_value(bytes.take(i)) * 32 + symbol_digit(bytes[i]),
{
    let f = |b: u8| symbol_digit(b);
    let long = bytes.take(i + 1).map_values(f);
    assert(long.drop_last() =~= bytes.take(i).map_values(f));
    assert(long.last() == symbol_digit(bytes[i]));
}

/// The value that the text `encoded` writes.
pub fn decode(encoded: &str) -> (r: Result<u128, DecodeError>)
    ensures
        r == decoded(encoded.spec_bytes()),
{
    let bytes = encoded.as_bytes();
    if bytes.len() != ULYS_LEN {
        return Err(DecodeError::InvalidLength);
    }
    let mut value: u128 = 0;
    let mut i: usize = 0;
    proof {
        assert(bytes@.take(0).map_values(|b: u8| symbol_digit(b)) =~= Seq::<nat>::empty());
    }
    while i < ULYS_LEN
        invariant
            bytes@ == encoded.spec_bytes(),
            bytes@.len() == ULYS_LEN,
            i <= ULYS_LEN,
            forall|j: int| 0 <= j < i ==> is_symbol(#[trigger] bytes@[j]),
            value as nat == text_value(bytes@.take(i as int)) % u128_range(),
        decreases ULYS_LEN - i,
    {
        let val = lookup(bytes[i]);
        if val == NO_VALUE {
            return Err(DecodeError::InvalidChar);
        }
        proof {
            lemma_digit_symbol(bytes@[i as int]);
            lemma_text_value_push(bytes@, i as int);
            lemma_shift_in(value, val as u128);
            lemma_mod_step(text_value(bytes@.take(i as int)), val as nat);
        }
        value = (value << 5) | (val as u128);
        i += 1;
    }
    assert(bytes@.take(ULYS_LEN as int) =~= bytes@);
    Ok(value)
}

/// Byte strings in dictionary order: `x` comes first where the two first differ.
pub open spec fn lex_less(x: Seq<u8>, y: Seq<u8>) -> bool {
    exists|k: int| 0 <= k < x.len() && k < y.len() && x.take(k) == y.take(k) && #[trigger] x[k] < y[k]
}

/// The characters of ASCII bytes are stored as those same bytes.
pub proof fn lemma_ascii_text_bytes(bytes: Seq<u8>)
    requires
        forall|i: int| 0 <= i < bytes.len() ==> #[trigger] bytes[i] < 128,
    ensures
        encode_utf8(ascii_text(bytes)) == bytes,
{
    let t = ascii_text(bytes);
    assert(is_ascii_chars(t)) by {
        assert forall|i: int| 0 <= i < t.len() implies (#[trigger] t[i]) as nat <= 127 by {
            assert(t[i] == bytes[i] as char);
        }
    }
    is_ascii_chars_encode_utf8(t);
    assert(Seq::new(t.len(), |i: int| t[i] as u8) =~= bytes);
}

/// Decoding the text form of a value gives the value back.
pub proof fn lemma_decode_encode(value: u128)
    ensures
        decoded(encode_utf8(ascii_text(encoded(value)))) == Ok::<u128, DecodeError>(value),
{
    lemma_encoded_symbols(value);
    lemma_ascii_text_bytes(encoded(value));
    let bytes = encoded(value);
    let ds = bytes.map_values(|b: u8| symbol_digit(b));
    assert(ds =~= text_digits(value)) by {
        assert forall|i: int| 0 <= i < ULYS_LEN implies ds[i] == text_digits(value)[i] by {
            assert(encoded(value)[i] == symbol(text_digits(value)[i]));
            lemma_symbol_digit(text_digits(value)[i]);
        }
    }
    lemma_value_digits(value as nat, 32, 26);
    assert(power(32, 26) == 0x4_0000_0000_0000_0000_0000_0000_0000_0000) by {
        reveal_with_fuel(power, 27);
    }
    vstd::arithmetic::div_mod::lemma_small_mod(value as nat, power(32, 26));
    vstd::arithmetic::div_mod::lemma_small_mod(value as nat, u128_range());
}

/// Encoding the value of a text of 26 symbols whose value fits in 128 bits
/// gives the same text in lower case.
pub proof fn lemma_encode_decode(bytes: Seq<u8>)
    requires
        bytes.len() == ULYS_LEN,
        all_symbols(bytes),
        text_value(bytes) < u128_range(),
    ensures
        decoded(bytes) == Ok::<u128, DecodeError>(text_value(bytes) as u128),
        encoded(text_value(bytes) as u128) == bytes.map_values(|b: u8| ascii_lower(b)),
{
    let ds = bytes.map_values(|b: u8| symbol_digit(b));
    assert(all_below(ds, 32)) by {
        assert forall|i: int| 0 <= i < ds.len() implies #[trigger] ds[i] < 32 by {
            lemma_digit_symbol(bytes[i]);
        }
    }
    vstd::arithmetic::div_mod::lemma_small_mod(text_value(bytes), u128_range());
    lemma_digits_value(ds, 32);
    let v = text_value(bytes) as u128;
    assert(text_digits(v) == ds);
    assert(encoded(v) =~= bytes.map_values(|b: u8| ascii_lower(b))) by {
        lemma_digits_len(v as nat, 32, 26);
        assert forall|i: int| 0 <= i < ULYS_LEN implies encoded(v)[i] == ascii_lower(bytes[i]) by {
            lemma_digit_symbol(bytes[i]);
        }
    }
}

/// The text forms sort as the values do.
pub proof fn lemma_encoded_order(a: u128, b: u128)
    requires
        a < b,
    ensures
        lex_less(encoded(a), encoded(b)),
{
    assert(power(32, 26) == 0x4_0000_0000_0000_0000_0000_0000_0000_0000) by {
        reveal_with_fuel(power, 27);
    }
    lemma_digits_ordered(a as nat, b as nat, 32, 26);
    let da = text_digits(a);
    let db = text_digits(b);
    let k = choose|k: int|
        0 <= k < 26 && da.take(k) == db.take(k) && #[trigger] da[k] < db[k];
    lemma_encoded_symbols(a);
    lemma_encoded_symbols(b);
    assert(encoded(a).take(k) =~= encoded(b).take(k)) by {
        assert forall|j: int| 0 <= j < k implies encoded(a)[j] == encoded(b)[j] by {
            assert(da[j] == da.take(k)[j]);
            assert(db[j] == db.take(k)[j]);
        }
    }
    assert(encoded(a)[k] < encoded(b)[k]);
}

} // verus!
