//! The identifier: a 48-bit millisecond timestamp over 80 random bits.
use crate::codec::{
    all_symbols, ascii_text, decode, decoded, encode, encoded, lemma_encoded_order, lex_less,
    DecodeError, ULYS_LEN,
};
use crate::radix::{
    all_below, digits, lemma_digits_index, lemma_digits_len, lemma_power_positive,
    lemma_value_bound, power, value_of,
};
use crate::sources::{time_after_epoch, unix_millis_now};
use std::time::SystemTime;
use vstd::arithmetic::div_mod::{lemma_div_denominator, lemma_fundamental_div_mod};
use vstd::prelude::*;
use vstd::string::StringSliceAdditionalSpecFns;

verus! {

/// 2 to the power 80: the range of the random field.
pub open spec fn random_range() -> nat {
    0x1_0000_0000_0000_0000_0000
}

/// 2 to the power 48: the range of the timestamp field.
pub open spec fn timestamp_range() -> nat {
    0x1_0000_0000_0000
}

/// The identifier with timestamp `timestamp_ms` and random field `random`,
/// each cut to its width.
pub open spec fn packed(timestamp_ms: nat, random: nat) -> nat {
    (timestamp_ms % timestamp_range()) * random_range() + random % random_range()
}

/// The timestamp field of `value`: its top 48 bits.
pub open spec fn timestamp_of(value: u128) -> nat {
    value as nat / random_range()
}

/// The random field of `value`: its low 80 bits.
pub open spec fn random_of(value: u128) -> nat {
    value as nat % random_range()
}

/// The 16 bytes of `value`, most significant first.
pub open spec fn be_bytes(value: u128) -> Seq<u8> {
    digits(value as nat, 256, 16).map_values(|d: nat| d as u8)
}

/// The number that `bytes` write, most significant first.
pub open spec fn be_value(bytes: Seq<u8>) -> nat {
    value_of(bytes.map_values(|b: u8| b as nat), 256)
}

/// 2 to the power 32: the range of the checksum field.
pub open spec fn check_range() -> nat {
    0x1_0000_0000
}

/// `value` with its checksum field, the low 32 bits, cleared.
pub open spec fn cleared(value: u128) -> u128 {
    (value as nat - value as nat % check_range()) as u128
}

/// A name for what `xxhash_rust::xxh3::xxh3_64` gives for `bytes`.
pub uninterp spec fn xxh3_of(bytes: Seq<u8>) -> u64;

/// The checksum of an identifier whose checksum field is cleared.
pub open spec fn checksum_of(data: u128) -> u64 {
    xxh3_of(be_bytes(data))
}

/// `data` with its low 32 bits replaced by the top half of `checksum`.
pub open spec fn sealed_value(data: u128, checksum: u64) -> nat {
    cleared(data) as nat + checksum as nat / check_range()
}

/// Whether the low 32 bits of `value` are the top half of the checksum of
/// the rest.
pub open spec fn is_valid_value(value: u128) -> bool {
    value as nat % check_range() == checksum_of(cleared(value)) as nat / check_range()
}

/// The bits that a checksummed identifier holds before its checksum:
/// `timestamp_ms` cut to 48 bits, then the 16 bits of `rand_hi`, then the
/// low 32 bits of `rand_lo`, then 32 zero bits.
pub open spec fn unsealed(timestamp_ms: nat, rand_hi: u16, rand_lo: u64) -> u128 {
    ((timestamp_ms % timestamp_range()) * random_range() + rand_hi as nat * 0x1_0000_0000_0000_0000
        + (rand_lo as nat % check_range()) * check_range()) as u128
}

/// Relies on `xxhash_rust::xxh3::xxh3_64`, which hashes its input with seed 0
/// and the default secret: the result depends on the bytes alone.
#[verifier::external_body]
fn xxh3_hash(bytes: &[u8; 16]) -> (r: u64)
    ensures
        r == xxh3_of(bytes@),
{
    xxhash_rust::xxh3::xxh3_64(bytes)
}

/// An error from reading an identifier from text.
#[derive(Debug, PartialEq, Eq, Clone, Copy, Structural)]
pub enum UlysError {
    /// The text is not 26 bytes long.
    ParseInvalidLength,
    /// The text holds a byte outside the alphabet.
    ParseBase32Decode,
    /// The decoded value does not fit an identifier; reading the text form
    /// never gives it.
    ParseToArray,
}

impl UlysError {
    /// A short description of the error.
    pub fn message(&self) -> (r: &'static str)
        ensures
            *self == UlysError::ParseInvalidLength ==> r@ == "invalid length"@,
            *self == UlysError::ParseBase32Decode ==> r@ == "invalid character"@,
            *self == UlysError::ParseToArray ==> r@ == "invalid array"@,
    {
        match self {
            UlysError::ParseInvalidLength => "invalid length",
            UlysError::ParseBase32Decode => "invalid character",
            UlysError::ParseToArray => "invalid array",
        }
    }
}

/// A sortable identifier: the timestamp in milliseconds in the top 48 bits,
/// random bits in the low 80. Identifiers order as their numbers.
#[derive(Debug, PartialEq, Eq, PartialOrd, Ord, Hash, Clone, Copy, Structural)]
pub struct Ulys(pub u128);

proof fn lemma_pack_bits(t: u64, r: u128)
    ensures
        (((t & 0xffff_ffff_ffff) as u128) << 80u128) | (r & 0xffff_ffff_ffff_ffff_ffff) == (t
            % 0x1_0000_0000_0000) as u128 * 0x1_0000_0000_0000_0000_0000 + r
            % 0x1_0000_0000_0000_0000_0000,
{
    assert((((t & 0xffff_ffff_ffff) as u128) << 80u128) | (r & 0xffff_ffff_ffff_ffff_ffff) == (t
        % 0x1_0000_0000_0000) as u128 * 0x1_0000_0000_0000_0000_0000 + r
        % 0x1_0000_0000_0000_0000_0000) by (bit_vector);
}

proof fn lemma_field_bits(v: u128)
    ensures
        v >> 80u128 == v / 0x1_0000_0000_0000_0000_0000,
        v & 0xffff_ffff_ffff_ffff_ffff == v % 0x1_0000_0000_0000_0000_0000,
        v / 0x1_0000_0000_0000_0000_0000 < 0x1_0000_0000_0000,
{
    assert(v >> 80u128 == v / 0x1_0000_0000_0000_0000_0000 && v & 0xffff_ffff_ffff_ffff_ffff == v
        % 0x1_0000_0000_0000_0000_0000 && v / 0x1_0000_0000_0000_0000_0000 < 0x1_0000_0000_0000)
        by (bit_vector);
}

impl Default for Ulys {
    fn default() -> (r: Ulys)
        ensures
            r.0 == 0,
    {
        Ulys(0)
    }
}

impl From<(u64, u64)> for Ulys {
    /// The identifier whose high half is the first word and low half the second.
    fn from(words: (u64, u64)) -> (r: Ulys) {
        proof {
            lemma_words_bits(words.0, words.1);
        }
        Ulys(((words.0 as u128) << 64u128) | (words.1 as u128))
    }
}

impl vstd::std_specs::convert::FromSpecImpl<(u64, u64)> for Ulys {
    open spec fn obeys_from_spec() -> bool {
        true
    }

    open spec fn from_spec(words: (u64, u64)) -> Ulys {
        Ulys((words.0 as nat * 0x1_0000_0000_0000_0000 + words.1 as nat) as u128)
    }
}

proof fn lemma_words_bits(hi: u64, lo: u64)
    ensures
        ((hi as u128) << 64u128) | (lo as u128) == hi as u128 * 0x1_0000_0000_0000_0000 + lo as u128,
{
    assert(((hi as u128) << 64u128) | (lo as u128) == hi as u128 * 0x1_0000_0000_0000_0000 + lo as u128)
        by (bit_vector);
}

proof fn lemma_halves_bits(v: u128)
    ensures
        ((v >> 64u128) as u64) as nat * 0x1_0000_0000_0000_0000 + (v as u64) as nat == v,
{
    assert(((v >> 64u128) as u64) as u128 * 0x1_0000_0000_0000_0000 + (v as u64) as u128 == v)
        by (bit_vector);
}

proof fn lemma_seal_bits(d: u128, c: u64)
    ensures
        ((d >> 32u128) << 32u128) | ((c >> 32u64) as u128) == (d - d % 0x1_0000_0000) + c
            / 0x1_0000_0000,
        (d >> 32u128) << 32u128 == d - d % 0x1_0000_0000,
        d % 0x1_0000_0000 <= d,
        d & 0xffff_ffff == d % 0x1_0000_0000,
        c >> 32u64 == c / 0x1_0000_0000u64,
{
    assert(((d >> 32u128) << 32u128) | ((c >> 32u64) as u128) == (d - d % 0x1_0000_0000) + c
        / 0x1_0000_0000 && (d >> 32u128) << 32u128 == d - d % 0x1_0000_0000 && d % 0x1_0000_0000
        <= d && d & 0xffff_ffff == d % 0x1_0000_0000 && c >> 32u64 == c / 0x1_0000_0000u64)
        by (bit_vector);
}

proof fn lemma_unsealed_bits(t: u128, hi: u16, lo: u64)
    ensures
        (((t << 16u128) | (hi as u128)) << 64u128) | ((lo << 32u64) as u128) == (t
            % 0x1_0000_0000_0000) * 0x1_0000_0000_0000_0000_0000 + hi as u128
            * 0x1_0000_0000_0000_0000 + (lo % 0x1_0000_0000) as u128 * 0x1_0000_0000,
        ((((t << 16u128) | (hi as u128)) << 64u128) | ((lo << 32u64) as u128)) % 0x1_0000_0000 == 0,
        ((((t << 16u128) | (hi as u128)) << 64u128) | ((lo << 32u64) as u128))
            / 0x1_0000_0000_0000_0000_0000 == t % 0x1_0000_0000_0000,
{
    assert((((t << 16u128) | (hi as u128)) << 64u128) | ((lo << 32u64) as u128) == (t
        % 0x1_0000_0000_0000) * 0x1_0000_0000_0000_0000_0000 + hi as u128 * 0x1_0000_0000_0000_0000
        + (lo % 0x1_0000_0000) as u128 * 0x1_0000_0000) by (bit_vector);
    assert(((((t << 16u128) | (hi as u128)) << 64u128) | ((lo << 32u64) as u128)) % 0x1_0000_0000
        == 0 && ((((t << 16u128) | (hi as u128)) << 64u128) | ((lo << 32u64) as u128))
        / 0x1_0000_0000_0000_0000_0000 == t % 0x1_0000_0000_0000) by (bit_vector);
}

proof fn lemma_byte_bits(x: u128)
    ensures
        x & 0xff == x % 256,
        x >> 8u128 == x / 256,
{
    assert(x & 0xff == x % 256 && x >> 8u128 == x / 256) by (bit_vector);
}

proof fn lemma_byte_in(x: u128, b: u8)
    requires
        x < 0x1_0000_0000_0000_0000_0000_0000_0000_00,
    ensures
        (x << 8u128) | (b as u128) == x * 256 + b,
{
    assert((x << 8u128) | (b as u128) == x * 256 + b) by (bit_vector)
        requires
            x < 0x1_0000_0000_0000_0000_0000_0000_0000_00,
    ;
}

impl Ulys {
    /// An identifier for the current time, with 80 random bits from the
    /// thread-local generator.
    pub fn new() -> (r: Ulys)
        ensures
            exists|now: nat, random: nat| r.0 == packed(now, random),
    {
        let now = unix_millis_now();
        let rand_hi: u16 = rand::random();
        let rand_lo: u64 = rand::random();
        Ulys::from_parts((now & 0xffff_ffff_ffff) as u64, ((rand_hi as u128) << 64u128) | (rand_lo as u128))
    }

    /// Reads an identifier from its text form, in either case.
    pub fn from_string(s: &str) -> (r: Result<Ulys, UlysError>)
        ensures
            s.spec_bytes().len() != ULYS_LEN ==> r == Err::<Ulys, UlysError>(UlysError::ParseInvalidLength),
            s.spec_bytes().len() == ULYS_LEN && !all_symbols(s.spec_bytes()) ==> r == Err::<Ulys, UlysError>(
                UlysError::ParseBase32Decode,
            ),
            decoded(s.spec_bytes()) is Ok ==> r == Ok::<Ulys, UlysError>(Ulys(decoded(s.spec_bytes())->Ok_0)),
    {
        match decode(s) {
            Ok(value) => Ok(Ulys(value)),
            Err(DecodeError::InvalidLength) => Err(UlysError::ParseInvalidLength),
            Err(DecodeError::InvalidChar) => Err(UlysError::ParseBase32Decode),
        }
    }

    /// The text form of the identifier: 26 lower-case symbols.
    pub fn to_string(&self) -> (r: String)
        ensures
            r@ == ascii_text(encoded(self.0)),
    {
        encode(self.0)
    }

    /// The instant of the timestamp field, to the millisecond.
    pub fn datetime(&self) -> (r: SystemTime) {
        let stamp = self.timestamp_ms();
        time_after_epoch(stamp)
    }

    /// The all-zero identifier.
    pub fn nil() -> (r: Ulys)
        ensures
            r.0 == 0,
    {
        Ulys(0)
    }

    /// Packs `timestamp_ms` (cut to 48 bits) over `random` (cut to 80 bits).
    pub fn from_parts(timestamp_ms: u64, random: u128) -> (r: Ulys)
        ensures
            r.0 == packed(timestamp_ms as nat, random as nat),
    {
        proof {
            lemma_pack_bits(timestamp_ms, random);
        }
        let time_bits = (timestamp_ms & 0xffff_ffff_ffff) as u128;
        Ulys((time_bits << 80u128) | (random & 0xffff_ffff_ffff_ffff_ffff))
    }

    /// The timestamp field: the top 48 bits.
    pub fn timestamp_ms(&self) -> (r: u64)
        ensures
            r == timestamp_of(self.0),
            r < timestamp_range(),
    {
        proof {
            lemma_field_bits(self.0);
        }
        (self.0 >> 80u128) as u64
    }

    /// The random field: the low 80 bits.
    pub fn random(&self) -> (r: u128)
        ensures
            r == random_of(self.0),
    {
        proof {
            lemma_field_bits(self.0);
        }
        self.0 & 0xffff_ffff_ffff_ffff_ffff
    }

    /// Whether this is the all-zero identifier.
    pub fn is_nil(&self) -> (r: bool)
        ensures
            r == (self.0 == 0),
    {
        self.0 == 0
    }

    /// Whether this is the all-zero identifier, the default.
    pub fn is_default(&self) -> (r: bool)
        ensures
            r == (self.0 == 0),
    {
        self.is_nil()
    }

    /// The next identifier, unless the random field is all ones, where one
    /// more would carry into the timestamp.
    pub fn increment(&self) -> (r: Option<Ulys>)
        ensures
            random_of(self.0) == random_range() - 1 ==> r.is_none(),
            random_of(self.0) != random_range() - 1 ==> r == Some(Ulys((self.0 + 1) as u128)),
    {
        proof {
            lemma_field_bits(self.0);
        }
        if self.0 & 0xffff_ffff_ffff_ffff_ffff == 0xffff_ffff_ffff_ffff_ffff {
            None
        } else {
            proof {
                lemma_fundamental_div_mod(self.0 as int, random_range() as int);
                assert(self.0 < u128::MAX) by (nonlinear_arith)
                    requires
                        self.0 == random_range() * timestamp_of(self.0) + random_of(self.0),
                        timestamp_of(self.0) < timestamp_range(),
                        random_of(self.0) < random_range() - 1,
                        random_range() == 0x1_0000_0000_0000_0000_0000,
                        timestamp_range() == 0x1_0000_0000_0000,
                ;
            }
            Some(Ulys(self.0 + 1))
        }
    }

    /// `data` with its low 32 bits replaced by the top half of `checksum`.
    pub fn with_checksum(data: u128, checksum: u64) -> (r: Ulys)
        ensures
            r.0 == sealed_value(data, checksum),
    {
        proof {
            lemma_seal_bits(data, checksum);
        }
        Ulys(((data >> 32u128) << 32u128) | ((checksum >> 32u64) as u128))
    }

    /// Whether the checksum field holds the top half of `checksum`.
    pub fn checksum_matches(&self, checksum: u64) -> (r: bool)
        ensures
            r == (self.0 as nat % check_range() == checksum as nat / check_range()),
    {
        proof {
            lemma_seal_bits(self.0, checksum);
        }
        self.0 & 0xffff_ffff == ((checksum >> 32u64) as u128)
    }

    /// The checksum of `data`: the xxh3 hash of its 16 bytes.
    pub fn checksum(data: u128) -> (r: u64)
        ensures
            r == checksum_of(data),
    {
        let bytes = Ulys(data).to_bytes();
        xxh3_hash(&bytes)
    }

    /// Whether the checksum field matches the rest of the identifier.
    pub fn is_valid(&self) -> (r: bool)
        ensures
            r == is_valid_value(self.0),
    {
        proof {
            lemma_seal_bits(self.0, 0);
        }
        let data = (self.0 >> 32u128) << 32u128;
        self.checksum_matches(Ulys::checksum(data))
    }

    /// The checksummed identifier for `timestamp_ms` (cut to 48 bits) and the
    /// random draws `rand_hi` and `rand_lo` (of which the low 32 bits are kept).
    pub fn sealed(timestamp_ms: u128, rand_hi: u16, rand_lo: u64) -> (r: Ulys)
        ensures
            r.0 == sealed_value(
                unsealed(timestamp_ms as nat, rand_hi, rand_lo),
                checksum_of(unsealed(timestamp_ms as nat, rand_hi, rand_lo)),
            ),
            is_valid_value(r.0),
            timestamp_of(r.0) == timestamp_ms as nat % timestamp_range(),
    {
        proof {
            lemma_unsealed_bits(timestamp_ms, rand_hi, rand_lo);
        }
        let msb = (timestamp_ms << 16u128) | (rand_hi as u128);
        let data = (msb << 64u128) | ((rand_lo << 32u64) as u128);
        proof {
            assert(data == unsealed(timestamp_ms as nat, rand_hi, rand_lo));
            assert(timestamp_of(data) == timestamp_ms as nat % timestamp_range());
        }
        let checksum = Ulys::checksum(data);
        let r = Ulys::with_checksum(data, checksum);
        proof {
            lemma_sealed_fields(data, checksum);
        }
        r
    }

    /// The high and low 64-bit halves of the identifier.
    pub fn to_words(&self) -> (r: (u64, u64))
        ensures
            r.0 as nat * 0x1_0000_0000_0000_0000 + r.1 as nat == self.0,
    {
        proof {
            lemma_halves_bits(self.0);
        }
        ((self.0 >> 64u128) as u64, self.0 as u64)
    }

    /// The 16 bytes of the identifier, most significant first.
    pub fn to_bytes(&self) -> (r: [u8; 16])
        ensures
            r@ == be_bytes(self.0),
    {
        let mut bytes: [u8; 16] = [0; 16];
        let mut rest: u128 = self.0;
        let mut i: usize = 0;
        proof {
            lemma_digits_len(self.0 as nat, 256, 16);
            assert(power(256, 0) == 1);
        }
        while i < 16
            invariant
                i <= 16,
                rest as nat == self.0 as nat / power(256, i as nat),
                bytes@.len() == 16,
                be_bytes(self.0).len() == 16,
                forall|j: int| 16 - i <= j < 16 ==> bytes@[j] == be_bytes(self.0)[j],
            decreases 16 - i,
        {
            proof {
                lemma_byte_bits(rest);
                lemma_digits_index(self.0 as nat, 256, 16, 15 - i);
                lemma_power_positive(256, i as nat);
                lemma_div_denominator(self.0 as int, power(256, i as nat) as int, 256);
                assert(power(256, (i + 1) as nat) == power(256, i as nat) * 256);
            }
            bytes[15 - i] = (rest & 0xff) as u8;
            rest = rest >> 8u128;
            i += 1;
        }
        assert(bytes@ =~= be_bytes(self.0));
        bytes
    }

    /// The identifier that 16 bytes write, most significant first.
    pub fn from_bytes(bytes: [u8; 16]) -> (r: Ulys)
        ensures
            r.0 == be_value(bytes@),
    {
        let mut value: u128 = 0;
        let mut i: usize = 0;
        let ghost f = |b: u8| b as nat;
        proof {
            assert(bytes@.take(0).map_values(f) =~= Seq::<nat>::empty());
        }
        while i < 16
            invariant
                i <= 16,
                bytes@.len() == 16,
                f == (|b: u8| b as nat),
                value as nat == value_of(bytes@.take(i as int).map_values(f), 256),
                value < power(256, i as nat),
            decreases 16 - i,
        {
            proof {
                let long = bytes@.take(i + 1).map_values(f);
                assert(long.drop_last() =~= bytes@.take(i as int).map_values(f));
                assert(long.last() == bytes@[i as int] as nat);
                lemma_byte_step(value, bytes[i as int], i as nat);
            }
            value = (value << 8u128) | (bytes[i] as u128);
            i += 1;
        }
        assert(bytes@.take(16) =~= bytes@);
        Ulys(value)
    }
}

proof fn lemma_byte_step(value: u128, b: u8, i: nat)
    requires
        i < 16,
        value < power(256, i),
    ensures
        (value << 8u128) | (b as u128) == value * 256 + b,
        value * 256 + b < power(256, i + 1),
{
    assert(power(256, i + 1) == 256 * power(256, i));
    assert(power(256, 15) == 0x1_0000_0000_0000_0000_0000_0000_0000_00) by {
        reveal_with_fuel(power, 16);
    }
    lemma_power_mono_256(i);
    lemma_byte_in(value, b);
    assert(value * 256 + b < 256 * power(256, i)) by (nonlinear_arith)
        requires
            value < power(256, i),
            b < 256,
    ;
}

proof fn lemma_sealed_fields(data: u128, checksum: u64)
    requires
        data as nat % check_range() == 0,
    ensures
        cleared(sealed_value(data, checksum) as u128) == data,
        sealed_value(data, checksum) as nat % check_range() == checksum as nat / check_range(),
        sealed_value(data, checksum) < u128::MAX + 1,
        timestamp_of(sealed_value(data, checksum) as u128) == timestamp_of(data),
{
    lemma_add_low(data, (checksum / 0x1_0000_0000u64) as u128);
}

proof fn lemma_add_low(d: u128, c: u128)
    requires
        d % 0x1_0000_0000 == 0,
        c < 0x1_0000_0000,
    ensures
        d + c <= u128::MAX,
        (d + c) % 0x1_0000_0000 == c,
        (d + c) / 0x1_0000_0000_0000_0000_0000 == d / 0x1_0000_0000_0000_0000_0000,
{
    assert(d + c <= 0xffff_ffff_ffff_ffff_ffff_ffff_ffff_ffff) by (bit_vector)
        requires
            d % 0x1_0000_0000 == 0,
            c < 0x1_0000_0000,
    ;
    assert(((d + c) as u128) % 0x1_0000_0000 == c && ((d + c) as u128) / 0x1_0000_0000_0000_0000_0000
        == d / 0x1_0000_0000_0000_0000_0000) by (bit_vector)
        requires
            d % 0x1_0000_0000 == 0,
            c < 0x1_0000_0000,
    ;
}

/// The 16 bytes of a value, read back, give the value.
pub proof fn lemma_be_round_trip(value: u128)
    ensures
        be_value(be_bytes(value)) == value,
        be_bytes(value).len() == 16,
{
    let ds = digits(value as nat, 256, 16);
    lemma_digits_len(value as nat, 256, 16);
    crate::radix::lemma_digits_below(value as nat, 256, 16);
    assert(be_bytes(value).map_values(|b: u8| b as nat) =~= ds);
    crate::radix::lemma_value_digits(value as nat, 256, 16);
    assert(power(256, 16) == 0xffff_ffff_ffff_ffff_ffff_ffff_ffff_ffff + 1) by {
        reveal_with_fuel(power, 17);
    }
    vstd::arithmetic::div_mod::lemma_small_mod(value as nat, power(256, 16));
}

/// A packed identifier fits in 128 bits, and its fields are the parts it
/// was packed from, cut to their widths.
pub proof fn lemma_packed_fields(timestamp_ms: nat, random: nat)
    ensures
        packed(timestamp_ms, random) <= u128::MAX,
        timestamp_of(packed(timestamp_ms, random) as u128) == timestamp_ms % timestamp_range(),
        random_of(packed(timestamp_ms, random) as u128) == random % random_range(),
{
    let t = timestamp_ms % timestamp_range();
    let r = random % random_range();
    assert(t * random_range() + r <= u128::MAX) by (nonlinear_arith)
        requires
            t < timestamp_range(),
            r < random_range(),
            timestamp_range() == 0x1_0000_0000_0000,
            random_range() == 0x1_0000_0000_0000_0000_0000,
    ;
    vstd::arithmetic::div_mod::lemma_fundamental_div_mod_converse(
        packed(timestamp_ms, random) as int,
        random_range() as int,
        t as int,
        r as int,
    );
}

/// Of two identifiers packed with one timestamp, the one with the smaller
/// random field is the smaller, and its text form sorts first.
pub proof fn lemma_order_within_millisecond(timestamp_ms: u64, random_a: u128, random_b: u128)
    requires
        random_a % 0x1_0000_0000_0000_0000_0000 < random_b % 0x1_0000_0000_0000_0000_0000,
    ensures
        packed(timestamp_ms as nat, random_a as nat) < packed(timestamp_ms as nat, random_b as nat),
        lex_less(
            encoded(packed(timestamp_ms as nat, random_a as nat) as u128),
            encoded(packed(timestamp_ms as nat, random_b as nat) as u128),
        ),
{
    lemma_packed_fields(timestamp_ms as nat, random_a as nat);
    lemma_packed_fields(timestamp_ms as nat, random_b as nat);
    lemma_encoded_order(
        packed(timestamp_ms as nat, random_a as nat) as u128,
        packed(timestamp_ms as nat, random_b as nat) as u128,
    );
}

/// Any 16 bytes are the bytes of the value that they write.
pub proof fn lemma_bytes_round_trip(bytes: Seq<u8>)
    requires
        bytes.len() == 16,
    ensures
        be_value(bytes) <= u128::MAX,
        be_bytes(be_value(bytes) as u128) == bytes,
{
    let ds = bytes.map_values(|b: u8| b as nat);
    assert(all_below(ds, 256));
    lemma_value_bound(ds, 256);
    assert(power(256, 16) == 0xffff_ffff_ffff_ffff_ffff_ffff_ffff_ffff + 1) by {
        reveal_with_fuel(power, 17);
    }
    crate::radix::lemma_digits_value(ds, 256);
    assert(be_bytes(be_value(bytes) as u128) =~= bytes);
}

proof fn lemma_power_mono_256(i: nat)
    requires
        i < 16,
    ensures
        power(256, i) <= power(256, 15),
    decreases 15 - i,
{
    if i < 15 {
        lemma_power_mono_256(i + 1);
        lemma_power_positive(256, i);
        assert(power(256, i + 1) == 256 * power(256, i));
    }
}

} // verus!
