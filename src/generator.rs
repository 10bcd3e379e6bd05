//! Strictly increasing identifiers from one generator.
use crate::sources::unix_millis_now;
use crate::ulys::{
    lemma_packed_fields, packed, random_of, random_range, timestamp_of, timestamp_range, Ulys,
};
use vstd::prelude::*;

verus! {

/// The error of a generator whose last identifier has an all-ones random
/// field while the clock has not moved past its millisecond.
#[derive(Debug, PartialEq, Eq, Hash, Copy, Clone, Structural)]
pub enum MonotonicError {
    /// One more would carry into the next millisecond.
    Overflow,
}

impl MonotonicError {
    /// A short description of the error.
    pub fn message(&self) -> (r: &'static str)
        ensures
            r@ == "Ulys random bits would overflow"@,
    {
        match self {
            MonotonicError::Overflow => "Ulys random bits would overflow",
        }
    }
}

/// What a generator whose last identifier is `previous` gives at time
/// `now_ms` with the random draw `random`: the next identifier where the
/// clock has not passed the last timestamp, else a fresh one.
pub open spec fn step(previous: u128, now_ms: nat, random: nat) -> Result<u128, MonotonicError> {
    if now_ms <= timestamp_of(previous) {
        if random_of(previous) == random_range() - 1 {
            Err(MonotonicError::Overflow)
        } else {
            Ok((previous + 1) as u128)
        }
    } else {
        Ok(packed(now_ms, random) as u128)
    }
}

/// Two steps at one millisecond: unless the first identifier's random field
/// is all ones, the second is the first plus one, with the same timestamp;
/// otherwise the second step fails.
pub proof fn lemma_same_millisecond(previous: u128, now_ms: nat, random_a: nat, random_b: nat)
    requires
        now_ms < timestamp_range(),
        step(previous, now_ms, random_a) is Ok,
    ensures
        ({
            let first = step(previous, now_ms, random_a)->Ok_0;
            &&& random_of(first) != random_range() - 1 ==> step(first, now_ms, random_b) == Ok::<
                u128,
                MonotonicError,
            >((first + 1) as u128) && first + 1 <= u128::MAX && timestamp_of((first + 1) as u128)
                == timestamp_of(first)
            &&& random_of(first) == random_range() - 1 ==> step(first, now_ms, random_b) == Err::<
                u128,
                MonotonicError,
            >(MonotonicError::Overflow)
        }),
{
    let first = step(previous, now_ms, random_a)->Ok_0;
    vstd::arithmetic::div_mod::lemma_fundamental_div_mod(previous as int, random_range() as int);
    vstd::arithmetic::div_mod::lemma_fundamental_div_mod(first as int, random_range() as int);
    if now_ms <= timestamp_of(previous) {
        assert(random_of(previous) != random_range() - 1);
        assert(first == previous + 1);
        lemma_increment_fields(previous);
    } else {
        lemma_packed_fields(now_ms, random_a);
        vstd::arithmetic::div_mod::lemma_small_mod(now_ms, timestamp_range());
    }
    assert(now_ms <= timestamp_of(first));
    if random_of(first) != random_range() - 1 {
        lemma_increment_fields(first);
    }
}

/// Adding one to an identifier whose random field is not all ones keeps its
/// timestamp and adds one to its random field.
pub proof fn lemma_increment_fields(value: u128)
    requires
        random_of(value) != random_range() - 1,
    ensures
        value + 1 <= u128::MAX,
        timestamp_of((value + 1) as u128) == timestamp_of(value),
        random_of((value + 1) as u128) == random_of(value) + 1,
{
    vstd::arithmetic::div_mod::lemma_fundamental_div_mod(value as int, random_range() as int);
    let t = timestamp_of(value);
    let r = random_of(value);
    assert(t < timestamp_range()) by {
        vstd::arithmetic::div_mod::lemma_div_is_ordered(value as int, u128::MAX as int, random_range() as int);
    }
    assert(t * random_range() + r + 1 <= u128::MAX) by (nonlinear_arith)
        requires
            t < timestamp_range(),
            r + 1 < random_range(),
            timestamp_range() == 0x1_0000_0000_0000,
            random_range() == 0x1_0000_0000_0000_0000_0000,
    ;
    vstd::arithmetic::div_mod::lemma_fundamental_div_mod_converse(
        value + 1,
        random_range() as int,
        t as int,
        (r + 1) as int,
    );
}

/// A step at a later millisecond than the last timestamp gives a fresh
/// identifier with that timestamp, larger than the last.
pub proof fn lemma_later_millisecond(previous: u128, now_ms: nat, random: nat)
    requires
        timestamp_of(previous) < now_ms < timestamp_range(),
    ensures
        step(previous, now_ms, random) is Ok,
        timestamp_of(step(previous, now_ms, random)->Ok_0) == now_ms,
        step(previous, now_ms, random)->Ok_0 > previous,
{
    lemma_packed_fields(now_ms, random);
    vstd::arithmetic::div_mod::lemma_small_mod(now_ms, timestamp_range());
    let next = step(previous, now_ms, random)->Ok_0;
    if next <= previous {
        vstd::arithmetic::div_mod::lemma_div_is_ordered(next as int, previous as int, random_range() as int);
    }
}

/// A generator of identifiers, each larger than the last.
pub struct Generator {
    previous: Ulys,
}

impl Generator {
    /// The last identifier that the generator gave; nil at first.
    pub closed spec fn last(&self) -> u128 {
        self.previous.0
    }

    /// A generator that has given nothing yet.
    pub fn new() -> (r: Generator)
        ensures
            r.last() == 0,
    {
        Generator { previous: Ulys::nil() }
    }

    /// The last identifier given, or nil.
    pub fn previous(&self) -> (r: Ulys)
        ensures
            r.0 == self.last(),
    {
        self.previous
    }

    /// The next identifier at time `timestamp_ms`, where `random` is the
    /// random field that a fresh identifier takes.
    pub fn generate_at(&mut self, timestamp_ms: u128, random: u128) -> (r: Result<Ulys, MonotonicError>)
        ensures
            step(old(self).last(), timestamp_ms as nat, random as nat) is Ok ==> r == Ok::<Ulys, MonotonicError>(
                Ulys(step(old(self).last(), timestamp_ms as nat, random as nat)->Ok_0),
            ) && final(self).last() == step(old(self).last(), timestamp_ms as nat, random as nat)->Ok_0,
            step(old(self).last(), timestamp_ms as nat, random as nat) is Err ==> r == Err::<Ulys, MonotonicError>(
                MonotonicError::Overflow,
            ) && final(self).last() == old(self).last(),
    {
        let last_ms = self.previous.timestamp_ms();
        if timestamp_ms <= last_ms as u128 {
            match self.previous.increment() {
                Some(next) => {
                    self.previous = next;
                    Ok(next)
                },
                None => Err(MonotonicError::Overflow),
            }
        } else {
            let next = Ulys::from_parts((timestamp_ms & 0xffff_ffff_ffff) as u64, random);
            proof {
                assert((timestamp_ms & 0xffff_ffff_ffff) as u64 == timestamp_ms % 0x1_0000_0000_0000)
                    by (bit_vector);
                vstd::arithmetic::div_mod::lemma_mod_mod(timestamp_ms as int, timestamp_range() as int, 1);
            }
            self.previous = next;
            Ok(next)
        }
    }

    /// The next identifier at the current time. Where the clock has not
    /// passed the last timestamp it is the last identifier plus one; else it
    /// is fresh, with random bits from the thread-local generator.
    pub fn generate(&mut self) -> (r: Result<Ulys, MonotonicError>)
        ensures
            r is Err ==> r == Err::<Ulys, MonotonicError>(MonotonicError::Overflow)
                && final(self).last() == old(self).last()
                && random_of(old(self).last()) == random_range() - 1,
            r is Ok ==> final(self).last() == r->Ok_0.0 && ((random_of(old(self).last()) != random_range() - 1
                && r->Ok_0.0 == old(self).last() + 1) || exists|now: nat, random: nat|
                now > timestamp_of(old(self).last()) && r->Ok_0.0 == packed(now, random)),
    {
        let now = unix_millis_now();
        let random: u128 = if now <= self.previous.timestamp_ms() as u128 {
            0
        } else {
            let rand_hi: u16 = rand::random();
            let rand_lo: u64 = rand::random();
            ((rand_hi as u128) << 64u128) | (rand_lo as u128)
        };
        self.generate_at(now, random)
    }
}

impl Default for Generator {
    fn default() -> (r: Generator)
        ensures
            r.last() == 0,
    {
        Generator::new()
    }
}

} // verus!
