//! Reading the 128 bits of an identifier as a UUID and back, with no check
//! of the UUID's version or variant fields.
use crate::ulys::Ulys;
use uuid::Uuid;
use vstd::prelude::*;

verus! {

#[verifier::external_type_specification]
#[verifier::external_body]
pub struct ExUuid(Uuid);

/// The UUID whose 16 bytes, most significant first, are those of `v`.
pub assume_specification[ Uuid::from_u128 ](v: u128) -> Uuid;

/// The 128 bits of the UUID, its first byte most significant.
pub assume_specification[ Uuid::as_u128 ](uuid: &Uuid) -> u128;

impl From<Uuid> for Ulys {
    fn from(uuid: Uuid) -> (r: Ulys) {
        Ulys(uuid.as_u128())
    }
}

impl vstd::std_specs::convert::FromSpecImpl<Uuid> for Ulys {
    /// A `Uuid` is opaque here, so no result is stated.
    open spec fn obeys_from_spec() -> bool {
        false
    }

    open spec fn from_spec(uuid: Uuid) -> Ulys {
        vstd::pervasive::arbitrary()
    }
}

impl vstd::std_specs::convert::FromSpecImpl<Ulys> for Uuid {
    /// A `Uuid` is opaque here, so no result is stated.
    open spec fn obeys_from_spec() -> bool {
        false
    }

    open spec fn from_spec(ulys: Ulys) -> Uuid {
        vstd::pervasive::arbitrary()
    }
}

impl From<Ulys> for Uuid {
    fn from(ulys: Ulys) -> (r: Uuid) {
        Uuid::from_u128(ulys.0)
    }
}

} // verus!
