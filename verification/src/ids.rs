//! Fresh order identities.

use vstd::prelude::*;
use crate::order::OrderId;

verus! {

/// True of the 128-bit values that carry the version and variant marks of a
/// random UUID: version nibble 4, variant bits `10`.
pub open spec fn is_random_uuid(id: OrderId) -> bool {
    id & 0x0000_0000_0000_f000_c000_0000_0000_0000u128
        == 0x0000_0000_0000_4000_8000_0000_0000_0000u128
}

/// Draws a fresh identity with `uuid::Uuid::new_v4` and hands it back as the
/// 128-bit number that `Uuid::as_u128` gives.
///
/// Trusted: the bits come from the operating system's random source, so the
/// contract states only what holds of every draw, namely the version and
/// variant marks that `new_v4` sets. Nothing here promises that two draws
/// differ. The call panics if the operating system cannot supply random bytes.
#[verifier::external_body]
pub(crate) fn fresh_order_id() -> (id: OrderId)
    ensures
        is_random_uuid(id),
{
    uuid::Uuid::new_v4().as_u128()
}

} // verus!
