//! The identity of a commit.

use uuid::Uuid;
use vstd::prelude::*;

verus! {

/// `uuid::Uuid`, carried as it is.
#[verifier::external_type_specification]
#[verifier::external_body]
pub struct ExUuid(Uuid);

/// `uuid::Uuid::now_v7` makes a new version 7 UUID from the system clock and random
/// bits. Which one it is rests on both, and a `Uuid` is opaque here, so nothing is
/// claimed of the result: neither its version nor that later ones order after earlier
/// ones. It takes no argument; it panics only where the machine fails it, with a clock
/// before the Unix epoch or without a source of random bits.
pub assume_specification[ Uuid::now_v7 ]() -> Uuid;

} // verus!
