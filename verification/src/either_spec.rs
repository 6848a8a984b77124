//! Declaration of the tagged two-variant union type from the `either` crate,
//! so that verified code can build and inspect its values directly.

use vstd::prelude::*;

verus! {

/// Trusted declaration: makes `either::Either` visible to the verifier as the
/// plain two-variant enum its source defines, with `Left` and `Right` payloads.
#[verifier::external_type_specification]
pub struct ExEither<L, R>(either::Either<L, R>);

} // verus!
