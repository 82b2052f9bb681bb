//! The REST API's description.
use vstd::prelude::*;

verus! {

/// The OpenAPI description of the REST API; the HTTP layer derives the
/// document itself.
pub struct ApiDoc;

} // verus!
