//! Declaration of fontdue's parsed-font type, so that it can stand in a
//! field of the library's own font type. The value is opaque to the
//! verifier; everything the library relies on about it is stated by the
//! trusted wrappers in [`crate::font`].

use vstd::prelude::*;

verus! {

/// fontdue's parsed font, opaque to the verifier.
#[verifier::external_type_specification]
#[verifier::external_body]
pub struct ExFontdueFont(fontdue::Font);

} // verus!
