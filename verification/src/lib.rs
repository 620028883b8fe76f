//! Handling of OS distribution build variants.
//!
//! The core of the crate is [`yai`], a verified line-oriented parser for
//! the restricted `NAME=value` dialect used by `/etc/os-release`-style
//! files.  [`data`] holds the catalog of supported build variants, and
//! [`mapping`] the key/value mapping that a successful parse produces.

use vstd::prelude::*;

pub mod data;
pub mod mapping;
pub mod yai;

verus! {

use vstd::string::StrSliceExecFns;

/// An error raised by the variant-handling routines.
#[derive(Debug, Clone, PartialEq, Eq)]
pub enum VariantError {
    /// An unknown build variant name was supplied.
    BadVariant(String),
}

/// Compare two string slices character by character.
pub fn str_eq(a: &str, b: &str) -> (r: bool)
    ensures
        r == (a@ == b@),
{
    let na = a.unicode_len();
    let nb = b.unicode_len();
    if na != nb {
        return false;
    }
    let mut i: usize = 0;
    while i < na
        invariant
            0 <= i <= na,
            na == a@.len(),
            na == b@.len(),
            forall|j: int| 0 <= j < i ==> a@[j] == b@[j],
        decreases na - i,
    {
        if a.get_char(i) != b.get_char(i) {
            return false;
        }
        i += 1;
    }
    proof {
        assert(a@ =~= b@);
    }
    true
}

} // verus!
