//! The names of refs.

use crate::error::{RefStoreError, RefStoreErrorView};
use crate::text::{chars_of, contains_text, occurs};
use vstd::prelude::*;

verus! {

/// A character that no ref name holds.
pub open spec fn forbidden_in_ref(c: char) -> bool {
    c == ' ' || c == '\0' || c == '~' || c == '^' || c == ':' || c == '?' || c == '[' || c == '*'
}

/// Why `name` is not the name of a ref.
pub open spec fn ref_name_error(name: Seq<char>) -> Option<Seq<char>> {
    if name.len() == 0 {
        Some("ref name cannot be empty"@)
    } else if occurs(name, ".."@) {
        Some("ref name cannot contain '..'"@)
    } else if name.first() == '/' || name.last() == '/' {
        Some("ref name cannot start or end with '/'"@)
    } else if exists|i: int| 0 <= i < name.len() && forbidden_in_ref(#[trigger] name[i]) {
        Some("ref name contains invalid characters"@)
    } else {
        None
    }
}

/// Checks the name of a ref: it is not empty, does not contain `..`, does not
/// start or end with `/`, and holds none of the characters that are forbidden.
pub fn validate_ref_name(ref_name: &str) -> (result: Result<(), RefStoreError>)
    ensures
        match result {
            Ok(()) => ref_name_error(ref_name@) is None,
            Err(e) => ref_name_error(ref_name@) is Some && e@ == RefStoreErrorView::InvalidName(
                ref_name_error(ref_name@)->0,
            ),
        },
{
    if ref_name.is_empty() {
        return Err(RefStoreError::InvalidName("ref name cannot be empty".to_owned()));
    }
    if contains_text(ref_name, "..") {
        return Err(RefStoreError::InvalidName("ref name cannot contain '..'".to_owned()));
    }
    let chars = chars_of(ref_name);
    if chars[0] == '/' || chars[chars.len() - 1] == '/' {
        return Err(RefStoreError::InvalidName("ref name cannot start or end with '/'".to_owned()));
    }
    let mut i: usize = 0;
    while i < chars.len()
        invariant
            chars@ == ref_name@,
            ref_name@.len() > 0,
            !occurs(ref_name@, ".."@),
            ref_name@.first() != '/',
            ref_name@.last() != '/',
            i <= chars@.len(),
            forall|j: int| 0 <= j < i ==> !forbidden_in_ref(#[trigger] ref_name@[j]),
        decreases chars.len() - i,
    {
        let c = chars[i];
        if c == ' ' || c == '\0' || c == '~' || c == '^' || c == ':' || c == '?' || c == '[' || c
            == '*' {
            assert(forbidden_in_ref(ref_name@[i as int]));
            return Err(
                RefStoreError::InvalidName("ref name contains invalid characters".to_owned()),
            );
        }
        i = i + 1;
    }
    Ok(())
}

} // verus!
