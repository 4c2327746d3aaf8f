//! Configuration values that may be missing.

use vstd::prelude::*;

verus! {

/// What a lookup of a configuration key amounts to: the value where there is
/// one, nothing where the key is not set, and the failure itself where the
/// lookup failed for another reason. `not_found` says whether the failure
/// was that the key is not set.
pub fn optional_value<E>(found: Result<String, E>, not_found: bool) -> (r: Result<
    Option<String>,
    E,
>)
    ensures
        r == match found {
            Ok(value) => Ok::<Option<String>, E>(Some(value)),
            Err(e) => if not_found {
                Ok::<Option<String>, E>(None)
            } else {
                Err::<Option<String>, E>(e)
            },
        },
{
    match found {
        Ok(value) => Ok(Some(value)),
        Err(e) => {
            if not_found {
                Ok(None)
            } else {
                Err(e)
            }
        },
    }
}

} // verus!
