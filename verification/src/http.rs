//! HTTP, as far as the bot looks at it: whether an answer reports success.

use vstd::prelude::*;

verus! {

/// Whether an HTTP status reports success.
pub open spec fn is_success(status: u16) -> bool {
    200 <= status < 300
}

/// Whether an HTTP status reports success.
pub fn succeeded(status: u16) -> (r: bool)
    ensures
        r == is_success(status),
{
    200 <= status && status < 300
}

/// Success is a status from 200 to 299.
pub proof fn law_success_is_two_hundred_and_up(status: u16)
    ensures
        is_success(status) <==> status / 100 == 2,
{
}

} // verus!
