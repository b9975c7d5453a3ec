//! The rule for HTTP answers: a body is taken only from a 2xx status.

use vstd::prelude::*;
use crate::error::Error;

verus! {

/// Whether an HTTP status is a success (2xx).
pub open spec fn is_success(status: u16) -> bool {
    200 <= status && status <= 299
}

/// Accepts an answer with a 2xx status; any other status is
/// `Error::BadStatus` for `url`.
pub fn check_status(url: &str, status: u16) -> (r: Result<(), Error>)
    ensures
        is_success(status) <==> r is Ok,
        r matches Err(e) ==> (e matches Error::BadStatus { url: u, status: s } && u@ == url@ && s
            == status),
{
    if 200 <= status && status <= 299 {
        Ok(())
    } else {
        Err(Error::BadStatus { url: url.to_owned(), status })
    }
}

} // verus!
