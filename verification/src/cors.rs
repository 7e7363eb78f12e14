//! The cross-origin headers every response carries.
use vstd::prelude::*;

verus! {

/// The response hook that opens the service to browsers on other origins.
pub struct CORS;

impl CORS {
    /// The hook's description.
    pub fn info_name(&self) -> (r: &'static str)
        ensures
            r@ == "Add CORS headers to responses"@,
    {
        "Add CORS headers to responses"
    }

    /// The headers set on every response, as (name, value) pairs, in the
    /// order they are set: any origin, the methods POST, GET, PATCH and
    /// OPTIONS, any header, and credentials allowed.
    pub fn response_headers(&self) -> (r: Vec<(&'static str, &'static str)>)
        ensures
            r@.len() == 4,
            r@[0].0@ == "Access-Control-Allow-Origin"@ && r@[0].1@ == "*"@,
            r@[1].0@ == "Access-Control-Allow-Methods"@ && r@[1].1@ == "POST, GET, PATCH, OPTIONS"@,
            r@[2].0@ == "Access-Control-Allow-Headers"@ && r@[2].1@ == "*"@,
            r@[3].0@ == "Access-Control-Allow-Credentials"@ && r@[3].1@ == "true"@,
    {
        let mut headers: Vec<(&'static str, &'static str)> = Vec::new();
        headers.push(("Access-Control-Allow-Origin", "*"));
        headers.push(("Access-Control-Allow-Methods", "POST, GET, PATCH, OPTIONS"));
        headers.push(("Access-Control-Allow-Headers", "*"));
        headers.push(("Access-Control-Allow-Credentials", "true"));
        headers
    }
}

} // verus!
