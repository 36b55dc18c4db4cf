//! API credentials for the remote messaging service.
//!
//! Loading them from disk or from interactive input, and saving them,
//! is I/O and lives with the caller; the library holds the validated
//! pair and hands its parts out.

use vstd::prelude::*;
use vstd::string::*;

verus! {

/// An API identifier and the hash that authenticates it.
pub struct ApiCredentials {
    api_id: i32,
    api_hash: String,
}

impl ApiCredentials {
    /// The held identifier.
    pub closed spec fn spec_api_id(&self) -> i32 {
        self.api_id
    }

    /// The held hash.
    pub closed spec fn spec_api_hash(&self) -> Seq<char> {
        self.api_hash@
    }

    pub fn new(api_id: i32, api_hash: String) -> (r: Self)
        ensures
            r.spec_api_id() == api_id,
            r.spec_api_hash() == api_hash@,
    {
        ApiCredentials { api_id, api_hash }
    }

    pub fn api_id(&self) -> (r: i32)
        ensures
            r == self.spec_api_id(),
    {
        self.api_id
    }

    pub fn api_hash(&self) -> (r: &str)
        ensures
            r@ == self.spec_api_hash(),
    {
        self.api_hash.as_str()
    }
}

} // verus!
