//! Third-party license records, as the about screen shows them.

use vstd::prelude::*;

verus! {

/// One third-party component and the license it is distributed under.
pub struct License {
    pub component: String,
    pub origin: String,
    pub license: String,
    pub copyright: String,
}

impl License {
    /// Bundles the four fields of a record.
    pub fn new(component: String, origin: String, license: String, copyright: String) -> (r:
        License)
        ensures
            r.component@ == component@,
            r.origin@ == origin@,
            r.license@ == license@,
            r.copyright@ == copyright@,
    {
        License { component, origin, license, copyright }
    }
}

} // verus!
