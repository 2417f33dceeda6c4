//! Addresses of remote assets, relative to a base location.

use vstd::prelude::*;

verus! {

/// Resolves asset paths against a base address.
pub struct Fetcher<'a> {
    href: &'a str,
}

impl<'a> Fetcher<'a> {
    /// The base address, as characters.
    pub closed spec fn spec_href(&self) -> Seq<char> {
        self.href@
    }

    pub fn new(href: &'a str) -> (r: Self)
        ensures
            r.spec_href() == href@,
    {
        Self { href }
    }

    /// The address of `resource_path` under the base: the base, a `/`, then the path.
    pub fn resource_url(&self, resource_path: &str) -> (r: String)
        ensures
            r@ == self.spec_href() + seq!['/'] + resource_path@,
    {
        let url = self.href.to_owned();
        let url = url.concat("/");
        proof {
            reveal_strlit("/");
        }
        url.concat(resource_path)
    }
}

} // verus!
