//! The static asset resolver: a pure lookup against an immutable,
//! build-time-populated table.
//!
//! Resolution is a function of the request path and the table alone —
//! repeated calls return identical bytes and content type — and a miss
//! falls through to page matching rather than terminating the request.

use vstd::prelude::*;

use crate::http::str_eq;

verus! {

/// One immutable asset: its exact request path, declared content type, and
/// payload.
pub struct Asset {
    pub path: String,
    pub content_type: String,
    pub body: String,
}

/// The asset table, populated once at build time and never mutated.
pub struct AssetTable {
    pub entries: Vec<Asset>,
}

impl AssetTable {
    /// No two entries share a path, and no asset is empty.
    pub open spec fn wf(self) -> bool {
        &&& forall|i: int, j: int|
            0 <= i < j < self.entries.len() ==> (#[trigger] self.entries@[i]).path@ != (
            #[trigger] self.entries@[j]).path@
        &&& forall|i: int|
            0 <= i < self.entries.len() ==> (#[trigger] self.entries@[i]).body@.len() >= 1
    }

    /// Does the table hold an asset under this exact path?
    pub open spec fn spec_contains(self, path: Seq<char>) -> bool {
        exists|i: int| 0 <= i < self.entries.len() && (#[trigger] self.entries@[i]).path@ == path
    }

    /// The asset registered under a path (unique when the table is well
    /// formed).
    pub open spec fn spec_get(self, path: Seq<char>) -> Asset {
        self.entries@[choose|i: int|
            0 <= i < self.entries.len() && (#[trigger] self.entries@[i]).path@ == path]
    }

    /// Resolve a request path to its asset.  The result is a pure function
    /// of the path and the table: it is the unique entry under the path, or
    /// `None` exactly when no entry carries it.
    pub fn resolve<'a>(&'a self, path: &str) -> (r: Option<&'a Asset>)
        requires
            self.wf(),
        ensures
            match r {
                Some(a) => self.spec_contains(path@) && *a == self.spec_get(path@),
                None => !self.spec_contains(path@),
            },
    {
        let mut i: usize = 0;
        while i < self.entries.len()
            invariant
                0 <= i <= self.entries.len(),
                self.wf(),
                forall|p: int| 0 <= p < i ==> (#[trigger] self.entries@[p]).path@ != path@,
            decreases self.entries.len() - i,
        {
            if str_eq(self.entries[i].path.as_str(), path) {
                let a = &self.entries[i];
                proof {
                    let w = choose|p: int|
                        0 <= p < self.entries.len() && (#[trigger] self.entries@[p]).path@
                            == path@;
                    if w != i as int {
                        assert(self.entries@[w].path@ == self.entries@[i as int].path@);
                    }
                }
                return Some(a);
            }
            i = i + 1;
        }
        None
    }
}

} // verus!
