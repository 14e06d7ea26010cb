//! A transform-tree library: named spatial reference frames connected by
//! rigid-body transforms, kept acyclic, with path queries that compose the
//! transforms along the unique connecting path, and a persistence codec.

pub mod codec;
pub mod error;
pub mod graph;
pub mod parse;
pub mod se3;

pub use graph::TfGraph;
pub use parse::parse_csv;

use vstd::prelude::*;

verus! {

/// Whether two byte strings hold the same bytes.
pub fn bytes_eq(a: &[u8], b: &[u8]) -> (r: bool)
    ensures
        r == (a@ == b@),
{
    if a.len() != b.len() {
        proof {
            assert(a@.len() != b@.len());
        }
        return false;
    }
    let mut i: usize = 0;
    while i < a.len()
        invariant
            i <= a@.len(),
            a@.len() == b@.len(),
            forall|j: int| 0 <= j < i ==> a@[j] == b@[j],
        decreases a@.len() - i,
    {
        if a[i] != b[i] {
            return false;
        }
        i = i + 1;
    }
    proof {
        assert(a@ =~= b@);
    }
    true
}

} // verus!
