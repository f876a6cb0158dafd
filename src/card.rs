use vstd::prelude::*;

verus! {

/// A playing card, identified by its rank alone.
#[derive(Clone, Copy, Debug, PartialEq, Eq, Structural)]
pub struct Card(pub usize);

/// Every card of `s` has the same rank as every other one.
pub open spec fn all_same_rank(s: Seq<Card>) -> bool {
    forall|i: int, j: int| 0 <= i < s.len() && 0 <= j < s.len() ==> s[i] == s[j]
}

/// Every card of `s` has the rank `r`.
pub open spec fn all_of_rank(s: Seq<Card>, r: usize) -> bool {
    forall|i: int| 0 <= i < s.len() ==> s[i].0 == r
}

} // verus!
