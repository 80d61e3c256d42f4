//! Edit distance between words, used to tolerate a partially mistyped
//! trailing word when filtering context predictions.

use vstd::prelude::*;

verus! {

/// Levenshtein edit distance: the least number of single-character
/// insertions, deletions and substitutions turning `a` into `b`.
pub open spec fn lev(a: Seq<char>, b: Seq<char>) -> nat
    decreases a.len(), b.len(),
{
    if a.len() == 0 {
        b.len()
    } else if b.len() == 0 {
        a.len()
    } else {
        let sub: nat = lev(a.drop_last(), b.drop_last())
            + if a.last() == b.last() { 0nat } else { 1nat };
        let del: nat = lev(a.drop_last(), b) + 1;
        let ins: nat = lev(a, b.drop_last()) + 1;
        if sub <= del && sub <= ins {
            sub
        } else if del <= ins {
            del
        } else {
            ins
        }
    }
}

/// Relies on levenshtein::levenshtein: the Levenshtein distance over the two
/// strings' characters.
#[verifier::external_body]
pub fn levenshtein_distance(a: &str, b: &str) -> (r: usize)
    ensures
        r == lev(a@, b@),
{
    levenshtein::levenshtein(a, b)
}

} // verus!
