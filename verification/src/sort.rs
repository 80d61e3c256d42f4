//! The shared rank-and-sort routine: sorting (count, tag) pairs so that both
//! the completion index and the chain model order candidates the same way.

use vstd::prelude::*;

verus! {

/// Lexicographic order on (count, tag) pairs.
pub open spec fn pair_le(a: (u64, u64), b: (u64, u64)) -> bool {
    a.0 < b.0 || (a.0 == b.0 && a.1 <= b.1)
}

/// A sequence of pairs in ascending lexicographic order.
pub open spec fn pairs_sorted(s: Seq<(u64, u64)>) -> bool {
    forall|i: int, j: int| 0 <= i < j < s.len() ==> pair_le(s[i], s[j])
}

fn pair_le_exec(a: (u64, u64), b: (u64, u64)) -> (r: bool)
    ensures
        r == pair_le(a, b),
{
    a.0 < b.0 || (a.0 == b.0 && a.1 <= b.1)
}

/// Sorts (count, tag) pairs ascending, count first, tag second.
pub fn sort_pairs(v: &Vec<(u64, u64)>) -> (r: Vec<(u64, u64)>)
    ensures
        r@.to_multiset() == v@.to_multiset(),
        pairs_sorted(r@),
        r@.len() == v@.len(),
{
    let mut r: Vec<(u64, u64)> = Vec::new();
    let mut i: usize = 0;
    proof {
        broadcast use vstd::seq_lib::group_to_multiset_ensures;
    }
    while i < v.len()
        invariant
            i <= v@.len(),
            r@.len() == i,
            r@.to_multiset() == v@.take(i as int).to_multiset(),
            pairs_sorted(r@),
        decreases v@.len() - i,
    {
        let x = v[i];
        let mut p: usize = 0;
        while p < r.len() && pair_le_exec(r[p], x)
            invariant
                p <= r@.len(),
                forall|q: int| 0 <= q < p ==> pair_le(r@[q], x),
            decreases r@.len() - p,
        {
            p += 1;
        }
        proof {
            broadcast use vstd::seq_lib::group_to_multiset_ensures;
            assert(v@.take(i + 1) =~= v@.take(i as int).push(v@[i as int]));
            let s = r@.insert(p as int, x);
            r@.insert_ensures(p as int, x);
            assert forall|a: int, b: int| 0 <= a < b < s.len() implies pair_le(s[a], s[b]) by {
                if b < p {
                    assert(s[a] == r@[a] && s[b] == r@[b]);
                } else if b == p {
                    assert(s[a] == r@[a] && s[b] == x);
                } else {
                    assert(s[b] == r@[b - 1]) by {
                        assert(r@.insert(p as int, x)[(b - 1) + 1] == r@[b - 1]);
                    }
                    assert(p < r@.len());
                    if a < p {
                        assert(s[a] == r@[a]);
                        assert(pair_le(r@[a], r@[b - 1]));
                    } else if a == p {
                        assert(s[a] == x);
                        assert(!pair_le(r@[p as int], x));
                        assert(pair_le(x, r@[p as int]));
                        if b - 1 > p {
                            assert(pair_le(r@[p as int], r@[b - 1]));
                        }
                    } else {
                        assert(s[a] == r@[a - 1]) by {
                            assert(r@.insert(p as int, x)[(a - 1) + 1] == r@[a - 1]);
                        }
                        assert(pair_le(r@[a - 1], r@[b - 1]));
                    }
                }
            }
        }
        r.insert(p, x);
        i += 1;
    }
    proof {
        assert(v@.take(v@.len() as int) =~= v@);
    }
    r
}


/// Filtering a concatenation filters each part.
pub proof fn lemma_filter_append<A>(a: Seq<A>, b: Seq<A>, pred: spec_fn(A) -> bool)
    ensures
        (a + b).filter(pred) == a.filter(pred) + b.filter(pred),
    decreases b.len(),
{
    reveal(Seq::filter);
    if b.len() == 0 {
        assert(a + b =~= a);
        assert(a.filter(pred) + b.filter(pred) =~= a.filter(pred));
    } else {
        let bd = b.drop_last();
        lemma_filter_append(a, bd, pred);
        assert((a + b).drop_last() =~= a + bd);
        assert((a + b).last() == b.last());
        if pred(b.last()) {
            assert((a + b).filter(pred) == (a + bd).filter(pred).push(b.last()));
            assert(a.filter(pred) + b.filter(pred)
                =~= (a.filter(pred) + bd.filter(pred)).push(b.last()));
        } else {
            assert((a + b).filter(pred) == (a + bd).filter(pred));
            assert(a.filter(pred) + b.filter(pred) =~= a.filter(pred) + bd.filter(pred));
        }
    }
}

} // verus!
