//! Fuzzy-correction generator: pure synthesis of alternate spellings of a
//! word by single-character deletion, adjacent-pair swap, substitution and
//! insertion, plus the two-edit composition of those operations.

use vstd::prelude::*;
use crate::text::string_of;
use crate::text::chars_of;

verus! {

/// The views of a vector of strings.
pub open spec fn strs(v: Seq<String>) -> Seq<Seq<char>> {
    v.map_values(|s: String| s@)
}

/// The lowercase alphabet used to synthesize substitution and insertion
/// variants.
pub open spec fn alphabet() -> Seq<char> {
    seq!['a', 'b', 'c', 'd', 'e', 'f', 'g', 'h', 'i', 'j', 'k', 'l', 'm',
         'n', 'o', 'p', 'q', 'r', 's', 't', 'u', 'v', 'w', 'x', 'y', 'z']
}

/// The word with the character at `i` removed.
pub open spec fn delete_at(w: Seq<char>, i: int) -> Seq<char> {
    w.subrange(0, i) + w.subrange(i + 1, w.len() as int)
}

/// The word with the adjacent characters at `i` and `i + 1` exchanged.
pub open spec fn swap_at(w: Seq<char>, i: int) -> Seq<char> {
    w.update(i, w[i + 1]).update(i + 1, w[i])
}

/// The word with `c` inserted before position `i`.
pub open spec fn insert_at(w: Seq<char>, i: int, c: char) -> Seq<char> {
    w.subrange(0, i).push(c) + w.subrange(i, w.len() as int)
}

/// All single-deletion variants, in position order.
pub open spec fn deletes_of(w: Seq<char>) -> Seq<Seq<char>> {
    Seq::new(w.len(), |i: int| delete_at(w, i))
}

/// All adjacent-swap variants, in position order.
pub open spec fn swaps_of(w: Seq<char>) -> Seq<Seq<char>> {
    Seq::new((w.len() - 1) as nat, |i: int| swap_at(w, i))
}

/// All substitution variants: position major, alphabet minor.
pub open spec fn replaces_of(w: Seq<char>) -> Seq<Seq<char>> {
    Seq::new(w.len() * 26, |k: int| w.update(k / 26, alphabet()[k % 26]))
}

/// All insertion variants: gap position major, alphabet minor.
pub open spec fn inserts_of(w: Seq<char>) -> Seq<Seq<char>> {
    Seq::new((w.len() + 1) * 26, |k: int| insert_at(w, k / 26, alphabet()[k % 26]))
}

/// Every single-edit variation of the word, in generation order: deletions,
/// swaps, substitutions, insertions.
pub open spec fn tier1_of(w: Seq<char>) -> Seq<Seq<char>> {
    deletes_of(w) + swaps_of(w) + replaces_of(w) + inserts_of(w)
}

/// Every two-edit composition: the single-edit generator applied to each of
/// its own outputs, in order.
pub open spec fn tier2_of(w: Seq<char>) -> Seq<Seq<char>> {
    tier1_of(w).map_values(|v: Seq<char>| tier1_of(v)).flatten()
}

/// A word of length `L` has exactly `L + (L-1) + 26*L + 26*(L+1)` single-edit
/// variations, duplicates included.
pub proof fn lemma_tier1_count(w: Seq<char>)
    requires
        w.len() >= 1,
    ensures
        tier1_of(w).len() == w.len() + (w.len() - 1) + 26 * w.len() + 26 * (w.len() + 1),
{
}

/// Where each generation phase stands inside the single-edit sequence.
pub proof fn lemma_tier1_index(w: Seq<char>, k: int)
    requires
        w.len() >= 1,
        0 <= k < tier1_of(w).len(),
    ensures
        k < w.len() ==> tier1_of(w)[k] == deletes_of(w)[k],
        w.len() <= k < 2 * w.len() - 1 ==> tier1_of(w)[k] == swaps_of(w)[k - w.len()],
        2 * w.len() - 1 <= k < 28 * w.len() - 1
            ==> tier1_of(w)[k] == replaces_of(w)[k - (2 * w.len() - 1)],
        28 * w.len() - 1 <= k ==> tier1_of(w)[k] == inserts_of(w)[k - (28 * w.len() - 1)],
{
}

/// The combined length of a list of sequences.
pub open spec fn seq_total<A>(s: Seq<Seq<A>>) -> nat
    decreases s.len(),
{
    if s.len() == 0 {
        0
    } else {
        s.first().len() + seq_total(s.drop_first())
    }
}

proof fn lemma_flatten_total<A>(s: Seq<Seq<A>>)
    ensures
        s.flatten().len() == seq_total(s),
    decreases s.len(),
{
    if s.len() > 0 {
        lemma_flatten_total(s.drop_first());
    }
}

proof fn lemma_seq_total_add<A>(a: Seq<Seq<A>>, b: Seq<Seq<A>>)
    ensures
        seq_total(a + b) == seq_total(a) + seq_total(b),
    decreases a.len(),
{
    if a.len() == 0 {
        assert(a + b =~= b);
    } else {
        assert((a + b).first() == a.first());
        assert((a + b).drop_first() =~= a.drop_first() + b);
        lemma_seq_total_add(a.drop_first(), b);
    }
}

proof fn lemma_seq_total_constant<A>(s: Seq<Seq<A>>, c: nat)
    requires
        forall|i: int| 0 <= i < s.len() ==> (#[trigger] s[i]).len() == c,
    ensures
        seq_total(s) == s.len() * c,
    decreases s.len(),
{
    if s.len() == 0 {
    } else {
        assert(s.first() == s[0]);
        assert forall|i: int| 0 <= i < s.drop_first().len()
            implies (#[trigger] s.drop_first()[i]).len() == c by {
            assert(s.drop_first()[i] == s[i + 1]);
        }
        lemma_seq_total_constant(s.drop_first(), c);
        assert(seq_total(s) == c + (s.len() - 1) * c);
        assert(c + (s.len() - 1) * c == s.len() * c) by (nonlinear_arith);
    }
}

/// The exact number of two-edit compositions: every single-edit variation,
/// expanded again by the single-edit generator. Deletions are one character
/// shorter than the word, swaps and substitutions keep its length, and
/// insertions are one longer, so the total is a polynomial in the length,
/// not the square of the single-edit count.
pub proof fn lemma_tier2_count(w: Seq<char>)
    requires
        w.len() >= 2,
    ensures
        tier2_of(w).len() == 2916 * w.len() * w.len() + 4050 * w.len() + 2029,
{
    let l = w.len() as int;
    let f = |v: Seq<char>| tier1_of(v);
    let expanded = tier1_of(w).map_values(f);
    lemma_flatten_total(expanded);
    // the four phases of the outer generator, expanded
    let md = deletes_of(w).map_values(f);
    let ms = swaps_of(w).map_values(f);
    let mr = replaces_of(w).map_values(f);
    let mi = inserts_of(w).map_values(f);
    assert(expanded =~= md + (ms + (mr + mi))) by {
        assert forall|k: int| 0 <= k < expanded.len()
            implies expanded[k] == (md + (ms + (mr + mi)))[k] by {
            lemma_tier1_index(w, k);
            if k < w.len() {
                assert(md[k] == f(deletes_of(w)[k]));
            } else if k < 2 * w.len() - 1 {
                assert(ms[k - l] == f(swaps_of(w)[k - l]));
            } else if k < 28 * w.len() - 1 {
                assert(mr[k - (2 * l - 1)] == f(replaces_of(w)[k - (2 * l - 1)]));
            } else {
                assert(mi[k - (28 * l - 1)] == f(inserts_of(w)[k - (28 * l - 1)]));
            }
        }
    }
    lemma_seq_total_add(md, ms + (mr + mi));
    lemma_seq_total_add(ms, mr + mi);
    lemma_seq_total_add(mr, mi);
    // each phase expands words of one fixed length
    assert forall|i: int| 0 <= i < md.len() implies (#[trigger] md[i]).len()
        == (54 * (l - 1) + 25) as nat by {
        assert(md[i] == f(deletes_of(w)[i]));
        assert(deletes_of(w)[i].len() == l - 1);
        lemma_tier1_count(deletes_of(w)[i]);
    }
    lemma_seq_total_constant(md, (54 * (l - 1) + 25) as nat);
    assert forall|i: int| 0 <= i < ms.len() implies (#[trigger] ms[i]).len()
        == (54 * l + 25) as nat by {
        assert(ms[i] == f(swaps_of(w)[i]));
        assert(swaps_of(w)[i].len() == l);
        lemma_tier1_count(swaps_of(w)[i]);
    }
    lemma_seq_total_constant(ms, (54 * l + 25) as nat);
    assert forall|i: int| 0 <= i < mr.len() implies (#[trigger] mr[i]).len()
        == (54 * l + 25) as nat by {
        assert(mr[i] == f(replaces_of(w)[i]));
        assert(replaces_of(w)[i].len() == l);
        lemma_tier1_count(replaces_of(w)[i]);
    }
    lemma_seq_total_constant(mr, (54 * l + 25) as nat);
    assert forall|i: int| 0 <= i < mi.len() implies (#[trigger] mi[i]).len()
        == (54 * (l + 1) + 25) as nat by {
        assert(mi[i] == f(inserts_of(w)[i]));
        assert(inserts_of(w)[i].len() == l + 1);
        lemma_tier1_count(inserts_of(w)[i]);
    }
    lemma_seq_total_constant(mi, (54 * (l + 1) + 25) as nat);
    assert(l * (54 * (l - 1) + 25) + (l - 1) * (54 * l + 25) + (26 * l) * (54 * l + 25) + (26 * (l
        + 1)) * (54 * (l + 1) + 25) == 2916 * l * l + 4050 * l + 2029) by (nonlinear_arith);
}

/// Every single-edit variation differs in length from the word by at most
/// one character.
pub proof fn lemma_tier1_elem_len(w: Seq<char>, k: int)
    requires
        w.len() >= 1,
        0 <= k < tier1_of(w).len(),
    ensures
        w.len() - 1 <= tier1_of(w)[k].len() <= w.len() + 1,
{
    lemma_tier1_index(w, k);
}

/// The characters of a word, as a vector.
pub fn char_vec(string: &str) -> (r: Vec<char>)
    ensures
        r@ == string@,
{
    chars_of(string)
}

/// Appending a string appends its view.
pub proof fn lemma_strs_push(v: Seq<String>, s: String)
    ensures
        strs(v.push(s)) == strs(v).push(s@),
{
    assert forall|k: int| 0 <= k < v.len() + 1 implies strs(v.push(s))[k] == strs(v).push(s@)[k] by {
        if k < v.len() {
            assert(strs(v.push(s))[k] == v.push(s)[k]@);
            assert(strs(v)[k] == v[k]@);
        }
    }
    assert(strs(v.push(s)) =~= strs(v).push(s@));
}

proof fn lemma_push_keeps(prev: Seq<String>, x: String, model: Seq<Seq<char>>)
    requires
        forall|k: int| 0 <= k < prev.len() ==> prev[k]@ == model[k],
        prev.len() < model.len(),
        x@ == model[prev.len() as int],
    ensures
        forall|k: int| 0 <= k < prev.len() + 1 ==> prev.push(x)[k]@ == model[k],
{
}

/// Every single-edit variation of the word, in generation order.
pub fn tier1_variations(word: &[char]) -> (r: Vec<String>)
    requires
        1 <= word@.len() < usize::MAX,
    ensures
        strs(r@) == tier1_of(word@),
{
    let ghost w = word@;
    let ghost model = tier1_of(w);
    let mut out: Vec<String> = Vec::new();

    // variations that have one of the chars deleted
    let mut i: usize = 0;
    while i < word.len()
        invariant
            word@ == w,
            w.len() >= 1,
            model == tier1_of(w),
            i <= w.len(),
            out@.len() == i,
            forall|k: int| 0 <= k < out@.len() ==> out@[k]@ == model[k],
        decreases w.len() - i,
    {
        let mut buf: Vec<char> = Vec::new();
        let mut j: usize = 0;
        while j < word.len()
            invariant
                word@ == w,
                i < w.len(),
                j <= w.len(),
                j <= i ==> buf@ == w.take(j as int),
                j > i ==> buf@ == w.take(i as int) + w.subrange(i + 1, j as int),
            decreases w.len() - j,
        {
            if j != i {
                buf.push(word[j]);
            }
            proof {
                if j < i {
                    assert(w.take(j + 1) =~= w.take(j as int).push(w[j as int]));
                } else if j == i {
                    assert(w.take(i as int) + w.subrange(i + 1, i + 1) =~= w.take(i as int));
                } else {
                    assert(w.take(i as int) + w.subrange(i + 1, j + 1)
                        =~= (w.take(i as int) + w.subrange(i + 1, j as int)).push(w[j as int]));
                }
            }
            j += 1;
        }
        assert(buf@ =~= delete_at(w, i as int));
        let s = string_of(buf.as_slice());
        proof {
            lemma_tier1_index(w, i as int);
            lemma_push_keeps(out@, s, model);
        }
        out.push(s);
        i += 1;
    }

    // variations that have two neighbouring chars swapped
    let mut i: usize = 0;
    while i < word.len() - 1
        invariant
            word@ == w,
            w.len() >= 1,
            model == tier1_of(w),
            i <= w.len() - 1,
            out@.len() == w.len() + i,
            forall|k: int| 0 <= k < out@.len() ==> out@[k]@ == model[k],
        decreases w.len() - 1 - i,
    {
        let mut buf: Vec<char> = Vec::new();
        let mut j: usize = 0;
        while j < word.len()
            invariant
                word@ == w,
                i + 1 < w.len(),
                j <= w.len(),
                buf@ == swap_at(w, i as int).take(j as int),
            decreases w.len() - j,
        {
            if j == i {
                buf.push(word[i + 1]);
            } else if j == i + 1 {
                buf.push(word[i]);
            } else {
                buf.push(word[j]);
            }
            proof {
                let s = swap_at(w, i as int);
                assert(s.take(j + 1) =~= s.take(j as int).push(s[j as int]));
            }
            j += 1;
        }
        assert(buf@ =~= swap_at(w, i as int));
        let s = string_of(buf.as_slice());
        proof {
            lemma_tier1_index(w, out@.len() as int);
            lemma_push_keeps(out@, s, model);
        }
        out.push(s);
        i += 1;
    }

    // variations that have one char replaced by each letter
    let letters = alphabet_chars();
    let mut i: usize = 0;
    while i < word.len()
        invariant
            word@ == w,
            w.len() >= 1,
            model == tier1_of(w),
            letters@ == alphabet(),
            i <= w.len(),
            out@.len() == 2 * w.len() - 1 + 26 * i,
            forall|k: int| 0 <= k < out@.len() ==> out@[k]@ == model[k],
        decreases w.len() - i,
    {
        let mut j: usize = 0;
        while j < 26
            invariant
                word@ == w,
                w.len() >= 1,
                model == tier1_of(w),
                letters@ == alphabet(),
                i < w.len(),
                j <= 26,
                out@.len() == 2 * w.len() - 1 + 26 * i + j,
                forall|k: int| 0 <= k < out@.len() ==> out@[k]@ == model[k],
            decreases 26 - j,
        {
            let mut buf: Vec<char> = Vec::new();
            let mut p: usize = 0;
            while p < word.len()
                invariant
                    word@ == w,
                    i < w.len(),
                    j < 26,
                    letters@ == alphabet(),
                    p <= w.len(),
                    buf@ == w.update(i as int, alphabet()[j as int]).take(p as int),
                decreases w.len() - p,
            {
                if p == i {
                    buf.push(letters[j]);
                } else {
                    buf.push(word[p]);
                }
                proof {
                    let s = w.update(i as int, alphabet()[j as int]);
                    assert(s.take(p + 1) =~= s.take(p as int).push(s[p as int]));
                }
                p += 1;
            }
            assert(buf@ =~= w.update(i as int, alphabet()[j as int]));
            let s = string_of(buf.as_slice());
            proof {
                vstd::arithmetic::div_mod::lemma_fundamental_div_mod_converse(
                    26 * i + j, 26, i as int, j as int);
                assert(replaces_of(w)[26 * i + j] == w.update(i as int, alphabet()[j as int]));
                lemma_tier1_index(w, out@.len() as int);
                lemma_push_keeps(out@, s, model);
            }
            out.push(s);
            j += 1;
        }
        i += 1;
    }

    // variations that have an additional char inserted at each gap
    let mut i: usize = 0;
    while i <= word.len()
        invariant
            word@ == w,
            w.len() >= 1,
            w.len() < usize::MAX,
            model == tier1_of(w),
            letters@ == alphabet(),
            i <= w.len() + 1,
            out@.len() == 28 * w.len() - 1 + 26 * i,
            forall|k: int| 0 <= k < out@.len() ==> out@[k]@ == model[k],
        decreases w.len() + 1 - i,
    {
        let mut j: usize = 0;
        while j < 26
            invariant
                word@ == w,
                w.len() >= 1,
                model == tier1_of(w),
                letters@ == alphabet(),
                i <= w.len(),
                j <= 26,
                out@.len() == 28 * w.len() - 1 + 26 * i + j,
                forall|k: int| 0 <= k < out@.len() ==> out@[k]@ == model[k],
            decreases 26 - j,
        {
            let mut buf: Vec<char> = Vec::new();
            let mut p: usize = 0;
            while p < i
                invariant
                    word@ == w,
                    i <= w.len(),
                    p <= i,
                    buf@ == w.take(p as int),
                decreases i - p,
            {
                buf.push(word[p]);
                assert(w.take(p + 1) =~= w.take(p as int).push(w[p as int]));
                p += 1;
            }
            buf.push(letters[j]);
            proof {
                assert(w.take(i as int).push(alphabet()[j as int]) + w.subrange(i as int, i as int)
                    =~= w.take(i as int).push(alphabet()[j as int]));
            }
            let mut p: usize = i;
            while p < word.len()
                invariant
                    word@ == w,
                    i <= p,
                    p <= w.len(),
                    j < 26,
                    letters@ == alphabet(),
                    buf@ == w.take(i as int).push(alphabet()[j as int])
                        + w.subrange(i as int, p as int),
                decreases w.len() - p,
            {
                buf.push(word[p]);
                proof {
                    let head = w.take(i as int).push(alphabet()[j as int]);
                    assert(head + w.subrange(i as int, p + 1)
                        =~= (head + w.subrange(i as int, p as int)).push(w[p as int]));
                }
                p += 1;
            }
            assert(buf@ =~= insert_at(w, i as int, alphabet()[j as int]));
            let s = string_of(buf.as_slice());
            proof {
                vstd::arithmetic::div_mod::lemma_fundamental_div_mod_converse(
                    26 * i + j, 26, i as int, j as int);
                assert(inserts_of(w)[26 * i + j] == insert_at(w, i as int, alphabet()[j as int]));
                lemma_tier1_index(w, out@.len() as int);
                lemma_push_keeps(out@, s, model);
            }
            out.push(s);
            j += 1;
        }
        i += 1;
    }

    proof {
        assert(strs(out@) =~= tier1_of(w));
    }
    out
}

/// Every two-edit composition of the word, in generation order: the
/// single-edit generator applied to each of its own outputs in turn.
pub fn tier2_only_variations(string: &[char]) -> (r: Vec<String>)
    requires
        2 <= string@.len() < usize::MAX - 1,
    ensures
        strs(r@) == tier2_of(string@),
{
    let ghost w = string@;
    let ghost expanded = tier1_of(w).map_values(|v: Seq<char>| tier1_of(v));
    let base = tier1_variations(string);
    let mut out: Vec<String> = Vec::new();
    let mut i: usize = 0;
    while i < base.len()
        invariant
            w.len() >= 2,
            expanded == tier1_of(w).map_values(|v: Seq<char>| tier1_of(v)),
            strs(base@) == tier1_of(w),
            i <= base@.len(),
            strs(out@) == expanded.take(i as int).flatten(),
        decreases base@.len() - i,
    {
        let cs = char_vec(base[i].as_str());
        proof {
            assert(cs@ == strs(base@)[i as int]);
            lemma_tier1_elem_len(w, i as int);
            assert(1 <= cs@.len() < usize::MAX);
        }
        let vars = tier1_variations(cs.as_slice());
        let mut j: usize = 0;
        while j < vars.len()
            invariant
                strs(vars@) == tier1_of(cs@),
                j <= vars@.len(),
                strs(out@) == expanded.take(i as int).flatten() + tier1_of(cs@).take(j as int),
            decreases vars@.len() - j,
        {
            let s = vars[j].clone();
            proof {
                assert(strs(vars@)[j as int] == vars@[j as int]@);
                assert(s@ == tier1_of(cs@)[j as int]);
                lemma_strs_push(out@, s);
                assert(tier1_of(cs@).take(j + 1)
                    =~= tier1_of(cs@).take(j as int).push(tier1_of(cs@)[j as int]));
                assert(strs(out@.push(s))
                    =~= (expanded.take(i as int).flatten() + tier1_of(cs@).take(j + 1)));
            }
            out.push(s);
            j += 1;
        }
        proof {
            broadcast use vstd::prelude::Seq::lemma_flatten_push;
            assert(tier1_of(cs@).take(tier1_of(cs@).len() as int) =~= tier1_of(cs@));
            assert(expanded.take(i + 1) =~= expanded.take(i as int).push(expanded[i as int]));
            assert(expanded[i as int] == tier1_of(cs@));
            assert(expanded.take(i as int).push(tier1_of(cs@)).flatten()
                == expanded.take(i as int).flatten() + tier1_of(cs@));
        }
        i += 1;
    }
    proof {
        assert(expanded.take(expanded.len() as int) =~= expanded);
    }
    out
}

/// The lowercase alphabet as a vector of characters.
fn alphabet_chars() -> (r: Vec<char>)
    ensures
        r@ == alphabet(),
{
    let r = vec!['a', 'b', 'c', 'd', 'e', 'f', 'g', 'h', 'i', 'j', 'k', 'l', 'm',
                 'n', 'o', 'p', 'q', 'r', 's', 't', 'u', 'v', 'w', 'x', 'y', 'z'];
    assert(r@ =~= alphabet());
    r
}

} // verus!
