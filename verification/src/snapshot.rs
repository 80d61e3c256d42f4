//! Persistence snapshots: the plain data written to the on-disk cache, and
//! the length-prefixed binary codec for it. A snapshot is flattened to a
//! stream of integer tokens — counts, word lengths, character codes and
//! identifiers — and the stream is laid out as little-endian bytes. Decoding
//! inverts encoding exactly; bytes that hold no snapshot decode to nothing
//! and leave the caller to rebuild.

use vstd::prelude::*;
use vstd::bytes::spec_u64_to_le_bytes;
use vstd::bytes::spec_u64_from_le_bytes;
use vstd::bytes::lemma_auto_spec_u64_to_from_le_bytes;
use crate::correction::strs;
use crate::text::string_of;

verus! {

/// The completion index content: each stored word with its count.
pub struct CompletionSnapshot {
    pub entries: Vec<(String, u64)>,
}

/// The chain model content: ranked starters, the interner table in
/// identifier order, both condensed chains, and the suppressed words.
pub struct PredictorSnapshot {
    pub starters: Vec<String>,
    pub table: Vec<String>,
    pub chains1: Vec<(u64, Vec<u64>)>,
    pub chains2: Vec<(u64, Vec<u64>)>,
    pub top_words: Vec<u64>,
}

// ---------------------------------------------------------------- tokens

/// A character as a token: its scalar value.
pub open spec fn code_of(c: char) -> u64 {
    (c as u32) as u64
}

/// A word as tokens: its length, then its character codes.
pub open spec fn str_tokens(w: Seq<char>) -> Seq<u64> {
    seq![w.len() as u64] + w.map_values(|c: char| code_of(c))
}

/// A word list as tokens: its length, then each word.
pub open spec fn strs_tokens(v: Seq<Seq<char>>) -> Seq<u64>
    decreases v.len(),
{
    if v.len() == 0 {
        Seq::empty()
    } else {
        str_tokens(v[0]) + strs_tokens(v.drop_first())
    }
}

/// A word list as tokens, length-prefixed.
pub open spec fn strs_vec_tokens(v: Seq<Seq<char>>) -> Seq<u64> {
    seq![v.len() as u64] + strs_tokens(v)
}

/// An identifier list as tokens, length-prefixed.
pub open spec fn ids_tokens(v: Seq<u64>) -> Seq<u64> {
    seq![v.len() as u64] + v
}

/// Chain entries as tokens: each key, then its ranked successors.
pub open spec fn chain_tokens(v: Seq<(u64, Seq<u64>)>) -> Seq<u64>
    decreases v.len(),
{
    if v.len() == 0 {
        Seq::empty()
    } else {
        seq![v[0].0] + ids_tokens(v[0].1) + chain_tokens(v.drop_first())
    }
}

/// A chain as tokens, length-prefixed.
pub open spec fn chain_vec_tokens(v: Seq<(u64, Seq<u64>)>) -> Seq<u64> {
    seq![v.len() as u64] + chain_tokens(v)
}

/// Completion entries as tokens: each word, then its count.
pub open spec fn counts_tokens(v: Seq<(Seq<char>, u64)>) -> Seq<u64>
    decreases v.len(),
{
    if v.len() == 0 {
        Seq::empty()
    } else {
        str_tokens(v[0].0) + seq![v[0].1] + counts_tokens(v.drop_first())
    }
}

/// The views of chain entries.
pub open spec fn chain_views(v: Seq<(u64, Vec<u64>)>) -> Seq<(u64, Seq<u64>)> {
    v.map_values(|p: (u64, Vec<u64>)| (p.0, p.1@))
}

/// The views of completion entries.
pub open spec fn count_views(v: Seq<(String, u64)>) -> Seq<(Seq<char>, u64)> {
    v.map_values(|p: (String, u64)| (p.0@, p.1))
}

/// The token stream of a whole completion snapshot.
pub open spec fn completion_tokens(entries: Seq<(Seq<char>, u64)>) -> Seq<u64> {
    seq![entries.len() as u64] + counts_tokens(entries)
}

/// The token stream of a whole predictor snapshot.
pub open spec fn predictor_tokens(
    starters: Seq<Seq<char>>,
    table: Seq<Seq<char>>,
    chains1: Seq<(u64, Seq<u64>)>,
    chains2: Seq<(u64, Seq<u64>)>,
    top_words: Seq<u64>,
) -> Seq<u64> {
    strs_vec_tokens(starters) + strs_vec_tokens(table) + chain_vec_tokens(chains1)
        + chain_vec_tokens(chains2) + ids_tokens(top_words)
}

// ----------------------------------------------------------------- bytes

/// Tokens laid out as little-endian bytes, eight per token.
pub open spec fn bytes_of(v: Seq<u64>) -> Seq<u8>
    decreases v.len(),
{
    if v.len() == 0 {
        Seq::empty()
    } else {
        spec_u64_to_le_bytes(v[0]) + bytes_of(v.drop_first())
    }
}

proof fn lemma_bytes_of_push(v: Seq<u64>, x: u64)
    ensures
        bytes_of(v.push(x)) == bytes_of(v) + spec_u64_to_le_bytes(x),
    decreases v.len(),
{
    lemma_auto_spec_u64_to_from_le_bytes();
    if v.len() == 0 {
        assert(v.push(x)[0] == x);
        assert(v.push(x).drop_first() =~= Seq::<u64>::empty());
        assert(bytes_of(Seq::<u64>::empty()) == Seq::<u8>::empty());
        assert(v =~= Seq::<u64>::empty());
        assert(bytes_of(v.push(x)) =~= bytes_of(v) + spec_u64_to_le_bytes(x));
    } else {
        assert(v.push(x)[0] == v[0]);
        assert(v.push(x).drop_first() =~= v.drop_first().push(x));
        lemma_bytes_of_push(v.drop_first(), x);
        assert(spec_u64_to_le_bytes(v[0]) + (bytes_of(v.drop_first()) + spec_u64_to_le_bytes(x))
            =~= (spec_u64_to_le_bytes(v[0]) + bytes_of(v.drop_first()))
                + spec_u64_to_le_bytes(x));
    }
}

proof fn lemma_bytes_of_len(v: Seq<u64>)
    ensures
        bytes_of(v).len() == 8 * v.len(),
    decreases v.len(),
{
    lemma_auto_spec_u64_to_from_le_bytes();
    if v.len() > 0 {
        lemma_bytes_of_len(v.drop_first());
    }
}

/// Equal byte layouts come from equal token streams.
proof fn lemma_bytes_of_injective(a: Seq<u64>, b: Seq<u64>)
    requires
        bytes_of(a) == bytes_of(b),
    ensures
        a == b,
    decreases a.len(),
{
    lemma_auto_spec_u64_to_from_le_bytes();
    lemma_bytes_of_len(a);
    lemma_bytes_of_len(b);
    if a.len() == 0 {
        assert(a =~= b);
    } else {
        let ha = spec_u64_to_le_bytes(a[0]);
        let hb = spec_u64_to_le_bytes(b[0]);
        assert(bytes_of(a) == ha + bytes_of(a.drop_first()));
        assert(bytes_of(b) == hb + bytes_of(b.drop_first()));
        lemma_bytes_of_len(a.drop_first());
        lemma_bytes_of_len(b.drop_first());
        assert(ha =~= bytes_of(a).subrange(0, 8));
        assert(hb =~= bytes_of(b).subrange(0, 8));
        assert(a[0] == spec_u64_from_le_bytes(ha) && b[0] == spec_u64_from_le_bytes(hb));
        assert(bytes_of(a.drop_first()) =~= bytes_of(a).skip(8));
        assert(bytes_of(b.drop_first()) =~= bytes_of(b).skip(8));
        lemma_bytes_of_injective(a.drop_first(), b.drop_first());
        assert(a[0] == b[0]);
        assert forall|i: int| 0 <= i < a.len() implies a[i] == b[i] by {
            if i > 0 {
                assert(a.drop_first()[i - 1] == b.drop_first()[i - 1]);
                assert(a[i] == a.drop_first()[i - 1]);
                assert(b[i] == b.drop_first()[i - 1]);
            }
        }
        assert(a =~= b);
    }
}

/// Lays tokens out as bytes.
fn tokens_to_bytes(v: &Vec<u64>) -> (r: Vec<u8>)
    ensures
        r@ == bytes_of(v@),
{
    let mut r: Vec<u8> = Vec::new();
    let mut i: usize = 0;
    proof {
        assert(bytes_of(v@.take(0)) =~= Seq::<u8>::empty());
    }
    while i < v.len()
        invariant
            i <= v@.len(),
            r@ == bytes_of(v@.take(i as int)),
        decreases v@.len() - i,
    {
        let mut chunk = vstd::bytes::u64_to_le_bytes(v[i]);
        proof {
            assert(v@.take(i + 1) =~= v@.take(i as int).push(v@[i as int]));
            lemma_bytes_of_push(v@.take(i as int), v@[i as int]);
        }
        r.append(&mut chunk);
        i += 1;
    }
    proof {
        assert(v@.take(v@.len() as int) =~= v@);
    }
    r
}

/// Reads bytes back as tokens; fails unless the length is a whole number of
/// tokens.
fn bytes_to_tokens(b: &Vec<u8>) -> (r: Option<Vec<u64>>)
    ensures
        r matches Some(v) ==> bytes_of(v@) == b@,
        b@.len() % 8 == 0 ==> r is Some,
{
    proof {
        lemma_auto_spec_u64_to_from_le_bytes();
    }
    if b.len() % 8 != 0 {
        return None;
    }
    let n = b.len() / 8;
    let mut v: Vec<u64> = Vec::new();
    let mut i: usize = 0;
    proof {
        assert(bytes_of(v@) =~= b@.take(0));
    }
    while i < n
        invariant
            b@.len() == 8 * n,
            b@.len() <= usize::MAX,
            i <= n,
            v@.len() == i,
            bytes_of(v@) == b@.take(8 * i as int),
        decreases n - i,
    {
        let mut chunk: Vec<u8> = Vec::new();
        proof {
            assert(8 * i + 8 <= b@.len());
        }
        let base = 8 * i;
        let mut k: usize = 0;
        while k < 8
            invariant
                b@.len() == 8 * n,
                base == 8 * i,
                base + 8 <= b@.len(),
                i < n,
                k <= 8,
                chunk@ == b@.subrange(base as int, base as int + k),
            decreases 8 - k,
        {
            chunk.push(b[base + k]);
            proof {
                assert(b@.subrange(base as int, base as int + k + 1)
                    =~= b@.subrange(base as int, base as int + k).push(b@[base + k]));
            }
            k += 1;
        }
        let x = vstd::bytes::u64_from_le_bytes(chunk.as_slice());
        proof {
            lemma_auto_spec_u64_to_from_le_bytes();
            lemma_bytes_of_push(v@, x);
            assert(spec_u64_to_le_bytes(x) == chunk@);
            assert(chunk@ =~= b@.subrange(8 * i as int, 8 * i as int + 8));
            assert(bytes_of(v@.push(x)) =~= b@.take(8 * (i + 1)));
        }
        v.push(x);
        i += 1;
    }
    proof {
        assert(b@.take(8 * n as int) =~= b@);
    }
    Some(v)
}

// --------------------------------------------------- token-level decoding

/// Reads one length-prefixed run of raw tokens.
pub open spec fn dec_run(t: Seq<u64>, p: int) -> Option<(Seq<u64>, int)> {
    if 0 <= p < t.len() && p + 1 + t[p] <= t.len() {
        Some((t.subrange(p + 1, p + 1 + t[p]), p + 1 + t[p]))
    } else {
        None
    }
}

/// Reads `n` words, each a length-prefixed run of character codes.
pub open spec fn dec_words(t: Seq<u64>, p: int, n: int) -> Option<(Seq<Seq<u64>>, int)>
    decreases n,
{
    if n <= 0 {
        if n == 0 && 0 <= p <= t.len() {
            Some((Seq::empty(), p))
        } else {
            None
        }
    } else {
        match dec_run(t, p) {
            Some((w, p2)) => match dec_words(t, p2, n - 1) {
                Some((ws, p3)) => Some((seq![w] + ws, p3)),
                None => None,
            },
            None => None,
        }
    }
}

/// Reads a length-prefixed word list.
pub open spec fn dec_word_vec(t: Seq<u64>, p: int) -> Option<(Seq<Seq<u64>>, int)> {
    if 0 <= p < t.len() {
        dec_words(t, p + 1, t[p] as int)
    } else {
        None
    }
}

/// Reads `n` chain entries, each a key and a length-prefixed run.
pub open spec fn dec_chain_items(t: Seq<u64>, p: int, n: int) -> Option<
    (Seq<(u64, Seq<u64>)>, int),
>
    decreases n,
{
    if n <= 0 {
        if n == 0 && 0 <= p <= t.len() {
            Some((Seq::empty(), p))
        } else {
            None
        }
    } else {
        if 0 <= p < t.len() {
            match dec_run(t, p + 1) {
                Some((v, p2)) => match dec_chain_items(t, p2, n - 1) {
                    Some((items, p3)) => Some((seq![(t[p], v)] + items, p3)),
                    None => None,
                },
                None => None,
            }
        } else {
            None
        }
    }
}

/// Reads a length-prefixed chain.
pub open spec fn dec_chain_vec(t: Seq<u64>, p: int) -> Option<(Seq<(u64, Seq<u64>)>, int)> {
    if 0 <= p < t.len() {
        dec_chain_items(t, p + 1, t[p] as int)
    } else {
        None
    }
}

/// Reads `n` completion entries, each a word and a count.
pub open spec fn dec_count_items(t: Seq<u64>, p: int, n: int) -> Option<
    (Seq<(Seq<u64>, u64)>, int),
>
    decreases n,
{
    if n <= 0 {
        if n == 0 && 0 <= p <= t.len() {
            Some((Seq::empty(), p))
        } else {
            None
        }
    } else {
        match dec_run(t, p) {
            Some((w, p2)) => if p2 < t.len() {
                match dec_count_items(t, p2 + 1, n - 1) {
                    Some((items, p3)) => Some((seq![(w, t[p2])] + items, p3)),
                    None => None,
                }
            } else {
                None
            },
            None => None,
        }
    }
}


// ------------------------------------------------- decoding, token level

/// The views of decoded code runs.
pub open spec fn run_views(v: Seq<Vec<u64>>) -> Seq<Seq<u64>> {
    v.map_values(|x: Vec<u64>| x@)
}

/// A word as its character codes.
pub open spec fn codes_of(w: Seq<char>) -> Seq<u64> {
    w.map_values(|c: char| code_of(c))
}

/// Words as their character codes.
pub open spec fn codes_of_all(v: Seq<Seq<char>>) -> Seq<Seq<u64>> {
    v.map_values(|w: Seq<char>| codes_of(w))
}

/// Reads one length-prefixed run of raw tokens.
fn run_at(t: &Vec<u64>, p: usize) -> (r: Option<(Vec<u64>, usize)>)
    ensures
        match r {
            Some(pair) => dec_run(t@, p as int) == Some((pair.0@, pair.1 as int)) && pair.1
                <= t@.len(),
            None => dec_run(t@, p as int) is None,
        },
{
    if p >= t.len() {
        return None;
    }
    let n64 = t[p];
    let remaining = (t.len() - p - 1) as u64;
    if n64 > remaining {
        return None;
    }
    let n = n64 as usize;
    let mut v: Vec<u64> = Vec::new();
    let mut i: usize = 0;
    while i < n
        invariant
            t@.len() <= usize::MAX,
            p + 1 + n <= t@.len(),
            i <= n,
            v@ == t@.subrange(p + 1, p + 1 + i),
        decreases n - i,
    {
        v.push(t[p + 1 + i]);
        proof {
            assert(t@.subrange(p + 1, p + 1 + i + 1)
                =~= t@.subrange(p + 1, p + 1 + i).push(t@[p + 1 + i]));
        }
        i += 1;
    }
    Some((v, p + 1 + n))
}

/// Reads `n` words, each a length-prefixed run of character codes.
fn words_at(t: &Vec<u64>, p: usize, n: usize) -> (r: Option<(Vec<Vec<u64>>, usize)>)
    ensures
        match r {
            Some(pair) => dec_words(t@, p as int, n as int) == Some(
                (run_views(pair.0@), pair.1 as int),
            ) && pair.1 <= t@.len(),
            None => dec_words(t@, p as int, n as int) is None,
        },
    decreases n,
{
    if n == 0 {
        if p <= t.len() {
            let r: Vec<Vec<u64>> = Vec::new();
            proof {
                assert(run_views(r@) =~= Seq::<Seq<u64>>::empty());
            }
            return Some((r, p));
        } else {
            return None;
        }
    }
    let (w, p2) = match run_at(t, p) {
        Some(pair) => pair,
        None => {
            return None;
        },
    };
    let (mut ws, p3) = match words_at(t, p2, n - 1) {
        Some(pair) => pair,
        None => {
            return None;
        },
    };
    let ghost old_ws = ws@;
    ws.insert(0, w);
    proof {
        assert forall|k: int| 0 <= k < ws@.len() implies run_views(ws@)[k] == (seq![w@]
            + run_views(old_ws))[k] by {
            if k > 0 {
                assert(ws@[k] == old_ws[k - 1]);
            }
        }
        assert(run_views(ws@) =~= seq![w@] + run_views(old_ws));
    }
    Some((ws, p3))
}

/// Reads a length-prefixed word list.
fn word_vec_at(t: &Vec<u64>, p: usize) -> (r: Option<(Vec<Vec<u64>>, usize)>)
    ensures
        match r {
            Some(pair) => dec_word_vec(t@, p as int) == Some(
                (run_views(pair.0@), pair.1 as int),
            ) && pair.1 <= t@.len(),
            None => dec_word_vec(t@, p as int) is None,
        },
{
    if p >= t.len() {
        return None;
    }
    let n64 = t[p];
    if n64 > usize::MAX as u64 {
        proof {
            if dec_word_vec(t@, p as int) is Some {
                let n = t@[p as int] as int;
                lemma_dec_words_bound(t@, p as int + 1, n);
            }
        }
        return None;
    }
    words_at(t, p + 1, n64 as usize)
}

/// Reading `n` items never succeeds when fewer than `n` tokens remain.
proof fn lemma_dec_words_bound(t: Seq<u64>, p: int, n: int)
    requires
        dec_words(t, p, n) is Some,
    ensures
        p >= 0,
        p + n <= t.len(),
    decreases n,
{
    if n > 0 {
        let (w, p2) = dec_run(t, p)->Some_0;
        lemma_dec_words_bound(t, p2, n - 1);
    }
}

/// Reads `n` chain entries, each a key and a run of successors.
fn chain_items_at(t: &Vec<u64>, p: usize, n: usize) -> (r: Option<(Vec<(u64, Vec<u64>)>, usize)>)
    ensures
        match r {
            Some(pair) => dec_chain_items(t@, p as int, n as int) == Some(
                (chain_views(pair.0@), pair.1 as int),
            ) && pair.1 <= t@.len(),
            None => dec_chain_items(t@, p as int, n as int) is None,
        },
    decreases n,
{
    if n == 0 {
        if p <= t.len() {
            let r: Vec<(u64, Vec<u64>)> = Vec::new();
            proof {
                assert(chain_views(r@) =~= Seq::<(u64, Seq<u64>)>::empty());
            }
            return Some((r, p));
        } else {
            return None;
        }
    }
    if p >= t.len() {
        return None;
    }
    let key = t[p];
    let (v, p2) = match run_at(t, p + 1) {
        Some(pair) => pair,
        None => {
            return None;
        },
    };
    let (mut items, p3) = match chain_items_at(t, p2, n - 1) {
        Some(pair) => pair,
        None => {
            return None;
        },
    };
    let ghost old_items = items@;
    items.insert(0, (key, v));
    proof {
        assert forall|k: int| 0 <= k < items@.len() implies chain_views(items@)[k] == (seq![
            (key, v@),
        ] + chain_views(old_items))[k] by {
            if k > 0 {
                assert(items@[k] == old_items[k - 1]);
            }
        }
        assert(chain_views(items@) =~= seq![(key, v@)] + chain_views(old_items));
    }
    Some((items, p3))
}

proof fn lemma_dec_chain_bound(t: Seq<u64>, p: int, n: int)
    requires
        dec_chain_items(t, p, n) is Some,
    ensures
        p >= 0,
        p + n <= t.len(),
    decreases n,
{
    if n > 0 {
        let (v, p2) = dec_run(t, p + 1)->Some_0;
        lemma_dec_chain_bound(t, p2, n - 1);
    }
}

/// Reads a length-prefixed chain.
fn chain_vec_at(t: &Vec<u64>, p: usize) -> (r: Option<(Vec<(u64, Vec<u64>)>, usize)>)
    ensures
        match r {
            Some(pair) => dec_chain_vec(t@, p as int) == Some(
                (chain_views(pair.0@), pair.1 as int),
            ) && pair.1 <= t@.len(),
            None => dec_chain_vec(t@, p as int) is None,
        },
{
    if p >= t.len() {
        return None;
    }
    let n64 = t[p];
    if n64 > usize::MAX as u64 {
        proof {
            if dec_chain_vec(t@, p as int) is Some {
                let n = t@[p as int] as int;
                lemma_dec_chain_bound(t@, p as int + 1, n);
            }
        }
        return None;
    }
    chain_items_at(t, p + 1, n64 as usize)
}

/// Relies on char::from_u32: yields the character with the given scalar
/// value whenever one exists.
#[verifier::external_body]
fn char_from_u32(u: u32) -> (r: Option<char>)
    ensures
        forall|c: char| c as u32 == u ==> r == Some(c),
{
    char::from_u32(u)
}

/// Turns character codes back into a word; fails on any invalid code.
fn string_from_codes(codes: &Vec<u64>) -> (r: Option<String>)
    ensures
        forall|w: Seq<char>| codes@ == codes_of(w) ==> (r matches Some(s) && s@ == w),
{
    let mut cs: Vec<char> = Vec::new();
    let mut i: usize = 0;
    while i < codes.len()
        invariant
            i <= codes@.len(),
            forall|w: Seq<char>| codes@ == codes_of(w) ==> cs@ == w.take(i as int),
        decreases codes@.len() - i,
    {
        let x = codes[i];
        if x > 0xFFFF_FFFF {
            proof {
                assert forall|w: Seq<char>| codes@ == codes_of(w) implies false by {
                    lemma_code_at(codes@, w, i as int);
                }
            }
            return None;
        }
        let copt = char_from_u32(x as u32);
        let c = match copt {
            Some(c) => c,
            None => {
                proof {
                    assert forall|w: Seq<char>| codes@ == codes_of(w) implies false by {
                        lemma_code_at(codes@, w, i as int);
                        assert(w[i as int] as u32 == x as u32);
                        assert(copt == Some(w[i as int]));
                    }
                }
                return None;
            },
        };
        proof {
            assert forall|w: Seq<char>| codes@ == codes_of(w) implies cs@.push(c) == w.take(
                i + 1,
            ) by {
                lemma_code_at(codes@, w, i as int);
                assert(w[i as int] as u32 == x as u32);
                assert(copt == Some(w[i as int]));
                assert(c == w[i as int]);
                assert(w.take(i + 1) =~= w.take(i as int).push(w[i as int]));
            }
        }
        cs.push(c);
        i += 1;
    }
    let s = string_of(cs.as_slice());
    proof {
        assert forall|w: Seq<char>| codes@ == codes_of(w) implies s@ == w by {
            assert(codes_of(w).len() == w.len());
            assert(cs@ == w.take(w.len() as int));
            assert(w.take(w.len() as int) =~= w);
        }
    }
    Some(s)
}

/// The code stream of a word carries each character's scalar value.
proof fn lemma_code_at(codes: Seq<u64>, w: Seq<char>, i: int)
    requires
        codes == codes_of(w),
        0 <= i < codes.len(),
    ensures
        i < w.len(),
        codes[i] == code_of(w[i]),
        codes[i] <= 0xFFFF_FFFF,
{
    assert(codes_of(w).len() == w.len());
    assert(w.map_values(|c2: char| code_of(c2))[i] == code_of(w[i]));
}

/// Turns a list of code runs back into words.
fn strings_from_codes(v: &Vec<Vec<u64>>) -> (r: Option<Vec<String>>)
    ensures
        forall|ws: Seq<Seq<char>>| run_views(v@) == codes_of_all(ws) ==> (r matches Some(out)
            && strs(out@) == ws),
{
    let mut out: Vec<String> = Vec::new();
    let mut i: usize = 0;
    while i < v.len()
        invariant
            i <= v@.len(),
            forall|ws: Seq<Seq<char>>| run_views(v@) == codes_of_all(ws) ==> strs(out@)
                == ws.take(i as int),
        decreases v@.len() - i,
    {
        let s = match string_from_codes(&v[i]) {
            Some(s) => s,
            None => {
                proof {
                    assert forall|ws: Seq<Seq<char>>| run_views(v@) == codes_of_all(ws)
                        implies false by {
                        assert(run_views(v@).len() == v@.len());
                        assert(v@.map_values(|x2: Vec<u64>| x2@)[i as int] == v@[i as int]@);
                        assert(run_views(v@).len() == v@.len());
                assert(v@.map_values(|x2: Vec<u64>| x2@)[i as int] == v@[i as int]@);
                assert(run_views(v@)[i as int] == v@[i as int]@);
                        assert(codes_of_all(ws).len() == ws.len());
                        assert(ws.map_values(|w2: Seq<char>| codes_of(w2))[i as int]
                            == codes_of(ws[i as int]));
                        assert(codes_of_all(ws).len() == ws.len());
                assert(ws.map_values(|w2: Seq<char>| codes_of(w2))[i as int]
                    == codes_of(ws[i as int]));
                assert(codes_of_all(ws)[i as int] == codes_of(ws[i as int]));
                        assert(v@[i as int]@ == codes_of(ws[i as int]));
                    }
                }
                return None;
            },
        };
        proof {
            assert forall|ws: Seq<Seq<char>>| run_views(v@) == codes_of_all(ws) implies strs(
                out@.push(s),
            ) == ws.take(i + 1) by {
                assert(run_views(v@).len() == v@.len());
                assert(v@.map_values(|x2: Vec<u64>| x2@)[i as int] == v@[i as int]@);
                assert(run_views(v@)[i as int] == v@[i as int]@);
                assert(codes_of_all(ws).len() == ws.len());
                assert(ws.map_values(|w2: Seq<char>| codes_of(w2))[i as int]
                    == codes_of(ws[i as int]));
                assert(codes_of_all(ws)[i as int] == codes_of(ws[i as int]));
                assert(v@[i as int]@ == codes_of(ws[i as int]));
                assert(s@ == ws[i as int]);
                crate::correction::lemma_strs_push(out@, s);
                assert(ws.take(i + 1) =~= ws.take(i as int).push(ws[i as int]));
            }
        }
        out.push(s);
        i += 1;
    }
    proof {
        assert forall|ws: Seq<Seq<char>>| run_views(v@) == codes_of_all(ws) implies strs(out@)
            == ws by {
            assert(ws.len() == run_views(v@).len());
            assert(strs(out@) == ws.take(ws.len() as int));
            assert(ws.take(ws.len() as int) =~= ws);
        }
    }
    Some(out)
}



// ------------------------------------------------------------- encoding

proof fn lemma_strs_tokens_push(v: Seq<Seq<char>>, w: Seq<char>)
    ensures
        strs_tokens(v.push(w)) == strs_tokens(v) + str_tokens(w),
    decreases v.len(),
{
    if v.len() == 0 {
        assert(v.push(w)[0] == w);
        assert(v.push(w).drop_first() =~= Seq::<Seq<char>>::empty());
        assert(strs_tokens(Seq::<Seq<char>>::empty()) == Seq::<u64>::empty());
        assert(v =~= Seq::<Seq<char>>::empty());
        assert(strs_tokens(v.push(w)) =~= strs_tokens(v) + str_tokens(w));
    } else {
        assert(v.push(w)[0] == v[0]);
        assert(v.push(w).drop_first() =~= v.drop_first().push(w));
        lemma_strs_tokens_push(v.drop_first(), w);
        assert(str_tokens(v[0]) + (strs_tokens(v.drop_first()) + str_tokens(w))
            =~= (str_tokens(v[0]) + strs_tokens(v.drop_first())) + str_tokens(w));
    }
}

proof fn lemma_chain_tokens_push(v: Seq<(u64, Seq<u64>)>, p: (u64, Seq<u64>))
    ensures
        chain_tokens(v.push(p)) == chain_tokens(v) + seq![p.0] + ids_tokens(p.1),
    decreases v.len(),
{
    if v.len() == 0 {
        assert(v.push(p)[0] == p);
        assert(v.push(p).drop_first() =~= Seq::<(u64, Seq<u64>)>::empty());
        assert(chain_tokens(Seq::<(u64, Seq<u64>)>::empty()) == Seq::<u64>::empty());
        assert(v =~= Seq::<(u64, Seq<u64>)>::empty());
        assert(chain_tokens(v.push(p)) =~= chain_tokens(v) + seq![p.0] + ids_tokens(p.1));
    } else {
        assert(v.push(p)[0] == v[0]);
        assert(v.push(p).drop_first() =~= v.drop_first().push(p));
        lemma_chain_tokens_push(v.drop_first(), p);
        assert(seq![v[0].0] + ids_tokens(v[0].1)
            + (chain_tokens(v.drop_first()) + seq![p.0] + ids_tokens(p.1))
            =~= (seq![v[0].0] + ids_tokens(v[0].1) + chain_tokens(v.drop_first()))
                + seq![p.0] + ids_tokens(p.1));
    }
}

proof fn lemma_counts_tokens_push(v: Seq<(Seq<char>, u64)>, p: (Seq<char>, u64))
    ensures
        counts_tokens(v.push(p)) == counts_tokens(v) + str_tokens(p.0) + seq![p.1],
    decreases v.len(),
{
    if v.len() == 0 {
        assert(v.push(p)[0] == p);
        assert(v.push(p).drop_first() =~= Seq::<(Seq<char>, u64)>::empty());
        assert(counts_tokens(Seq::<(Seq<char>, u64)>::empty()) == Seq::<u64>::empty());
        assert(v =~= Seq::<(Seq<char>, u64)>::empty());
        assert(counts_tokens(v.push(p)) =~= counts_tokens(v) + str_tokens(p.0) + seq![p.1]);
    } else {
        assert(v.push(p)[0] == v[0]);
        assert(v.push(p).drop_first() =~= v.drop_first().push(p));
        lemma_counts_tokens_push(v.drop_first(), p);
        assert(str_tokens(v[0].0) + seq![v[0].1]
            + (counts_tokens(v.drop_first()) + str_tokens(p.0) + seq![p.1])
            =~= (str_tokens(v[0].0) + seq![v[0].1] + counts_tokens(v.drop_first()))
                + str_tokens(p.0) + seq![p.1]);
    }
}

/// Appends one word's tokens: its length, then its character codes.
fn push_str_tokens(out: &mut Vec<u64>, s: &String)
    ensures
        final(out)@ == old(out)@ + str_tokens(s@),
        s@.len() <= u64::MAX,
{
    let cs = crate::text::chars_of(s.as_str());
    out.push(cs.len() as u64);
    let ghost mid = out@;
    let mut i: usize = 0;
    proof {
        assert(out@ =~= mid + codes_of(s@).take(0));
    }
    while i < cs.len()
        invariant
            cs@ == s@,
            i <= cs@.len(),
            out@ == mid + codes_of(s@).take(i as int),
        decreases cs@.len() - i,
    {
        let code = (cs[i] as u32) as u64;
        proof {
            assert(codes_of(s@)[i as int] == code_of(s@[i as int]));
            assert(codes_of(s@).take(i + 1)
                =~= codes_of(s@).take(i as int).push(codes_of(s@)[i as int]));
            assert(mid + codes_of(s@).take(i + 1) =~= out@.push(code));
        }
        out.push(code);
        i += 1;
    }
    proof {
        assert(codes_of(s@).take(codes_of(s@).len() as int) =~= codes_of(s@));
        assert(out@ =~= old(out)@ + str_tokens(s@));
    }
}

/// Appends a word list's tokens, length-prefixed.
fn push_strs_vec_tokens(out: &mut Vec<u64>, v: &Vec<String>)
    ensures
        final(out)@ == old(out)@ + strs_vec_tokens(strs(v@)),
        word_sizes_ok(strs(v@)),
{
    out.push(v.len() as u64);
    let ghost mid = out@;
    let mut i: usize = 0;
    proof {
        assert(strs_tokens(strs(v@).take(0)) =~= Seq::<u64>::empty());
        assert(out@ =~= mid + strs_tokens(strs(v@).take(0)));
    }
    while i < v.len()
        invariant
            i <= v@.len(),
            out@ == mid + strs_tokens(strs(v@).take(i as int)),
            forall|k: int| 0 <= k < i ==> (#[trigger] strs(v@)[k]).len() <= u64::MAX,
        decreases v@.len() - i,
    {
        push_str_tokens(out, &v[i]);
        proof {
            assert(strs(v@)[i as int] == v@[i as int]@);
            assert(strs(v@).take(i + 1) =~= strs(v@).take(i as int).push(strs(v@)[i as int]));
            lemma_strs_tokens_push(strs(v@).take(i as int), strs(v@)[i as int]);
            assert(mid + strs_tokens(strs(v@).take(i + 1))
                =~= (mid + strs_tokens(strs(v@).take(i as int))) + str_tokens(v@[i as int]@));
        }
        i += 1;
    }
    proof {
        assert(strs(v@).take(strs(v@).len() as int) =~= strs(v@));
        assert(out@ =~= old(out)@ + strs_vec_tokens(strs(v@)));
        assert(word_sizes_ok(strs(v@)));
    }
}

/// Appends an identifier list's tokens, length-prefixed.
fn push_ids_tokens(out: &mut Vec<u64>, v: &Vec<u64>)
    ensures
        final(out)@ == old(out)@ + ids_tokens(v@),
        v@.len() <= u64::MAX,
{
    out.push(v.len() as u64);
    let ghost mid = out@;
    let mut i: usize = 0;
    proof {
        assert(out@ =~= mid + v@.take(0));
    }
    while i < v.len()
        invariant
            i <= v@.len(),
            out@ == mid + v@.take(i as int),
        decreases v@.len() - i,
    {
        proof {
            assert(v@.take(i + 1) =~= v@.take(i as int).push(v@[i as int]));
            assert(mid + v@.take(i + 1) =~= out@.push(v@[i as int]));
        }
        out.push(v[i]);
        i += 1;
    }
    proof {
        assert(v@.take(v@.len() as int) =~= v@);
        assert(out@ =~= old(out)@ + ids_tokens(v@));
    }
}

/// Appends a chain's tokens, length-prefixed.
fn push_chain_tokens(out: &mut Vec<u64>, v: &Vec<(u64, Vec<u64>)>)
    ensures
        final(out)@ == old(out)@ + chain_vec_tokens(chain_views(v@)),
        chain_sizes_ok(chain_views(v@)),
{
    out.push(v.len() as u64);
    let ghost mid = out@;
    let ghost cv = chain_views(v@);
    let mut i: usize = 0;
    proof {
        assert(chain_tokens(cv.take(0)) =~= Seq::<u64>::empty());
        assert(out@ =~= mid + chain_tokens(cv.take(0)));
    }
    while i < v.len()
        invariant
            cv == chain_views(v@),
            cv.len() == v@.len(),
            i <= v@.len(),
            out@ == mid + chain_tokens(cv.take(i as int)),
            forall|k: int| 0 <= k < i ==> (#[trigger] cv[k]).1.len() <= u64::MAX,
        decreases v@.len() - i,
    {
        let ghost before = out@;
        out.push(v[i].0);
        push_ids_tokens(out, &v[i].1);
        proof {
            assert(cv[i as int] == (v@[i as int].0, v@[i as int].1@));
            assert(cv.take(i + 1) =~= cv.take(i as int).push(cv[i as int]));
            lemma_chain_tokens_push(cv.take(i as int), cv[i as int]);
            assert(out@ =~= (before.push(v@[i as int].0)) + ids_tokens(v@[i as int].1@));
            assert(before.push(v@[i as int].0) =~= before + seq![cv[i as int].0]);
            assert(mid + chain_tokens(cv.take(i + 1))
                =~= ((mid + chain_tokens(cv.take(i as int))) + seq![cv[i as int].0])
                    + ids_tokens(cv[i as int].1));
        }
        i += 1;
    }
    proof {
        assert(cv.take(cv.len() as int) =~= cv);
        assert(out@ =~= old(out)@ + chain_vec_tokens(cv));
        assert(chain_sizes_ok(cv));
    }
}

/// Serializes the completion snapshot: the entry count, then each stored
/// word with its occurrence count.
pub fn encode_completion(s: &CompletionSnapshot) -> (r: Vec<u8>)
    ensures
        r@ == bytes_of(completion_tokens(count_views(s.entries@))),
        count_sizes_ok(count_views(s.entries@)),
{
    let mut t: Vec<u64> = Vec::new();
    t.push(s.entries.len() as u64);
    let ghost mid = t@;
    let ghost ev = count_views(s.entries@);
    let mut i: usize = 0;
    proof {
        assert(counts_tokens(ev.take(0)) =~= Seq::<u64>::empty());
        assert(t@ =~= mid + counts_tokens(ev.take(0)));
    }
    while i < s.entries.len()
        invariant
            ev == count_views(s.entries@),
            ev.len() == s.entries@.len(),
            i <= s.entries@.len(),
            t@ == mid + counts_tokens(ev.take(i as int)),
            forall|k: int| 0 <= k < i ==> (#[trigger] ev[k]).0.len() <= u64::MAX,
        decreases s.entries@.len() - i,
    {
        let ghost before = t@;
        push_str_tokens(&mut t, &s.entries[i].0);
        t.push(s.entries[i].1);
        proof {
            assert(ev[i as int] == (s.entries@[i as int].0@, s.entries@[i as int].1));
            assert(ev.take(i + 1) =~= ev.take(i as int).push(ev[i as int]));
            lemma_counts_tokens_push(ev.take(i as int), ev[i as int]);
            assert(t@ =~= (before + str_tokens(ev[i as int].0)).push(ev[i as int].1));
            assert(mid + counts_tokens(ev.take(i + 1))
                =~= ((mid + counts_tokens(ev.take(i as int))) + str_tokens(ev[i as int].0))
                    + seq![ev[i as int].1]);
            assert((before + str_tokens(ev[i as int].0)) + seq![ev[i as int].1]
                =~= (before + str_tokens(ev[i as int].0)).push(ev[i as int].1));
        }
        i += 1;
    }
    proof {
        assert(ev.take(ev.len() as int) =~= ev);
        assert(t@ =~= completion_tokens(ev));
        assert(count_sizes_ok(ev));
    }
    tokens_to_bytes(&t)
}

/// Serializes the predictor snapshot: starters, interner table, both
/// condensed chains, and the suppressed most frequent words.
pub fn encode_predictor(s: &PredictorSnapshot) -> (r: Vec<u8>)
    ensures
        r@ == bytes_of(predictor_tokens(
            strs(s.starters@),
            strs(s.table@),
            chain_views(s.chains1@),
            chain_views(s.chains2@),
            s.top_words@,
        )),
        word_sizes_ok(strs(s.starters@)),
        word_sizes_ok(strs(s.table@)),
        chain_sizes_ok(chain_views(s.chains1@)),
        chain_sizes_ok(chain_views(s.chains2@)),
        s.top_words@.len() <= u64::MAX,
{
    let mut t: Vec<u64> = Vec::new();
    push_strs_vec_tokens(&mut t, &s.starters);
    push_strs_vec_tokens(&mut t, &s.table);
    push_chain_tokens(&mut t, &s.chains1);
    push_chain_tokens(&mut t, &s.chains2);
    push_ids_tokens(&mut t, &s.top_words);
    proof {
        assert(t@ =~= predictor_tokens(
            strs(s.starters@),
            strs(s.table@),
            chain_views(s.chains1@),
            chain_views(s.chains2@),
            s.top_words@,
        ));
    }
    tokens_to_bytes(&t)
}


// ---------------------------------------------------------- round trips

/// Completion entries as code runs with counts.
pub open spec fn count_codes(es: Seq<(Seq<char>, u64)>) -> Seq<(Seq<u64>, u64)> {
    es.map_values(|e: (Seq<char>, u64)| (codes_of(e.0), e.1))
}

/// The views of decoded raw completion entries.
pub open spec fn raw_count_views(v: Seq<(Vec<u64>, u64)>) -> Seq<(Seq<u64>, u64)> {
    v.map_values(|q: (Vec<u64>, u64)| (q.0@, q.1))
}

/// Reads `n` completion entries, each a word's codes and a count.
fn count_items_at(t: &Vec<u64>, p: usize, n: usize) -> (r: Option<(Vec<(Vec<u64>, u64)>, usize)>)
    ensures
        match r {
            Some(pair) => dec_count_items(t@, p as int, n as int) == Some(
                (raw_count_views(pair.0@), pair.1 as int),
            ) && pair.1 <= t@.len(),
            None => dec_count_items(t@, p as int, n as int) is None,
        },
    decreases n,
{
    if n == 0 {
        if p <= t.len() {
            let r: Vec<(Vec<u64>, u64)> = Vec::new();
            proof {
                assert(raw_count_views(r@) =~= Seq::<(Seq<u64>, u64)>::empty());
            }
            return Some((r, p));
        } else {
            return None;
        }
    }
    let (w, p2) = match run_at(t, p) {
        Some(pair) => pair,
        None => {
            return None;
        },
    };
    if p2 >= t.len() {
        return None;
    }
    let count = t[p2];
    let (mut items, p3) = match count_items_at(t, p2 + 1, n - 1) {
        Some(pair) => pair,
        None => {
            return None;
        },
    };
    let ghost old_items = items@;
    items.insert(0, (w, count));
    proof {
        assert forall|k: int| 0 <= k < items@.len() implies raw_count_views(items@)[k] == (seq![
            (w@, count),
        ] + raw_count_views(old_items))[k] by {
            if k > 0 {
                assert(items@[k] == old_items[k - 1]);
            }
        }
        assert(raw_count_views(items@) =~= seq![(w@, count)] + raw_count_views(old_items));
    }
    Some((items, p3))
}

/// Turns decoded completion entries back into words with counts.
fn entries_from_codes(v: Vec<(Vec<u64>, u64)>) -> (r: Option<Vec<(String, u64)>>)
    ensures
        forall|es: Seq<(Seq<char>, u64)>| raw_count_views(v@) == count_codes(es) ==> (r matches
            Some(out) && count_views(out@) == es),
{
    let mut out: Vec<(String, u64)> = Vec::new();
    let mut i: usize = 0;
    while i < v.len()
        invariant
            i <= v@.len(),
            forall|es: Seq<(Seq<char>, u64)>| raw_count_views(v@) == count_codes(es)
                ==> count_views(out@) == es.take(i as int),
        decreases v@.len() - i,
    {
        let s = match string_from_codes(&v[i].0) {
            Some(s) => s,
            None => {
                proof {
                    assert forall|es: Seq<(Seq<char>, u64)>| raw_count_views(v@) == count_codes(es)
                        implies false by {
                        lemma_raw_count_at(v@, i as int);
                        lemma_count_codes_at(es, i as int);
                        assert(v@[i as int].0@ == codes_of(es[i as int].0));
                    }
                }
                return None;
            },
        };
        let c = v[i].1;
        proof {
            assert forall|es: Seq<(Seq<char>, u64)>| raw_count_views(v@) == count_codes(es)
                implies count_views(out@.push((s, c))) == es.take(i + 1) by {
                lemma_raw_count_at(v@, i as int);
                lemma_count_codes_at(es, i as int);
                assert(v@[i as int].0@ == codes_of(es[i as int].0));
                assert(s@ == es[i as int].0);
                assert(c == es[i as int].1);
                assert forall|k: int| 0 <= k < out@.len() + 1 implies count_views(
                    out@.push((s, c)),
                )[k] == es.take(i + 1)[k] by {
                    if k < out@.len() {
                        assert(count_views(out@)[k] == es.take(i as int)[k]);
                    } else {
                        assert(out@.push((s, c))[k] == (s, c));
                    }
                }
                assert(count_views(out@.push((s, c))) =~= es.take(i + 1));
            }
        }
        out.push((s, c));
        i += 1;
    }
    proof {
        assert forall|es: Seq<(Seq<char>, u64)>| raw_count_views(v@) == count_codes(es)
            implies count_views(out@) == es by {
            assert(es.map_values(|e: (Seq<char>, u64)| (codes_of(e.0), e.1)).len() == es.len());
            assert(count_codes(es).len() == es.len());
            assert(v@.map_values(|q: (Vec<u64>, u64)| (q.0@, q.1)).len() == v@.len());
            assert(raw_count_views(v@).len() == v@.len());
            assert(count_views(out@) == es.take(es.len() as int));
            assert(es.take(es.len() as int) =~= es);
        }
    }
    Some(out)
}

proof fn lemma_raw_count_at(v: Seq<(Vec<u64>, u64)>, i: int)
    requires
        0 <= i < v.len(),
    ensures
        raw_count_views(v).len() == v.len(),
        raw_count_views(v)[i] == (v[i].0@, v[i].1),
{
    assert(v.map_values(|q: (Vec<u64>, u64)| (q.0@, q.1))[i] == (v[i].0@, v[i].1));
}

proof fn lemma_count_codes_at(es: Seq<(Seq<char>, u64)>, i: int)
    requires
        0 <= i < es.len(),
    ensures
        count_codes(es).len() == es.len(),
        count_codes(es)[i] == (codes_of(es[i].0), es[i].1),
{
    assert(es.map_values(|e: (Seq<char>, u64)| (codes_of(e.0), e.1))[i]
        == (codes_of(es[i].0), es[i].1));
}

/// Every word list size that an encoder can produce.
pub open spec fn word_sizes_ok(v: Seq<Seq<char>>) -> bool {
    v.len() <= u64::MAX && forall|i: int| 0 <= i < v.len() ==> (#[trigger] v[i]).len() <= u64::MAX
}

/// Every chain size that an encoder can produce.
pub open spec fn chain_sizes_ok(v: Seq<(u64, Seq<u64>)>) -> bool {
    v.len() <= u64::MAX && forall|i: int| 0 <= i < v.len() ==> (#[trigger] v[i]).1.len()
        <= u64::MAX
}

/// Every entry list size that an encoder can produce.
pub open spec fn count_sizes_ok(v: Seq<(Seq<char>, u64)>) -> bool {
    v.len() <= u64::MAX && forall|i: int| 0 <= i < v.len() ==> (#[trigger] v[i]).0.len()
        <= u64::MAX
}

/// A decoded window splits at the boundary of two encoded parts.
proof fn lemma_subrange_shift(t: Seq<u64>, p: int, a: Seq<u64>, b: Seq<u64>)
    requires
        0 <= p,
        p + a.len() + b.len() <= t.len(),
        t.subrange(p, p + a.len() + b.len()) == a + b,
    ensures
        t.subrange(p, p + a.len()) == a,
        t.subrange(p + a.len(), p + a.len() + b.len()) == b,
{
    assert(t.subrange(p, p + a.len() as int) =~= (a + b).subrange(0, a.len() as int));
    assert((a + b).subrange(0, a.len() as int) =~= a);
    assert(t.subrange(p + a.len(), p + a.len() + b.len())
        =~= (a + b).subrange(a.len() as int, (a + b).len() as int));
    assert((a + b).subrange(a.len() as int, (a + b).len() as int) =~= b);
}

/// Decoding a run reads back what was encoded.
proof fn lemma_dec_run_enc(t: Seq<u64>, p: int, v: Seq<u64>)
    requires
        v.len() <= u64::MAX,
        0 <= p,
        p + 1 + v.len() <= t.len(),
        t.subrange(p, p + 1 + v.len()) == ids_tokens(v),
    ensures
        dec_run(t, p) == Some((v, p + 1 + v.len())),
{
    assert(ids_tokens(v) =~= seq![v.len() as u64] + v);
    lemma_subrange_shift(t, p, seq![v.len() as u64], v);
    assert(t[p] == t.subrange(p, p + 1)[0]);
    assert(t[p] == v.len() as u64);
    assert(t.subrange(p + 1, p + 1 + v.len()) == v);
}

proof fn lemma_strs_tokens_len(v: Seq<Seq<char>>)
    ensures
        strs_tokens(v).len() >= v.len(),
    decreases v.len(),
{
    if v.len() > 0 {
        lemma_strs_tokens_len(v.drop_first());
        assert(codes_of(v[0]).len() == v[0].len());
    }
}

/// Decoding words reads back what was encoded.
proof fn lemma_dec_words_enc(t: Seq<u64>, p: int, ws: Seq<Seq<char>>)
    requires
        word_sizes_ok(ws),
        0 <= p,
        p + strs_tokens(ws).len() <= t.len(),
        t.subrange(p, p + strs_tokens(ws).len()) == strs_tokens(ws),
    ensures
        dec_words(t, p, ws.len() as int) == Some(
            (codes_of_all(ws), p + strs_tokens(ws).len()),
        ),
    decreases ws.len(),
{
    if ws.len() == 0 {
        assert(codes_of_all(ws) =~= Seq::<Seq<u64>>::empty());
    } else {
        let w = ws[0];
        let codes = codes_of(w);
        assert(codes.len() == w.len());
        assert(str_tokens(w) == ids_tokens(codes)) by {
            assert(str_tokens(w) =~= ids_tokens(codes));
        }
        let rest = ws.drop_first();
        assert(strs_tokens(ws) == str_tokens(w) + strs_tokens(rest));
        let l0 = 1 + w.len() as int;
        assert(str_tokens(w).len() == l0);
        lemma_subrange_shift(t, p, str_tokens(w), strs_tokens(rest));
        assert(t.subrange(p, p + l0) == ids_tokens(codes));
        lemma_dec_run_enc(t, p, codes);
        assert(word_sizes_ok(rest)) by {
            assert(rest.len() <= u64::MAX);
            assert forall|i: int| 0 <= i < rest.len() implies (#[trigger] rest[i]).len()
                <= u64::MAX by {
                assert(rest[i] == ws[i + 1]);
            }
        }
        lemma_dec_words_enc(t, p + l0, rest);
        assert(codes_of_all(ws) =~= seq![codes] + codes_of_all(rest)) by {
            assert forall|k: int| 0 <= k < ws.len() implies codes_of_all(ws)[k] == (seq![codes]
                + codes_of_all(rest))[k] by {
                if k > 0 {
                    assert(rest[k - 1] == ws[k]);
                }
            }
        }
    }
}

/// Decoding a chain reads back what was encoded.
proof fn lemma_dec_chain_enc(t: Seq<u64>, p: int, v: Seq<(u64, Seq<u64>)>)
    requires
        chain_sizes_ok(v),
        0 <= p,
        p + chain_tokens(v).len() <= t.len(),
        t.subrange(p, p + chain_tokens(v).len()) == chain_tokens(v),
    ensures
        dec_chain_items(t, p, v.len() as int) == Some((v, p + chain_tokens(v).len())),
    decreases v.len(),
{
    if v.len() == 0 {
    } else {
        let (key, succs) = (v[0].0, v[0].1);
        let rest = v.drop_first();
        assert(chain_tokens(v) == seq![key] + ids_tokens(succs) + chain_tokens(rest));
        let l0 = 1 + (1 + succs.len() as int);
        assert(chain_tokens(v) =~= seq![key] + (ids_tokens(succs) + chain_tokens(rest)));
        lemma_subrange_shift(t, p, seq![key], ids_tokens(succs) + chain_tokens(rest));
        assert(t[p] == t.subrange(p, p + 1)[0]);
        assert(t[p] == key);
        lemma_subrange_shift(t, p + 1, ids_tokens(succs), chain_tokens(rest));
        lemma_dec_run_enc(t, p + 1, succs);
        assert(t.subrange(p + l0, p + l0 + chain_tokens(rest).len()) == chain_tokens(rest));
        assert(chain_sizes_ok(rest)) by {
            assert forall|i: int| 0 <= i < rest.len() implies (#[trigger] rest[i]).1.len()
                <= u64::MAX by {
                assert(rest[i] == v[i + 1]);
            }
        }
        lemma_dec_chain_enc(t, p + l0, rest);
        assert(v =~= seq![(key, succs)] + rest);
        assert(seq![(key, succs)] + rest =~= v);
    }
}

/// Decoding completion entries reads back what was encoded.
proof fn lemma_dec_counts_enc(t: Seq<u64>, p: int, v: Seq<(Seq<char>, u64)>)
    requires
        count_sizes_ok(v),
        0 <= p,
        p + counts_tokens(v).len() <= t.len(),
        t.subrange(p, p + counts_tokens(v).len()) == counts_tokens(v),
    ensures
        dec_count_items(t, p, v.len() as int) == Some(
            (count_codes(v), p + counts_tokens(v).len()),
        ),
    decreases v.len(),
{
    if v.len() == 0 {
        assert(count_codes(v) =~= Seq::<(Seq<u64>, u64)>::empty());
    } else {
        let (w, count) = (v[0].0, v[0].1);
        let codes = codes_of(w);
        assert(codes.len() == w.len());
        assert(str_tokens(w) == ids_tokens(codes)) by {
            assert(str_tokens(w) =~= ids_tokens(codes));
        }
        let rest = v.drop_first();
        assert(counts_tokens(v) == str_tokens(w) + seq![count] + counts_tokens(rest));
        let lw = 1 + w.len() as int;
        assert(counts_tokens(v) =~= str_tokens(w) + (seq![count] + counts_tokens(rest)));
        lemma_subrange_shift(t, p, str_tokens(w), seq![count] + counts_tokens(rest));
        assert(t.subrange(p, p + lw) == ids_tokens(codes));
        lemma_dec_run_enc(t, p, codes);
        lemma_subrange_shift(t, p + lw, seq![count], counts_tokens(rest));
        assert(t[p + lw] == t.subrange(p + lw, p + lw + 1)[0]);
        assert(t[p + lw] == count);
        assert(t.subrange(p + lw + 1, p + lw + 1 + counts_tokens(rest).len())
            == counts_tokens(rest));
        assert(count_sizes_ok(rest)) by {
            assert forall|i: int| 0 <= i < rest.len() implies (#[trigger] rest[i]).0.len()
                <= u64::MAX by {
                assert(rest[i] == v[i + 1]);
            }
        }
        lemma_dec_counts_enc(t, p + lw + 1, rest);
        assert(count_codes(v) =~= seq![(codes, count)] + count_codes(rest)) by {
            assert forall|k: int| 0 <= k < v.len() implies count_codes(v)[k] == (seq![
                (codes, count),
            ] + count_codes(rest))[k] by {
                if k > 0 {
                    assert(rest[k - 1] == v[k]);
                }
            }
        }
    }
}


/// Deserializes a completion snapshot: bytes written by `encode_completion`
/// come back exactly; other bytes may yield nothing.
pub fn decode_completion(b: &Vec<u8>) -> (r: Option<CompletionSnapshot>)
    ensures
        forall|es: Seq<(Seq<char>, u64)>| count_sizes_ok(es) && b@ == bytes_of(
            completion_tokens(es),
        ) ==> (r matches Some(cs) && count_views(cs.entries@) == es),
{
    let t = match bytes_to_tokens(b) {
        Some(t) => t,
        None => {
            proof {
                assert forall|es: Seq<(Seq<char>, u64)>| count_sizes_ok(es) && b@ == bytes_of(
                    completion_tokens(es),
                ) implies false by {
                    lemma_bytes_of_len(completion_tokens(es));
                }
            }
            return None;
        },
    };
    proof {
        assert forall|es: Seq<(Seq<char>, u64)>| count_sizes_ok(es) && b@ == bytes_of(
            completion_tokens(es),
        ) implies t@ == completion_tokens(es) && dec_count_items(t@, 1, es.len() as int) == Some(
            (count_codes(es), completion_tokens(es).len() as int),
        ) && t@[0] == es.len() as u64 by {
            lemma_bytes_of_injective(t@, completion_tokens(es));
            assert(t@[0] == completion_tokens(es)[0]);
            assert(t@.subrange(1, 1 + counts_tokens(es).len() as int)
                =~= counts_tokens(es));
            lemma_dec_counts_enc(t@, 1, es);
        }
    }
    if t.len() == 0 {
        proof {
            assert forall|es: Seq<(Seq<char>, u64)>| count_sizes_ok(es) && b@ == bytes_of(
                completion_tokens(es),
            ) implies false by {}
        }
        return None;
    }
    let n64 = t[0];
    if n64 > usize::MAX as u64 {
        proof {
            assert forall|es: Seq<(Seq<char>, u64)>| count_sizes_ok(es) && b@ == bytes_of(
                completion_tokens(es),
            ) implies false by {
                lemma_dec_counts_bound(t@, 1, es.len() as int);
            }
        }
        return None;
    }
    let raw = match count_items_at(&t, 1, n64 as usize) {
        Some(pair) => pair.0,
        None => {
            return None;
        },
    };
    match entries_from_codes(raw) {
        Some(entries) => Some(CompletionSnapshot { entries }),
        None => None,
    }
}

proof fn lemma_dec_counts_bound(t: Seq<u64>, p: int, n: int)
    requires
        dec_count_items(t, p, n) is Some,
    ensures
        p >= 0,
        p + n <= t.len(),
    decreases n,
{
    if n > 0 {
        let (w, p2) = dec_run(t, p)->Some_0;
        lemma_dec_counts_bound(t, p2 + 1, n - 1);
    }
}

/// Deserializes a predictor snapshot: bytes written by `encode_predictor`
/// come back exactly; other bytes may yield nothing.
pub fn decode_predictor(b: &Vec<u8>) -> (r: Option<PredictorSnapshot>)
    ensures
        forall|st: Seq<Seq<char>>, tb: Seq<Seq<char>>, c1: Seq<(u64, Seq<u64>)>, c2: Seq<
            (u64, Seq<u64>),
        >, tp: Seq<u64>|
            #![trigger predictor_tokens(st, tb, c1, c2, tp)]
            word_sizes_ok(st) && word_sizes_ok(tb) && chain_sizes_ok(c1) && chain_sizes_ok(c2)
                && tp.len() <= u64::MAX && b@ == bytes_of(predictor_tokens(st, tb, c1, c2, tp))
                ==> (r matches Some(ps) && strs(ps.starters@) == st && strs(ps.table@) == tb
                && chain_views(ps.chains1@) == c1 && chain_views(ps.chains2@) == c2
                && ps.top_words@ == tp),
{
    let ghost ok = |st: Seq<Seq<char>>, tb: Seq<Seq<char>>, c1: Seq<(u64, Seq<u64>)>, c2: Seq<
        (u64, Seq<u64>),
    >, tp: Seq<u64>|
        word_sizes_ok(st) && word_sizes_ok(tb) && chain_sizes_ok(c1) && chain_sizes_ok(c2)
            && tp.len() <= u64::MAX && b@ == bytes_of(predictor_tokens(st, tb, c1, c2, tp));
    let t = match bytes_to_tokens(b) {
        Some(t) => t,
        None => {
            proof {
                assert forall|st: Seq<Seq<char>>, tb: Seq<Seq<char>>, c1: Seq<(u64, Seq<u64>)>,
                    c2: Seq<(u64, Seq<u64>)>, tp: Seq<u64>|
                    #![trigger predictor_tokens(st, tb, c1, c2, tp)]
                    word_sizes_ok(st) && word_sizes_ok(tb) && chain_sizes_ok(c1)
                        && chain_sizes_ok(c2) && tp.len() <= u64::MAX && b@ == bytes_of(
                        predictor_tokens(st, tb, c1, c2, tp),
                    ) implies false by {
                    lemma_bytes_of_len(predictor_tokens(st, tb, c1, c2, tp));
                }
            }
            return None;
        },
    };
    proof {
        assert forall|st: Seq<Seq<char>>, tb: Seq<Seq<char>>, c1: Seq<(u64, Seq<u64>)>, c2: Seq<
            (u64, Seq<u64>),
        >, tp: Seq<u64>|
            #![trigger predictor_tokens(st, tb, c1, c2, tp)]
            word_sizes_ok(st) && word_sizes_ok(tb) && chain_sizes_ok(c1) && chain_sizes_ok(c2)
                && tp.len() <= u64::MAX && b@ == bytes_of(predictor_tokens(st, tb, c1, c2, tp))
            implies t@ == predictor_tokens(st, tb, c1, c2, tp) && dec_word_vec(t@, 0) == Some(
            (codes_of_all(st), strs_vec_tokens(st).len() as int),
        ) by {
            lemma_bytes_of_injective(t@, predictor_tokens(st, tb, c1, c2, tp));
            lemma_dec_predictor_head(t@, st, tb, c1, c2, tp);
        }
    }
    let (starters_raw, p1) = match word_vec_at(&t, 0) {
        Some(pair) => pair,
        None => {
            return None;
        },
    };
    proof {
        assert forall|st: Seq<Seq<char>>, tb: Seq<Seq<char>>, c1: Seq<(u64, Seq<u64>)>, c2: Seq<
            (u64, Seq<u64>),
        >, tp: Seq<u64>|
            #![trigger predictor_tokens(st, tb, c1, c2, tp)]
            word_sizes_ok(st) && word_sizes_ok(tb) && chain_sizes_ok(c1) && chain_sizes_ok(c2)
                && tp.len() <= u64::MAX && b@ == bytes_of(predictor_tokens(st, tb, c1, c2, tp))
            implies run_views(starters_raw@) == codes_of_all(st) && p1
            == strs_vec_tokens(st).len() && dec_word_vec(t@, p1 as int) == Some(
            (codes_of_all(tb), p1 + strs_vec_tokens(tb).len()),
        ) by {
            lemma_dec_predictor_head(t@, st, tb, c1, c2, tp);
        }
    }
    let (table_raw, p2) = match word_vec_at(&t, p1) {
        Some(pair) => pair,
        None => {
            return None;
        },
    };
    proof {
        assert forall|st: Seq<Seq<char>>, tb: Seq<Seq<char>>, c1: Seq<(u64, Seq<u64>)>, c2: Seq<
            (u64, Seq<u64>),
        >, tp: Seq<u64>|
            #![trigger predictor_tokens(st, tb, c1, c2, tp)]
            word_sizes_ok(st) && word_sizes_ok(tb) && chain_sizes_ok(c1) && chain_sizes_ok(c2)
                && tp.len() <= u64::MAX && b@ == bytes_of(predictor_tokens(st, tb, c1, c2, tp))
            implies run_views(table_raw@) == codes_of_all(tb) && p2 == strs_vec_tokens(st).len()
            + strs_vec_tokens(tb).len() && dec_chain_vec(t@, p2 as int) == Some(
            (c1, p2 + chain_vec_tokens(c1).len()),
        ) by {
            lemma_dec_predictor_head(t@, st, tb, c1, c2, tp);
        }
    }
    let (chains1, p3) = match chain_vec_at(&t, p2) {
        Some(pair) => pair,
        None => {
            return None;
        },
    };
    proof {
        assert forall|st: Seq<Seq<char>>, tb: Seq<Seq<char>>, c1: Seq<(u64, Seq<u64>)>, c2: Seq<
            (u64, Seq<u64>),
        >, tp: Seq<u64>|
            #![trigger predictor_tokens(st, tb, c1, c2, tp)]
            word_sizes_ok(st) && word_sizes_ok(tb) && chain_sizes_ok(c1) && chain_sizes_ok(c2)
                && tp.len() <= u64::MAX && b@ == bytes_of(predictor_tokens(st, tb, c1, c2, tp))
            implies chain_views(chains1@) == c1 && p3 == strs_vec_tokens(st).len()
            + strs_vec_tokens(tb).len() + chain_vec_tokens(c1).len() && dec_chain_vec(
            t@,
            p3 as int,
        ) == Some((c2, p3 + chain_vec_tokens(c2).len())) by {
            lemma_dec_predictor_head(t@, st, tb, c1, c2, tp);
        }
    }
    let (chains2, p4) = match chain_vec_at(&t, p3) {
        Some(pair) => pair,
        None => {
            return None;
        },
    };
    proof {
        assert forall|st: Seq<Seq<char>>, tb: Seq<Seq<char>>, c1: Seq<(u64, Seq<u64>)>, c2: Seq<
            (u64, Seq<u64>),
        >, tp: Seq<u64>|
            #![trigger predictor_tokens(st, tb, c1, c2, tp)]
            word_sizes_ok(st) && word_sizes_ok(tb) && chain_sizes_ok(c1) && chain_sizes_ok(c2)
                && tp.len() <= u64::MAX && b@ == bytes_of(predictor_tokens(st, tb, c1, c2, tp))
            implies chain_views(chains2@) == c2 && p4 == strs_vec_tokens(st).len()
            + strs_vec_tokens(tb).len() + chain_vec_tokens(c1).len()
            + chain_vec_tokens(c2).len() && dec_run(t@, p4 as int) == Some(
            (tp, p4 + 1 + tp.len()),
        ) by {
            lemma_dec_predictor_head(t@, st, tb, c1, c2, tp);
        }
    }
    let (top_words, _p5) = match run_at(&t, p4) {
        Some(pair) => pair,
        None => {
            return None;
        },
    };
    let starters = match strings_from_codes(&starters_raw) {
        Some(v) => v,
        None => {
            return None;
        },
    };
    let table = match strings_from_codes(&table_raw) {
        Some(v) => v,
        None => {
            return None;
        },
    };
    Some(PredictorSnapshot { starters, table, chains1, chains2, top_words })
}

/// Where each field of an encoded predictor snapshot stands in the tokens.
#[verifier::rlimit(80)]
proof fn lemma_dec_predictor_head(
    t: Seq<u64>,
    st: Seq<Seq<char>>,
    tb: Seq<Seq<char>>,
    c1: Seq<(u64, Seq<u64>)>,
    c2: Seq<(u64, Seq<u64>)>,
    tp: Seq<u64>,
)
    requires
        word_sizes_ok(st),
        word_sizes_ok(tb),
        chain_sizes_ok(c1),
        chain_sizes_ok(c2),
        tp.len() <= u64::MAX,
        t == predictor_tokens(st, tb, c1, c2, tp),
    ensures
        dec_word_vec(t, 0) == Some((codes_of_all(st), strs_vec_tokens(st).len() as int)),
        dec_word_vec(t, strs_vec_tokens(st).len() as int) == Some(
            (codes_of_all(tb), strs_vec_tokens(st).len() as int + strs_vec_tokens(tb).len() as int),
        ),
        dec_chain_vec(t, strs_vec_tokens(st).len() as int + strs_vec_tokens(tb).len() as int)
            == Some(
            (
                c1,
                strs_vec_tokens(st).len() as int + strs_vec_tokens(tb).len() as int
                    + chain_vec_tokens(c1).len() as int,
            ),
        ),
        dec_chain_vec(
            t,
            strs_vec_tokens(st).len() as int + strs_vec_tokens(tb).len() as int
                + chain_vec_tokens(c1).len() as int,
        ) == Some(
            (
                c2,
                strs_vec_tokens(st).len() as int + strs_vec_tokens(tb).len() as int
                    + chain_vec_tokens(c1).len() as int + chain_vec_tokens(c2).len() as int,
            ),
        ),
        dec_run(
            t,
            strs_vec_tokens(st).len() as int + strs_vec_tokens(tb).len() as int
                + chain_vec_tokens(c1).len() as int + chain_vec_tokens(c2).len() as int,
        ) == Some((tp, t.len() as int)),
{
    let a1 = strs_vec_tokens(st);
    let a2 = strs_vec_tokens(tb);
    let a3 = chain_vec_tokens(c1);
    let a4 = chain_vec_tokens(c2);
    let a5 = ids_tokens(tp);
    assert(t =~= a1 + (a2 + (a3 + (a4 + a5))));
    assert(t.subrange(0, t.len() as int) =~= t);
    lemma_subrange_shift(t, 0, a1, a2 + (a3 + (a4 + a5)));
    let p1 = a1.len() as int;
    lemma_subrange_shift(t, p1, a2, a3 + (a4 + a5));
    let p2 = p1 + a2.len();
    lemma_subrange_shift(t, p2, a3, a4 + a5);
    let p3 = p2 + a3.len();
    lemma_subrange_shift(t, p3, a4, a5);
    let p4 = p3 + a4.len();
    // starters
    assert(a1 =~= seq![st.len() as u64] + strs_tokens(st));
    lemma_subrange_shift(t, 0, seq![st.len() as u64], strs_tokens(st));
    assert(t[0] == t.subrange(0, 1)[0]);
    lemma_dec_words_enc(t, 1, st);
    // table
    assert(a2 =~= seq![tb.len() as u64] + strs_tokens(tb));
    lemma_subrange_shift(t, p1, seq![tb.len() as u64], strs_tokens(tb));
    assert(t[p1] == t.subrange(p1, p1 + 1)[0]);
    lemma_dec_words_enc(t, p1 + 1, tb);
    // unigram chain
    assert(a3 =~= seq![c1.len() as u64] + chain_tokens(c1));
    lemma_subrange_shift(t, p2, seq![c1.len() as u64], chain_tokens(c1));
    assert(t[p2] == t.subrange(p2, p2 + 1)[0]);
    lemma_dec_chain_enc(t, p2 + 1, c1);
    // bigram chain
    assert(a4 =~= seq![c2.len() as u64] + chain_tokens(c2));
    lemma_subrange_shift(t, p3, seq![c2.len() as u64], chain_tokens(c2));
    assert(t[p3] == t.subrange(p3, p3 + 1)[0]);
    lemma_dec_chain_enc(t, p3 + 1, c2);
    // suppressed words
    lemma_dec_run_enc(t, p4, tp);
}


/// The mapping a list of entries restores: later entries win.
pub open spec fn entries_map(es: Seq<(Seq<char>, u64)>) -> Map<Seq<char>, u64>
    decreases es.len(),
{
    if es.len() == 0 {
        Map::empty()
    } else {
        entries_map(es.drop_last()).insert(es.last().0, es.last().1)
    }
}

/// Entries that list a mapping exactly once each restore that mapping.
pub proof fn lemma_entries_restore(es: Seq<(Seq<char>, u64)>, m: Map<Seq<char>, u64>)
    requires
        forall|i: int| 0 <= i < es.len() ==> m.contains_key((#[trigger] es[i]).0) && es[i].1
            == m[es[i].0],
        forall|w: Seq<char>| #[trigger] m.contains_key(w) ==> exists|i: int| 0 <= i < es.len()
            && (#[trigger] es[i]).0 == w,
        forall|i: int, j: int| 0 <= i < j < es.len() ==> es[i].0 != es[j].0,
    ensures
        entries_map(es) == m,
    decreases es.len(),
{
    if es.len() == 0 {
        assert forall|w: Seq<char>| !m.contains_key(w) by {
            if m.contains_key(w) {
                let i = choose|i: int| 0 <= i < es.len() && (#[trigger] es[i]).0 == w;
            }
        }
        assert(entries_map(es) =~= m);
    } else {
        let last = es.last();
        let front = es.drop_last();
        let m2 = m.remove(last.0);
        assert forall|i: int| 0 <= i < front.len() implies m2.contains_key((#[trigger] front[i]).0)
            && front[i].1 == m2[front[i].0] by {
            assert(front[i] == es[i]);
            assert(es[i].0 != last.0);
        }
        assert forall|w: Seq<char>| #[trigger] m2.contains_key(w) implies exists|i: int| 0 <= i
            < front.len() && (#[trigger] front[i]).0 == w by {
            assert(m.contains_key(w));
            let i = choose|i: int| 0 <= i < es.len() && (#[trigger] es[i]).0 == w;
            assert(w != last.0);
            assert(i < es.len() - 1);
            assert(front[i].0 == w);
        }
        lemma_entries_restore(front, m2);
        assert(m.contains_key(last.0) && m[last.0] == last.1) by {
            assert(es[es.len() - 1] == last);
        }
        assert(entries_map(es) =~= m);
    }
}

} // verus!
