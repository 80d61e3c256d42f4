//! N-gram chain model: for chain lengths one and two, maps the identifiers
//! of the preceding words to a frequency-ranked list of following words,
//! with sentence starters and the most frequent words overall.

use vstd::prelude::*;
use std::collections::HashMap;
use crate::interner::Interner;
use crate::interner::interner_words;
use crate::interner::interner_capacity;
use crate::freq::FreqTable;
use crate::freq::ChainAcc;
use crate::freq::bump_spec;
use crate::freq::chain_bump;
use crate::correction::strs;
use crate::corpus::split_words_spec;
use crate::corpus::split_to_words;
use crate::sort::sort_pairs;
use crate::sort::pair_le;
use crate::sort::lemma_filter_append;
use crate::snapshot::PredictorSnapshot;
use crate::snapshot::chain_views;

verus! {

broadcast use vstd::std_specs::hash::group_hash_axioms;

/// A bigram chain key: the first identifier in the upper half, the second in
/// the lower. Exact because identifiers stay below 2^32.
pub open spec fn enc2(a: u64, b: u64) -> u64 {
    (a * 0x1_0000_0000 + b) as u64
}

/// A successor list ranked by descending count, ties by descending
/// identifier: it lists the counted successors exactly once each.
pub open spec fn is_ranking(r: Seq<u64>, m: Map<u64, u64>) -> bool {
    &&& r.no_duplicates()
    &&& (forall|id: u64| r.contains(id) <==> m.contains_key(id))
    &&& (forall|i: int, j: int| 0 <= i < j < r.len()
        ==> m[r[i]] > m[r[j]] || (m[r[i]] == m[r[j]] && r[i] > r[j]))
}

/// Whether a successor set has more than one distinct member.
pub open spec fn two_successors(m: Map<u64, u64>) -> bool {
    exists|a: u64, b: u64| a != b && m.contains_key(a) && m.contains_key(b)
}

/// The interner table after interning each word of a sentence in order.
pub open spec fn table_after(table: Seq<Seq<char>>, ws: Seq<Seq<char>>) -> Seq<Seq<char>>
    decreases ws.len(),
{
    if ws.len() == 0 {
        table
    } else {
        let t2 = if table.contains(ws[0]) {
            table
        } else {
            table.push(ws[0])
        };
        table_after(t2, ws.drop_first())
    }
}

/// The identifiers a sentence's words receive, starting from a table.
pub open spec fn ids_of(table: Seq<Seq<char>>, ws: Seq<Seq<char>>) -> Seq<u64>
    decreases ws.len(),
{
    if ws.len() == 0 {
        Seq::empty()
    } else {
        let id: u64 = if table.contains(ws[0]) {
            table.index_of(ws[0]) as u64
        } else {
            table.len() as u64
        };
        let t2 = if table.contains(ws[0]) {
            table
        } else {
            table.push(ws[0])
        };
        seq![id] + ids_of(t2, ws.drop_first())
    }
}

/// Every window of a sentence's identifiers counted, for one chain length,
/// from position `p` on: the `l` identifiers before each position form the
/// key, the identifier at it the successor.
pub open spec fn scan_chain(m: Map<u64, Map<u64, u64>>, ids: Seq<u64>, l: int, p: int) -> Map<
    u64,
    Map<u64, u64>,
>
    decreases ids.len() - p,
{
    if l < 1 || p < 0 || p + l >= ids.len() {
        m
    } else {
        let key = if l == 1 {
            ids[p]
        } else {
            enc2(ids[p], ids[p + 1])
        };
        scan_chain(chain_bump(m, key, ids[p + l]), ids, l, p + 1)
    }
}

/// Every identifier of a sentence counted once, from position `p` on.
pub open spec fn bump_ids(m: Map<u64, u64>, ids: Seq<u64>, p: int) -> Map<u64, u64>
    decreases ids.len() - p,
{
    if p < 0 || p >= ids.len() {
        m
    } else {
        bump_ids(bump_spec(m, ids[p]), ids, p + 1)
    }
}

/// The scan state: interner table, unigram chains, bigram chains, word
/// totals, sentence-starter totals.
pub type ScanState = (
    Seq<Seq<char>>,
    Map<u64, Map<u64, u64>>,
    Map<u64, Map<u64, u64>>,
    Map<u64, u64>,
    Map<u64, u64>,
);

/// Nothing scanned yet.
pub open spec fn empty_state() -> ScanState {
    (
        Seq::empty(),
        Map::empty(),
        Map::empty(),
        Map::empty(),
        Map::empty(),
    )
}

/// One nonempty sentence scanned: its words interned, every window of both
/// chain lengths counted, every word counted, its first word counted as a
/// sentence starter.
pub open spec fn scan_sentence(st: ScanState, ws: Seq<Seq<char>>) -> ScanState {
    let ids = ids_of(st.0, ws);
    (
        table_after(st.0, ws),
        scan_chain(st.1, ids, 1, 0),
        scan_chain(st.2, ids, 2, 0),
        bump_ids(st.3, ids, 0),
        bump_spec(st.4, ids[0]),
    )
}

/// The tokenized sentences scanned in order, from index `i` on.
pub open spec fn scan_from(st: ScanState, sents: Seq<Seq<Seq<char>>>, i: int) -> ScanState
    decreases sents.len() - i,
{
    if i < 0 || i >= sents.len() {
        st
    } else {
        scan_from(scan_sentence(st, sents[i]), sents, i + 1)
    }
}

/// The sentences as word-token sequences, empty ones dropped.
pub open spec fn tokenized(raw: Seq<Seq<char>>) -> Seq<Seq<Seq<char>>> {
    raw.map_values(|s: Seq<char>| split_words_spec(s)).filter(|ws: Seq<Seq<char>>| ws.len() > 0)
}

/// The whole statistics scan of a corpus given as raw sentence strings.
pub open spec fn corpus_scan(raw: Seq<Seq<char>>) -> ScanState {
    scan_from(empty_state(), tokenized(raw), 0)
}

/// The number of word tokens over all tokenized sentences.
pub open spec fn total_tokens(sents: Seq<Seq<Seq<char>>>) -> nat
    decreases sents.len(),
{
    if sents.len() == 0 {
        0
    } else {
        sents[0].len() + total_tokens(sents.drop_first())
    }
}

/// The chain model served after the build: ranked successor lists for both
/// chain lengths, the ranked sentence starters, and the suppressed most
/// frequent words.
pub struct ChainModel {
    interner: Interner,
    chains1: HashMap<u64, Vec<u64>>,
    chains2: HashMap<u64, Vec<u64>>,
    chains1_keys: Vec<u64>,
    chains2_keys: Vec<u64>,
    starters: Vec<String>,
    top_words: Vec<u64>,
}

impl ChainModel {
    /// The interned words, ordered by identifier.
    pub closed spec fn table(self) -> Seq<Seq<char>> {
        interner_words(self.interner)
    }

    /// The unigram chain: word identifier to ranked successor identifiers.
    pub closed spec fn view1(self) -> Map<u64, Vec<u64>> {
        self.chains1@
    }

    /// The bigram chain: encoded identifier pair to ranked successors.
    pub closed spec fn view2(self) -> Map<u64, Vec<u64>> {
        self.chains2@
    }

    /// The ranked sentence starters, most frequent words removed.
    pub closed spec fn starters_seq(self) -> Seq<Seq<char>> {
        strs(self.starters@)
    }

    /// The identifiers of the suppressed most frequent words.
    pub closed spec fn top_seq(self) -> Seq<u64> {
        self.top_words@
    }

    /// The keys enumerating each chain map.
    pub closed spec fn keys1_seq(self) -> Seq<u64> {
        self.chains1_keys@
    }

    /// The keys enumerating each chain map.
    pub closed spec fn keys2_seq(self) -> Seq<u64> {
        self.chains2_keys@
    }

    /// Structural invariant: the table has no duplicate and fits the
    /// identifier space; every stored successor list is nonempty, duplicate
    /// free and names live identifiers; a bigram key is retained only with
    /// more than one distinct successor; the key lists enumerate the maps.
    pub closed spec fn wf(self) -> bool {
        &&& self.table().no_duplicates()
        &&& self.table().len() <= interner_capacity()
        &&& self.chains1_keys@.no_duplicates()
        &&& self.chains2_keys@.no_duplicates()
        &&& (forall|k: u64| self.chains1@.contains_key(k) <==> self.chains1_keys@.contains(k))
        &&& (forall|k: u64| self.chains2@.contains_key(k) <==> self.chains2_keys@.contains(k))
        &&& (forall|k: u64| self.chains1@.contains_key(k) ==> {
            let v = (#[trigger] self.chains1@[k])@;
            &&& v.len() >= 1
            &&& v.no_duplicates()
            &&& (forall|q: int| 0 <= q < v.len() ==> (#[trigger] v[q]) < self.table().len())
        })
        &&& (forall|k: u64| self.chains2@.contains_key(k) ==> {
            let v = (#[trigger] self.chains2@[k])@;
            &&& v.len() >= 2
            &&& v.no_duplicates()
            &&& (forall|q: int| 0 <= q < v.len() ==> (#[trigger] v[q]) < self.table().len())
        })
        &&& (forall|q: int| 0 <= q < self.top_words@.len()
            ==> (#[trigger] self.top_words@[q]) < self.table().len())
    }

    /// The ranked successors of a single trailing word, empty when the word
    /// was never seen or never followed.
    pub open spec fn lookup1(self, w: Seq<char>) -> Seq<u64> {
        if self.table().contains(w) {
            let id = self.table().index_of(w) as u64;
            if self.view1().contains_key(id) {
                self.view1()[id]@
            } else {
                Seq::empty()
            }
        } else {
            Seq::empty()
        }
    }

    /// The ranked successors of a trailing word pair, empty when a word was
    /// never seen or the pair was condensed away.
    pub open spec fn lookup2(self, a: Seq<char>, b: Seq<char>) -> Seq<u64> {
        if self.table().contains(a) && self.table().contains(b) {
            let key = enc2(self.table().index_of(a) as u64, self.table().index_of(b) as u64);
            if self.view2().contains_key(key) {
                self.view2()[key]@
            } else {
                Seq::empty()
            }
        } else {
            Seq::empty()
        }
    }

    /// The candidate successors of a context: the bigram key first, then the
    /// unigram key as the fallback.
    pub open spec fn candidates(self, context: Seq<Seq<char>>) -> Seq<u64> {
        (if context.len() >= 2 {
            self.lookup2(context[context.len() - 2], context[context.len() - 1])
        } else {
            Seq::empty()
        }) + self.lookup1(context.last())
    }

    /// What Predict returns on a nonempty context: the candidates with the
    /// most frequent words removed, resolved to words, cut to the limit.
    pub open spec fn predict_seq(self, context: Seq<Seq<char>>, limit: int) -> Seq<Seq<char>> {
        let table = self.table();
        let f = self.candidates(context).filter(|id: u64| !self.top_seq().contains(id))
            .map_values(|id: u64| table[id as int]);
        f.take(vstd::math::min(limit, f.len() as int))
    }

    /// Ranked predictions of the next word after the context, most frequent
    /// words suppressed, preferring the trailing two words and falling back
    /// to the trailing one; the sentence starters when the context is empty.
    pub fn predict(&self, context: &Vec<String>, limit: usize) -> (r: Vec<String>)
        requires
            self.wf(),
        ensures
            context@.len() == 0 ==> strs(r@) == self.starters_seq(),
            context@.len() >= 1 ==> strs(r@) == self.predict_seq(strs(context@), limit as int),
    {
        if context.len() == 0 {
            let mut r: Vec<String> = Vec::new();
            let mut i: usize = 0;
            while i < self.starters.len()
                invariant
                    i <= self.starters@.len(),
                    r@.len() == i,
                    forall|q: int| 0 <= q < i ==> r@[q]@ == strs(self.starters@)[q],
                decreases self.starters@.len() - i,
            {
                let s = self.starters[i].clone();
                r.push(s);
                i += 1;
            }
            proof {
                assert(strs(r@) =~= strs(self.starters@));
            }
            return r;
        }
        let ghost ctx = strs(context@);
        let mut cand: Vec<u64> = Vec::new();
        if context.len() >= 2 {
            let a = &context[context.len() - 2];
            let b = &context[context.len() - 1];
            proof {
                assert(ctx[ctx.len() - 2] == context@[context@.len() - 2]@);
                assert(ctx[ctx.len() - 1] == context@[context@.len() - 1]@);
            }
            let ida = self.interner.get(a.as_str());
            let idb = self.interner.get(b.as_str());
            match (ida, idb) {
                (Some(x), Some(y)) => {
                    proof {
                        lemma_index_of_unique(self.table(), ctx[ctx.len() - 2], x);
                        lemma_index_of_unique(self.table(), ctx[ctx.len() - 1], y);
                        assert(x < 0x1_0000_0000 && y < 0x1_0000_0000);
                    }
                    let key = x * 0x1_0000_0000 + y;
                    match self.chains2.get(&key) {
                        Some(v) => {
                            let mut copy = clone_ids(v);
                            proof {
                                assert(copy@ == self.lookup2(ctx[ctx.len() - 2], ctx[ctx.len() - 1]));
                            }
                            cand.append(&mut copy);
                        },
                        None => {
                            proof {
                                assert(self.lookup2(ctx[ctx.len() - 2], ctx[ctx.len() - 1])
                                    =~= Seq::<u64>::empty());
                            }
                        },
                    }
                },
                _ => {
                    proof {
                        assert(self.lookup2(ctx[ctx.len() - 2], ctx[ctx.len() - 1])
                            =~= Seq::<u64>::empty());
                    }
                },
            }
            proof {
                assert(cand@ =~= self.lookup2(ctx[ctx.len() - 2], ctx[ctx.len() - 1]));
            }
        }
        let ghost head = cand@;
        let last = &context[context.len() - 1];
        proof {
            assert(ctx.last() == context@[context@.len() - 1]@);
        }
        match self.interner.get(last.as_str()) {
            Some(x) => {
                proof {
                    lemma_index_of_unique(self.table(), ctx.last(), x);
                }
                match self.chains1.get(&x) {
                    Some(v) => {
                        let mut copy = clone_ids(v);
                        proof {
                            assert(copy@ == self.lookup1(ctx.last()));
                        }
                        cand.append(&mut copy);
                    },
                    None => {
                        proof {
                            assert(self.lookup1(ctx.last()) =~= Seq::<u64>::empty());
                            assert(cand@ =~= head + self.lookup1(ctx.last()));
                        }
                    },
                }
            },
            None => {
                proof {
                    assert(self.lookup1(ctx.last()) =~= Seq::<u64>::empty());
                    assert(cand@ =~= head + self.lookup1(ctx.last()));
                }
            },
        }
        proof {
            assert(cand@ == self.candidates(ctx));
            assert(forall|q: int| 0 <= q < cand@.len()
                ==> (#[trigger] cand@[q]) < self.table().len());
        }
        // filter the most frequent words out and resolve, up to the limit
        let ghost pred = |id: u64| !self.top_seq().contains(id);
        let ghost table = self.table();
        let mut out: Vec<String> = Vec::new();
        let mut i: usize = 0;
        proof {
            reveal(Seq::filter);
            assert(cand@.take(0).filter(pred) =~= Seq::<u64>::empty());
            assert(strs(out@) =~= cand@.take(0).filter(pred).map_values(
                |id: u64| table[id as int]));
        }
        while i < cand.len() && out.len() < limit
            invariant
                self.wf(),
                table == self.table(),
                pred == (|id: u64| !self.top_seq().contains(id)),
                i <= cand@.len(),
                forall|q: int| 0 <= q < cand@.len() ==> (#[trigger] cand@[q]) < table.len(),
                out@.len() <= limit,
                out@.len() == cand@.take(i as int).filter(pred).len(),
                strs(out@) == cand@.take(i as int).filter(pred).map_values(
                    |id: u64| table[id as int]),
            decreases cand@.len() - i,
        {
            let id = cand[i];
            let suppressed = contains_id(&self.top_words, id);
            proof {
                reveal(Seq::filter);
                let t = cand@.take(i + 1);
                assert(t.drop_last() =~= cand@.take(i as int));
                assert(t.last() == cand@[i as int]);
                assert(pred(id) == !suppressed);
            }
            if !suppressed {
                let w = self.interner.resolve(id);
                proof {
                    crate::correction::lemma_strs_push(out@, w);
                    assert(cand@.take(i + 1).filter(pred)
                        == cand@.take(i as int).filter(pred).push(id));
                    assert(cand@.take(i + 1).filter(pred).map_values(|id2: u64| table[id2 as int])
                        =~= cand@.take(i as int).filter(pred).map_values(
                            |id2: u64| table[id2 as int]).push(table[id as int]));
                }
                out.push(w);
            }
            i += 1;
        }
        proof {
            let ff = cand@.filter(pred);
            let f = ff.map_values(|id2: u64| table[id2 as int]);
            if i == cand@.len() {
                assert(cand@.take(i as int) =~= cand@);
                assert(f.len() <= limit);
                assert(f.take(vstd::math::min(limit as int, f.len() as int)) =~= f);
            } else {
                assert(out@.len() == limit);
                lemma_filter_append(cand@.take(i as int), cand@.skip(i as int), pred);
                assert(cand@.take(i as int) + cand@.skip(i as int) =~= cand@);
                let fi = cand@.take(i as int).filter(pred);
                assert(fi.len() == limit);
                assert(fi =~= ff.take(limit as int));
                assert(fi.map_values(|id2: u64| table[id2 as int])
                    =~= f.take(vstd::math::min(limit as int, f.len() as int)));
            }
        }
        out
    }
}

/// In a duplicate-free table, an identifier pointing at a word is the word's
/// index.
pub proof fn lemma_index_of_unique(table: Seq<Seq<char>>, w: Seq<char>, id: u64)
    requires
        table.no_duplicates(),
        id < table.len(),
        table[id as int] == w,
    ensures
        table.contains(w),
        table.index_of(w) == id as int,
{
    assert(table.contains(w));
    let j = table.index_of(w);
    assert(table[j] == w);
}

/// Copies a stored successor list.
fn clone_ids(v: &Vec<u64>) -> (r: Vec<u64>)
    ensures
        r@ == v@,
{
    let mut r: Vec<u64> = Vec::new();
    let mut i: usize = 0;
    while i < v.len()
        invariant
            i <= v@.len(),
            r@ == v@.take(i as int),
        decreases v@.len() - i,
    {
        r.push(v[i]);
        proof {
            assert(v@.take(i + 1) =~= v@.take(i as int).push(v@[i as int]));
        }
        i += 1;
    }
    proof {
        assert(v@.take(v@.len() as int) =~= v@);
    }
    r
}

/// Whether an identifier stands in a list.
pub fn contains_id(v: &Vec<u64>, id: u64) -> (r: bool)
    ensures
        r == v@.contains(id),
{
    let mut i: usize = 0;
    while i < v.len()
        invariant
            i <= v@.len(),
            forall|q: int| 0 <= q < i ==> v@[q] != id,
        decreases v@.len() - i,
    {
        if v[i] == id {
            return true;
        }
        i += 1;
    }
    false
}

/// Condensation invariant: every retained bigram chain key keeps a successor
/// set of more than one distinct member.
pub proof fn lemma_condensation(m: ChainModel, k: u64)
    requires
        m.wf(),
        m.view2().contains_key(k),
    ensures
        m.view2()[k]@.len() >= 2,
        m.view2()[k]@.no_duplicates(),
        m.view2()[k]@[0] != m.view2()[k]@[1],
{
}

/// Fallback ordering: on a context whose bigram key is absent, Predict
/// returns exactly what it returns on the trailing single word alone.
pub proof fn lemma_fallback_ordering(m: ChainModel, context: Seq<Seq<char>>, limit: int)
    requires
        m.wf(),
        context.len() >= 1,
        context.len() >= 2 ==> m.lookup2(context[context.len() - 2], context[context.len() - 1])
            == Seq::<u64>::empty(),
    ensures
        m.predict_seq(context, limit) == m.predict_seq(seq![context.last()], limit),
{
    let single = seq![context.last()];
    assert(single.last() == context.last());
    if context.len() >= 2 {
        assert(m.candidates(context) =~= m.lookup1(context.last()));
    } else {
        assert(m.candidates(context) =~= m.lookup1(context.last()));
    }
    assert(m.candidates(single) =~= m.lookup1(context.last()));
}


/// Every count in a table is at most `b`.
pub open spec fn all_le(m: Map<u64, u64>, b: int) -> bool {
    forall|k: u64| #[trigger] m.contains_key(k) ==> m[k] <= b
}

/// Every key in a table lies below `b`.
pub open spec fn keys_below(m: Map<u64, u64>, b: int) -> bool {
    forall|k: u64| #[trigger] m.contains_key(k) ==> k < b
}

/// Every successor count in a chain is at most `b`.
pub open spec fn chain_le(m: Map<u64, Map<u64, u64>>, b: int) -> bool {
    forall|k: u64| m.contains_key(k) ==> all_le(#[trigger] m[k], b)
}

/// Every successor identifier in a chain lies below `b`.
pub open spec fn succs_below(m: Map<u64, Map<u64, u64>>, b: int) -> bool {
    forall|k: u64| m.contains_key(k) ==> keys_below(#[trigger] m[k], b)
}

proof fn lemma_bump_le(m: Map<u64, u64>, k: u64, b: int)
    requires
        b >= 0,
        all_le(m, b),
    ensures
        all_le(bump_spec(m, k), b + 1),
{
    assert forall|k2: u64| #[trigger] bump_spec(m, k).contains_key(k2)
        implies bump_spec(m, k)[k2] <= b + 1 by {
        if k2 != k {
            assert(m.contains_key(k2));
        } else {
            if m.contains_key(k) {
                assert(m[k] <= b);
            }
        }
    }
}

proof fn lemma_chain_bump_le(m: Map<u64, Map<u64, u64>>, k: u64, s: u64, b: int)
    requires
        b >= 0,
        chain_le(m, b),
    ensures
        chain_le(chain_bump(m, k, s), b + 1),
{
    let inner = if m.contains_key(k) { m[k] } else { Map::<u64, u64>::empty() };
    assert(all_le(inner, b));
    lemma_bump_le(inner, s, b);
    assert forall|k2: u64| chain_bump(m, k, s).contains_key(k2)
        implies all_le(#[trigger] chain_bump(m, k, s)[k2], b + 1) by {
        if k2 == k {
        } else {
            assert(m.contains_key(k2));
            assert(all_le(m[k2], b));
            assert forall|q: u64| #[trigger] m[k2].contains_key(q)
                implies m[k2][q] <= b + 1 by {}
        }
    }
}

proof fn lemma_chain_bump_succs(m: Map<u64, Map<u64, u64>>, k: u64, s: u64, b: int)
    requires
        succs_below(m, b),
        s < b,
    ensures
        succs_below(chain_bump(m, k, s), b),
{
    let inner = if m.contains_key(k) { m[k] } else { Map::<u64, u64>::empty() };
    assert(keys_below(inner, b));
    assert forall|k2: u64| chain_bump(m, k, s).contains_key(k2)
        implies keys_below(#[trigger] chain_bump(m, k, s)[k2], b) by {
        if k2 == k {
            assert forall|q: u64| #[trigger] bump_spec(inner, s).contains_key(q)
                implies q < b by {
                if q != s {
                    assert(inner.contains_key(q));
                }
            }
        } else {
            assert(m.contains_key(k2));
        }
    }
}

/// Scanning one more sentence after a prefix scans the extended prefix.
proof fn lemma_scan_push(st: ScanState, sents: Seq<Seq<Seq<char>>>, x: Seq<Seq<char>>, i: int)
    requires
        0 <= i <= sents.len(),
    ensures
        scan_from(st, sents.push(x), i) == scan_sentence(scan_from(st, sents, i), x),
    decreases sents.len() - i,
{
    if i == sents.len() {
        assert(scan_from(st, sents.push(x), i)
            == scan_from(scan_sentence(st, sents.push(x)[i]), sents.push(x), i + 1));
        assert(sents.push(x)[i] == x);
    } else {
        assert(sents.push(x)[i] == sents[i]);
        lemma_scan_push(scan_sentence(st, sents[i]), sents, x, i + 1);
    }
}

/// Token totals add over concatenation.
proof fn lemma_total_tokens_append(a: Seq<Seq<Seq<char>>>, b: Seq<Seq<Seq<char>>>)
    ensures
        total_tokens(a + b) == total_tokens(a) + total_tokens(b),
    decreases a.len(),
{
    if a.len() == 0 {
        assert(a + b =~= b);
    } else {
        assert((a + b)[0] == a[0]);
        assert((a + b).drop_first() =~= a.drop_first() + b);
        lemma_total_tokens_append(a.drop_first(), b);
    }
}

/// A prefix of the tokenized corpus carries at most the whole token total.
proof fn lemma_total_tokens_prefix(s: Seq<Seq<Seq<char>>>, j: int)
    requires
        0 <= j <= s.len(),
    ensures
        total_tokens(s.take(j)) <= total_tokens(s),
        j < s.len() ==> total_tokens(s.take(j)) + s[j].len() <= total_tokens(s),
{
    assert(s =~= s.take(j) + s.skip(j));
    lemma_total_tokens_append(s.take(j), s.skip(j));
    if j < s.len() {
        assert(s.skip(j)[0] == s[j]);
        assert(total_tokens(s.skip(j)) == s[j].len() + total_tokens(s.skip(j).drop_first()));
    }
}

/// Interns each word of a sentence in order, returning their identifiers.
fn intern_all(it: &mut Interner, words: &Vec<String>) -> (ids: Vec<u64>)
    requires
        interner_words(*old(it)).no_duplicates(),
        interner_words(*old(it)).len() + words@.len() <= interner_capacity(),
    ensures
        interner_words(*final(it)) == table_after(interner_words(*old(it)), strs(words@)),
        interner_words(*final(it)).no_duplicates(),
        interner_words(*old(it)).len() <= interner_words(*final(it)).len(),
        interner_words(*final(it)).len() <= interner_words(*old(it)).len() + words@.len(),
        ids@ == ids_of(interner_words(*old(it)), strs(words@)),
        ids@.len() == words@.len(),
        forall|q: int| 0 <= q < ids@.len()
            ==> (#[trigger] ids@[q]) < interner_words(*final(it)).len(),
{
    let ghost t0 = interner_words(*it);
    let ghost ws = strs(words@);
    let mut ids: Vec<u64> = Vec::new();
    let mut i: usize = 0;
    proof {
        assert(ws.skip(0) =~= ws);
    }
    while i < words.len()
        invariant
            ws == strs(words@),
            i <= ws.len(),
            t0.len() + ws.len() <= interner_capacity(),
            interner_words(*it).no_duplicates(),
            t0.len() <= interner_words(*it).len(),
            interner_words(*it).len() <= t0.len() + i,
            table_after(t0, ws) == table_after(interner_words(*it), ws.skip(i as int)),
            ids_of(t0, ws) == ids@ + ids_of(interner_words(*it), ws.skip(i as int)),
            ids@.len() == i,
            forall|q: int| 0 <= q < i ==> (#[trigger] ids@[q]) < interner_words(*it).len(),
        decreases ws.len() - i,
    {
        let ghost cur = interner_words(*it);
        let ghost rest = ws.skip(i as int);
        let w = &words[i];
        proof {
            assert(rest[0] == ws[i as int]);
            assert(ws[i as int] == words@[i as int]@);
            assert(rest.drop_first() =~= ws.skip(i + 1));
        }
        let id = it.get_or_intern(w.as_str());
        proof {
            if cur.contains(w@) {
                lemma_index_of_unique(cur, w@, id);
                assert(ids_of(cur, rest)
                    == seq![id] + ids_of(interner_words(*it), rest.drop_first()));
            } else {
                assert(interner_words(*it) == cur.push(w@));
                assert(interner_words(*it).no_duplicates()) by {
                    assert forall|x: int, y: int| 0 <= x < y < interner_words(*it).len()
                        implies interner_words(*it)[x] != interner_words(*it)[y] by {
                        if y == interner_words(*it).len() - 1 {
                            assert(interner_words(*it)[x] == cur[x]);
                            assert(cur.contains(cur[x]));
                        }
                    }
                }
                assert(ids_of(cur, rest)
                    == seq![id] + ids_of(interner_words(*it), rest.drop_first()));
            }
            assert(ids@ + ids_of(cur, rest)
                =~= ids@.push(id) + ids_of(interner_words(*it), ws.skip(i + 1)));
            assert(table_after(cur, rest) == table_after(interner_words(*it), ws.skip(i + 1)));
        }
        ids.push(id);
        i += 1;
    }
    proof {
        assert(ws.skip(ws.len() as int) =~= Seq::<Seq<char>>::empty());
        assert(ids_of(interner_words(*it), ws.skip(ws.len() as int)) == Seq::<u64>::empty());
        assert(ids@ + Seq::<u64>::empty() =~= ids@);
        assert(ids_of(t0, ws) == ids@);
    }
    ids
}

/// Ranks the counted keys of a table: descending by count, ties broken by
/// descending key.
fn rank_desc(t: &FreqTable) -> (r: Vec<u64>)
    requires
        t.wf(),
    ensures
        is_ranking(r@, t@),
{
    let order = t.keys();
    let n = order.len();
    let mut pairs: Vec<(u64, u64)> = Vec::new();
    let mut i: usize = 0;
    while i < n
        invariant
            t.wf(),
            order@ == t.order_seq(),
            n == order@.len(),
            i <= n,
            pairs@.len() == i,
            forall|q: int| 0 <= q < i
                ==> #[trigger] pairs@[q] == (t@[order@[q]], order@[q]),
        decreases n - i,
    {
        let k = order[i];
        proof {
            assert(t.order_seq().contains(order@[i as int]));
            assert(t@.contains_key(k));
        }
        let c = t.get(k);
        pairs.push((c, k));
        i += 1;
    }
    let sorted = sort_pairs(&pairs);
    let mut r: Vec<u64> = Vec::new();
    let mut i: usize = 0;
    proof {
        broadcast use vstd::seq_lib::group_to_multiset_ensures;
    }
    while i < n
        invariant
            t.wf(),
            order@ == t.order_seq(),
            n == order@.len(),
            i <= n,
            pairs@.len() == n,
            sorted@.len() == n,
            sorted@.to_multiset() == pairs@.to_multiset(),
            crate::sort::pairs_sorted(sorted@),
            forall|q: int| 0 <= q < n
                ==> #[trigger] pairs@[q] == (t@[order@[q]], order@[q]),
            r@.len() == i,
            forall|q: int| 0 <= q < i ==> #[trigger] r@[q] == sorted@[n - 1 - q].1,
        decreases n - i,
    {
        let x = sorted[n - 1 - i];
        r.push(x.1);
        i += 1;
    }
    proof {
        broadcast use vstd::seq_lib::group_to_multiset_ensures;
        let ss = sorted@;
        let os = t.order_seq();
        // each sorted pair restates one counted key with its count
        assert forall|q: int| 0 <= q < n implies t@.contains_key((#[trigger] ss[q]).1)
            && ss[q].0 == t@[ss[q].1] by {
            assert(ss.contains(ss[q]));
            assert(ss.to_multiset().count(ss[q]) > 0);
            assert(pairs@.to_multiset().count(ss[q]) > 0);
            assert(pairs@.contains(ss[q]));
            let k = choose|k: int| 0 <= k < pairs@.len() && pairs@[k] == ss[q];
            assert(os.contains(os[k]));
        }
        assert(pairs@.no_duplicates()) by {
            assert forall|a: int, b: int| 0 <= a < b < pairs@.len()
                implies pairs@[a] != pairs@[b] by {
                assert(os[a] != os[b]);
            }
        }
        pairs@.lemma_multiset_has_no_duplicates();
        // distinct sorted positions carry distinct pairs, hence distinct keys
        assert forall|a: int, b: int| 0 <= a < b < n implies ss[a].1 != ss[b].1 by {
            if ss[a].1 == ss[b].1 {
                assert(ss[a].0 == t@[ss[a].1] && ss[b].0 == t@[ss[b].1]);
                assert(ss[a] == ss[b]);
                let m1 = ss.remove(b);
                assert(m1[a] == ss[a]);
                assert(m1.contains(ss[a]));
                assert(m1.to_multiset().count(ss[a]) > 0);
                assert(ss.to_multiset().count(ss[a]) >= 2);
                assert(pairs@.to_multiset().count(ss[a]) >= 2);
                assert(false);
            }
        }
        assert(r@.no_duplicates()) by {
            assert forall|a: int, b: int| 0 <= a < b < r@.len()
                implies r@[a] != r@[b] by {
                assert(r@[a] == ss[n - 1 - a].1 && r@[b] == ss[n - 1 - b].1);
            }
        }
        // membership: ranked keys are exactly the counted keys
        assert forall|id: u64| r@.contains(id) implies t@.contains_key(id) by {
            let q = choose|q: int| 0 <= q < r@.len() && r@[q] == id;
            assert(t@.contains_key(ss[n - 1 - q].1));
        }
        assert forall|id: u64| t@.contains_key(id) implies r@.contains(id) by {
            assert(os.contains(id));
            let k = choose|k: int| 0 <= k < os.len() && os[k] == id;
            assert(pairs@[k] == (t@[id], id));
            assert(pairs@.contains(pairs@[k]));
            assert(pairs@.to_multiset().count(pairs@[k]) > 0);
            assert(ss.to_multiset().count(pairs@[k]) > 0);
            assert(ss.contains(pairs@[k]));
            let p = choose|p: int| 0 <= p < ss.len() && ss[p] == pairs@[k];
            assert(r@[n - 1 - p] == id);
            assert(r@.contains(id));
        }
        // order: reversed ascending lexicographic is the ranking order
        assert forall|a: int, b: int| 0 <= a < b < r@.len()
            implies t@[r@[a]] > t@[r@[b]] || (t@[r@[a]] == t@[r@[b]] && r@[a] > r@[b]) by {
            let pa = n - 1 - a;
            let pb = n - 1 - b;
            assert(pair_le(ss[pb], ss[pa]));
            assert(ss[pa].0 == t@[r@[a]] && ss[pb].0 == t@[r@[b]]);
            assert(ss[pa].1 != ss[pb].1);
        }
    }
    r
}


proof fn lemma_map_tok_add(a: Seq<Seq<char>>, b: Seq<Seq<char>>)
    ensures
        (a + b).map_values(|s: Seq<char>| split_words_spec(s))
            == a.map_values(|s: Seq<char>| split_words_spec(s))
                + b.map_values(|s: Seq<char>| split_words_spec(s)),
{
    let f = |s: Seq<char>| split_words_spec(s);
    assert forall|k: int| 0 <= k < a.len() + b.len()
        implies (a + b).map_values(f)[k] == (a.map_values(f) + b.map_values(f))[k] by {
        if k < a.len() {
            assert((a + b)[k] == a[k]);
        } else {
            assert((a + b)[k] == b[k - a.len()]);
        }
    }
    assert((a + b).map_values(f) =~= a.map_values(f) + b.map_values(f));
}

/// Tokenizing splits over concatenation.
proof fn lemma_tokenized_split(sv: Seq<Seq<char>>, i: int)
    requires
        0 <= i <= sv.len(),
    ensures
        tokenized(sv) == tokenized(sv.take(i)) + tokenized(sv.skip(i)),
{
    let f = |s: Seq<char>| split_words_spec(s);
    let p = |ws: Seq<Seq<char>>| ws.len() > 0;
    assert(sv =~= sv.take(i) + sv.skip(i));
    lemma_map_tok_add(sv.take(i), sv.skip(i));
    lemma_filter_append(sv.take(i).map_values(f), sv.skip(i).map_values(f), p);
}

/// Tokenizing one more sentence appends its tokens, or nothing when empty.
proof fn lemma_tokenized_snoc(sv: Seq<Seq<char>>, i: int)
    requires
        0 <= i < sv.len(),
    ensures
        tokenized(sv.take(i + 1)) == if split_words_spec(sv[i]).len() > 0 {
            tokenized(sv.take(i)).push(split_words_spec(sv[i]))
        } else {
            tokenized(sv.take(i))
        },
{
    let f = |s: Seq<char>| split_words_spec(s);
    let p = |ws: Seq<Seq<char>>| ws.len() > 0;
    reveal(Seq::filter);
    assert(sv.take(i + 1) =~= sv.take(i).push(sv[i]));
    let m1 = sv.take(i).map_values(f);
    let m2 = sv.take(i + 1).map_values(f);
    assert forall|k: int| 0 <= k < m2.len() implies m2[k] == m1.push(f(sv[i]))[k] by {
        if k < m1.len() {
            assert(sv.take(i + 1)[k] == sv.take(i)[k]);
        } else {
            assert(sv.take(i + 1)[k] == sv[i]);
        }
    }
    assert(m2 =~= m1.push(f(sv[i])));
    assert(m2.drop_last() =~= m1);
    assert(m2.last() == f(sv[i]));
    if p(f(sv[i])) {
        assert(m2.filter(p) == m1.filter(p).push(f(sv[i])));
    } else {
        assert(m2.filter(p) == m1.filter(p));
    }
}

/// How a built model restates the corpus scan: the interner holds the scan's
/// table; the unigram chain ranks every scanned key's successors; the bigram
/// chain ranks exactly the keys with more than one distinct successor; the
/// most frequent words head the ranking of the word totals; the starters are
/// the ranked sentence starters with those words removed, resolved to text.
pub open spec fn model_matches(m: ChainModel, sc: ScanState, top_count: int) -> bool {
    &&& m.table() == sc.0
    &&& (forall|k: u64| m.view1().contains_key(k) <==> sc.1.contains_key(k))
    &&& (forall|k: u64| sc.1.contains_key(k) ==> is_ranking((#[trigger] m.view1()[k])@, sc.1[k]))
    &&& (forall|k: u64| m.view2().contains_key(k)
        <==> (sc.2.contains_key(k) && two_successors(sc.2[k])))
    &&& (forall|k: u64| m.view2().contains_key(k) ==> is_ranking((#[trigger] m.view2()[k])@, sc.2[k]))
    &&& (exists|full: Seq<u64>| is_ranking(full, sc.3)
        && m.top_seq() == full.take(vstd::math::min(top_count, full.len() as int)))
    &&& (exists|sf: Seq<u64>| is_ranking(sf, sc.4)
        && m.starters_seq() == sf.filter(|id: u64| !m.top_seq().contains(id)).map_values(
            |id: u64| sc.0[id as int],
        ))
}

/// Builds the n-gram chain model by one scan over the corpus sentences, then
/// condenses: bigram keys with a single distinct successor are dropped, the
/// `top_count` most frequent words are computed and removed from the ranked
/// sentence starters.
pub fn build_chain_model(sentences: &Vec<String>, top_count: usize) -> (m: ChainModel)
    requires
        total_tokens(tokenized(strs(sentences@))) < interner_capacity(),
    ensures
        m.wf(),
        model_matches(m, corpus_scan(strs(sentences@)), top_count as int),
{
    let ghost sv = strs(sentences@);
    let ghost toks = tokenized(sv);
    let mut it = Interner::new();
    let mut acc1 = ChainAcc::new();
    let mut acc2 = ChainAcc::new();
    let mut wordc = FreqTable::new();
    let mut startc = FreqTable::new();
    let mut jg: Ghost<int> = Ghost(0);
    proof {
        broadcast use vstd::prelude::Seq::lemma_filter_len;
        reveal(Seq::filter);
        assert(sv.take(0) =~= Seq::<Seq<char>>::empty());
        assert(sv.take(0).map_values(|s: Seq<char>| split_words_spec(s))
            =~= Seq::<Seq<Seq<char>>>::empty());
        assert(tokenized(sv.take(0)) =~= Seq::<Seq<Seq<char>>>::empty());
        assert(toks.take(0) =~= Seq::<Seq<Seq<char>>>::empty());
        assert(tokenized(sv.take(0)) == toks.take(0));
        assert(toks.len() <= sv.len());
    }
    let n = sentences.len();
    let mut i: usize = 0;
    while i < n
        invariant
            sv == strs(sentences@),
            toks == tokenized(sv),
            n == sentences@.len(),
            total_tokens(toks) < interner_capacity(),
            toks.len() <= sv.len(),
            i <= n,
            0 <= jg@ <= toks.len(),
            tokenized(sv.take(i as int)) == toks.take(jg@),
            (interner_words(it), acc1@, acc2@, wordc@, startc@)
                == scan_from(empty_state(), toks.take(jg@), 0),
            interner_words(it).no_duplicates(),
            interner_words(it).len() <= total_tokens(toks.take(jg@)),
            acc1.wf(),
            acc2.wf(),
            wordc.wf(),
            startc.wf(),
            all_le(wordc@, total_tokens(toks.take(jg@)) as int),
            all_le(startc@, jg@),
            chain_le(acc1@, total_tokens(toks.take(jg@)) as int),
            chain_le(acc2@, total_tokens(toks.take(jg@)) as int),
            keys_below(wordc@, interner_words(it).len() as int),
            keys_below(startc@, interner_words(it).len() as int),
            succs_below(acc1@, interner_words(it).len() as int),
            succs_below(acc2@, interner_words(it).len() as int),
        decreases n - i,
    {
        let ghost st0 = (interner_words(it), acc1@, acc2@, wordc@, startc@);
        let words = split_to_words(sentences[i].as_str());
        let ghost ws = split_words_spec(sv[i as int]);
        proof {
            assert(sv[i as int] == sentences@[i as int]@);
            assert(strs(words@) == ws);
            lemma_tokenized_snoc(sv, i as int);
        }
        if words.len() > 0 {
            proof {
                lemma_tokenized_split(sv, i + 1);
                assert(tokenized(sv.take(i + 1)) == toks.take(jg@).push(ws));
                assert(toks =~= (toks.take(jg@).push(ws)) + tokenized(sv.skip(i + 1)));
                assert(jg@ < toks.len());
                assert(toks[jg@] == ws);
                assert(toks.take(jg@ + 1) =~= toks.take(jg@).push(ws));
                lemma_total_tokens_append(toks.take(jg@), seq![ws]);
                assert(total_tokens(seq![ws]) == ws.len() + total_tokens(
                    seq![ws].drop_first())) by {
                    assert(seq![ws][0] == ws);
                }
                assert(seq![ws].drop_first() =~= Seq::<Seq<Seq<char>>>::empty());
                assert(toks.take(jg@) + seq![ws] =~= toks.take(jg@ + 1));
                assert(total_tokens(toks.take(jg@ + 1))
                    == total_tokens(toks.take(jg@)) + ws.len());
                lemma_total_tokens_prefix(toks, jg@ + 1);
                assert(interner_words(it).len() + words@.len() <= interner_capacity());
            }
            let ghost t_before = interner_words(it);
            let ghost base = total_tokens(toks.take(jg@)) as int;
            let ids = intern_all(&mut it, &words);
            proof {
                assert(ids@ == ids_of(t_before, ws));
                assert(interner_words(it) == table_after(t_before, ws));
                assert(ids@.len() == ws.len());
                assert(interner_words(it).len() <= total_tokens(toks.take(jg@ + 1)));
                // earlier bounds persist under a grown table
                assert(keys_below(wordc@, interner_words(it).len() as int));
                assert(keys_below(startc@, interner_words(it).len() as int));
                assert forall|k: u64| acc1@.contains_key(k)
                    implies keys_below(#[trigger] acc1@[k], interner_words(it).len() as int) by {
                    assert(keys_below(acc1@[k], t_before.len() as int));
                }
                assert forall|k: u64| acc2@.contains_key(k)
                    implies keys_below(#[trigger] acc2@[k], interner_words(it).len() as int) by {
                    assert(keys_below(acc2@[k], t_before.len() as int));
                }
                assert(jg@ < u64::MAX);
                if startc@.contains_key(ids@[0]) {
                    assert(startc@[ids@[0]] <= jg@);
                }
            }
            let ghost s0 = startc@;
            startc.bump(ids[0]);
            proof {
                lemma_bump_le(s0, ids@[0], jg@);
                assert(startc@ == bump_spec(s0, ids_of(t_before, ws)[0]));
                assert forall|k: u64| #[trigger] startc@.contains_key(k)
                    implies k < interner_words(it).len() by {
                    if k != ids@[0] {
                        assert(s0.contains_key(k));
                    }
                }
            }
            // word totals
            let ghost w0 = wordc@;
            let mut p: usize = 0;
            proof {
                assert(bump_ids(w0, ids@, 0) == bump_ids(wordc@, ids@, 0));
            }
            while p < ids.len()
                invariant
                    p <= ids@.len(),
                    wordc.wf(),
                    base == total_tokens(toks.take(jg@)) as int,
                    base + ids@.len() <= total_tokens(toks) < interner_capacity(),
                    forall|q: int| 0 <= q < ids@.len()
                        ==> (#[trigger] ids@[q]) < interner_words(it).len(),
                    bump_ids(w0, ids@, 0) == bump_ids(wordc@, ids@, p as int),
                    all_le(wordc@, base + p),
                    keys_below(wordc@, interner_words(it).len() as int),
                decreases ids@.len() - p,
            {
                let ghost wp = wordc@;
                proof {
                    if wordc@.contains_key(ids@[p as int]) {
                        assert(wordc@[ids@[p as int]] <= base + p);
                    }
                }
                wordc.bump(ids[p]);
                proof {
                    lemma_bump_le(wp, ids@[p as int], base + p);
                    assert forall|k: u64| #[trigger] wordc@.contains_key(k)
                        implies k < interner_words(it).len() by {
                        if k != ids@[p as int] {
                            assert(wp.contains_key(k));
                        }
                    }
                }
                p += 1;
            }
            proof {
                assert(bump_ids(wordc@, ids@, ids@.len() as int) == wordc@);
                assert(wordc@ == bump_ids(w0, ids@, 0));
            }
            // unigram windows
            let ghost a10 = acc1@;
            let mut p: usize = 0;
            while p + 1 < ids.len()
                invariant
                    p <= ids@.len(),
                    ids@.len() < interner_capacity(),
                    acc1.wf(),
                    base == total_tokens(toks.take(jg@)) as int,
                    base + ids@.len() <= total_tokens(toks) < interner_capacity(),
                    forall|q: int| 0 <= q < ids@.len()
                        ==> (#[trigger] ids@[q]) < interner_words(it).len(),
                    scan_chain(a10, ids@, 1, 0) == scan_chain(acc1@, ids@, 1, p as int),
                    chain_le(acc1@, base + p),
                    succs_below(acc1@, interner_words(it).len() as int),
                decreases ids@.len() - p,
            {
                let ghost ap = acc1@;
                proof {
                    if acc1@.contains_key(ids@[p as int]) {
                        assert(all_le(acc1@[ids@[p as int]], base + p));
                    }
                }
                acc1.bump(ids[p], ids[p + 1]);
                proof {
                    lemma_chain_bump_le(ap, ids@[p as int], ids@[p + 1], base + p);
                    lemma_chain_bump_succs(ap, ids@[p as int], ids@[p + 1],
                        interner_words(it).len() as int);
                }
                p += 1;
            }
            proof {
                assert(scan_chain(acc1@, ids@, 1, p as int) == acc1@);
                assert(acc1@ == scan_chain(a10, ids@, 1, 0));
                assert(chain_le(acc1@, base + ids@.len() as int)) by {
                    assert forall|k: u64| acc1@.contains_key(k)
                        implies all_le(#[trigger] acc1@[k], base + ids@.len() as int) by {
                        assert(all_le(acc1@[k], base + p));
                    }
                }
            }
            // bigram windows
            let ghost a20 = acc2@;
            let mut p: usize = 0;
            while p + 2 < ids.len()
                invariant
                    p <= ids@.len(),
                    ids@.len() < interner_capacity(),
                    acc2.wf(),
                    interner_words(it).len() < 0x1_0000_0000,
                    base == total_tokens(toks.take(jg@)) as int,
                    base + ids@.len() <= total_tokens(toks) < interner_capacity(),
                    forall|q: int| 0 <= q < ids@.len()
                        ==> (#[trigger] ids@[q]) < interner_words(it).len(),
                    scan_chain(a20, ids@, 2, 0) == scan_chain(acc2@, ids@, 2, p as int),
                    chain_le(acc2@, base + p),
                    succs_below(acc2@, interner_words(it).len() as int),
                decreases ids@.len() - p,
            {
                let ghost ap = acc2@;
                let key = ids[p] * 0x1_0000_0000 + ids[p + 1];
                proof {
                    assert(key == enc2(ids@[p as int], ids@[p + 1]));
                    if acc2@.contains_key(key) {
                        assert(all_le(acc2@[key], base + p));
                    }
                }
                acc2.bump(key, ids[p + 2]);
                proof {
                    lemma_chain_bump_le(ap, key, ids@[p + 2], base + p);
                    lemma_chain_bump_succs(ap, key, ids@[p + 2],
                        interner_words(it).len() as int);
                }
                p += 1;
            }
            proof {
                assert(scan_chain(acc2@, ids@, 2, p as int) == acc2@);
                assert(acc2@ == scan_chain(a20, ids@, 2, 0));
                assert(chain_le(acc2@, base + ids@.len() as int)) by {
                    assert forall|k: u64| acc2@.contains_key(k)
                        implies all_le(#[trigger] acc2@[k], base + ids@.len() as int) by {
                        assert(all_le(acc2@[k], base + p));
                    }
                }
                // the scanned sentence advances the fold by one
                lemma_scan_push(empty_state(), toks.take(jg@), ws, 0);
                assert((interner_words(it), acc1@, acc2@, wordc@, startc@)
                    == scan_sentence(st0, ws));
                assert(scan_from(empty_state(), toks.take(jg@ + 1), 0)
                    == scan_sentence(scan_from(empty_state(), toks.take(jg@), 0), ws));
                jg@ = jg@ + 1;
                assert((interner_words(it), acc1@, acc2@, wordc@, startc@)
                    == scan_from(empty_state(), toks.take(jg@), 0));
            }
        }
        i += 1;
    }
    proof {
        assert(sv.take(n as int) =~= sv);
        assert(toks.take(jg@) == toks);
        assert(toks.take(jg@).len() == toks.len());
        assert((interner_words(it), acc1@, acc2@, wordc@, startc@) == corpus_scan(sv));
    }
    condense(it, acc1, acc2, wordc, startc, top_count, Ghost(corpus_scan(sv)))
}


/// Condenses the accumulated statistics into the served model: ranks every
/// successor set, drops bigram keys with a single distinct successor, takes
/// the most frequent words, and strips them from the ranked starters.
fn condense(
    it: Interner,
    acc1: ChainAcc,
    acc2: ChainAcc,
    wordc: FreqTable,
    startc: FreqTable,
    top_count: usize,
    Ghost(sc): Ghost<ScanState>,
) -> (m: ChainModel)
    requires
        (interner_words(it), acc1@, acc2@, wordc@, startc@) == sc,
        interner_words(it).no_duplicates(),
        interner_words(it).len() <= interner_capacity(),
        acc1.wf(),
        acc2.wf(),
        wordc.wf(),
        startc.wf(),
        keys_below(wordc@, interner_words(it).len() as int),
        keys_below(startc@, interner_words(it).len() as int),
        succs_below(acc1@, interner_words(it).len() as int),
        succs_below(acc2@, interner_words(it).len() as int),
    ensures
        m.wf(),
        model_matches(m, sc, top_count as int),
{
    let ghost tlen = interner_words(it).len() as int;
    // the most frequent words
    let ranked_words = rank_desc(&wordc);
    let cut = if top_count < ranked_words.len() {
        top_count
    } else {
        ranked_words.len()
    };
    let mut top: Vec<u64> = Vec::new();
    let mut q: usize = 0;
    while q < cut
        invariant
            cut <= ranked_words@.len(),
            q <= cut,
            top@ == ranked_words@.take(q as int),
        decreases cut - q,
    {
        top.push(ranked_words[q]);
        proof {
            assert(ranked_words@.take(q + 1)
                =~= ranked_words@.take(q as int).push(ranked_words@[q as int]));
        }
        q += 1;
    }
    proof {
        assert(top@ == ranked_words@.take(
            vstd::math::min(top_count as int, ranked_words@.len() as int)));
        assert forall|x: int| 0 <= x < top@.len() implies (#[trigger] top@[x]) < tlen by {
            assert(ranked_words@.contains(ranked_words@[x]));
            assert(wordc@.contains_key(top@[x]));
        }
    }
    // ranked starters, most frequent words removed, resolved to words
    let ghost table = interner_words(it);
    let ghost pred = |id: u64| !top@.contains(id);
    let ranked_st = rank_desc(&startc);
    let mut starters: Vec<String> = Vec::new();
    let mut q: usize = 0;
    proof {
        reveal(Seq::filter);
        assert(ranked_st@.take(0).filter(pred) =~= Seq::<u64>::empty());
        assert(strs(starters@) =~= ranked_st@.take(0).filter(pred).map_values(
            |id: u64| table[id as int]));
    }
    while q < ranked_st.len()
        invariant
            q <= ranked_st@.len(),
            table == interner_words(it),
            pred == (|id: u64| !top@.contains(id)),
            is_ranking(ranked_st@, startc@),
            keys_below(startc@, tlen),
            tlen == interner_words(it).len() as int,
            strs(starters@) == ranked_st@.take(q as int).filter(pred).map_values(
                |id: u64| table[id as int]),
        decreases ranked_st@.len() - q,
    {
        let id = ranked_st[q];
        let suppressed = contains_id(&top, id);
        proof {
            reveal(Seq::filter);
            let t = ranked_st@.take(q + 1);
            assert(t.drop_last() =~= ranked_st@.take(q as int));
            assert(t.last() == ranked_st@[q as int]);
            assert(pred(id) == !suppressed);
            assert(ranked_st@.contains(id));
            assert(startc@.contains_key(id));
            assert(id < tlen);
        }
        if !suppressed {
            let w = it.resolve(id);
            proof {
                crate::correction::lemma_strs_push(starters@, w);
                assert(ranked_st@.take(q + 1).filter(pred)
                    == ranked_st@.take(q as int).filter(pred).push(id));
                assert(ranked_st@.take(q + 1).filter(pred).map_values(
                    |id2: u64| table[id2 as int])
                    =~= ranked_st@.take(q as int).filter(pred).map_values(
                        |id2: u64| table[id2 as int]).push(table[id as int]));
            }
            starters.push(w);
        }
        q += 1;
    }
    proof {
        assert(ranked_st@.take(ranked_st@.len() as int) =~= ranked_st@);
    }
    // ranked unigram chains: every key is kept
    let mut c1: HashMap<u64, Vec<u64>> = HashMap::new();
    let mut k1: Vec<u64> = Vec::new();
    let keys1 = acc1.keys();
    let mut q: usize = 0;
    proof {
        assert(c1@ =~= Map::<u64, Vec<u64>>::empty());
    }
    while q < keys1.len()
        invariant
            q <= keys1@.len(),
            keys1@ == acc1.order_seq(),
            acc1.wf(),
            succs_below(acc1@, tlen),
            k1@ == keys1@.take(q as int),
            forall|k2: u64| c1@.contains_key(k2) <==> keys1@.take(q as int).contains(k2),
            forall|k2: u64| #![trigger c1@.contains_key(k2)] c1@.contains_key(k2)
                ==> acc1@.contains_key(k2)
                && is_ranking(c1@[k2]@, acc1@[k2]) && c1@[k2]@.len() >= 1
                && c1@[k2]@.no_duplicates()
                && (forall|x: int| 0 <= x < c1@[k2]@.len()
                    ==> (#[trigger] c1@[k2]@[x]) < tlen),
        decreases keys1@.len() - q,
    {
        let k = keys1[q];
        proof {
            assert(acc1.order_seq().contains(k));
            assert(acc1@.contains_key(k));
        }
        let t = match acc1.get(k) {
            Some(t) => t,
            None => vstd::pervasive::unreached(),
        };
        let ranked = rank_desc(t);
        proof {
            assert(t@ == acc1@[k]);
            assert(is_ranking(ranked@, acc1@[k]));
            let e = t.order_seq()[0];
            assert(t.order_seq().contains(e));
            assert(t@.contains_key(e));
            assert(ranked@.contains(e));
            assert(ranked@.len() >= 1);
            assert forall|x: int| 0 <= x < ranked@.len()
                implies (#[trigger] ranked@[x]) < tlen by {
                assert(ranked@.contains(ranked@[x]));
                assert(acc1@[k].contains_key(ranked@[x]));
                assert(keys_below(acc1@[k], tlen));
            }
            assert(keys1@.take(q + 1) =~= keys1@.take(q as int).push(k));
        }
        let ghost prev1 = c1@;
        c1.insert(k, ranked);
        k1.push(k);
        proof {
            assert forall|k2: u64| #![trigger c1@.contains_key(k2)] c1@.contains_key(k2)
                implies acc1@.contains_key(k2)
                && is_ranking(c1@[k2]@, acc1@[k2]) && c1@[k2]@.len() >= 1
                && c1@[k2]@.no_duplicates()
                && (forall|x: int| 0 <= x < c1@[k2]@.len()
                    ==> (#[trigger] c1@[k2]@[x]) < tlen) by {
                if k2 != k {
                    assert(prev1.contains_key(k2));
                    assert(c1@[k2] == prev1[k2]);
                }
            }
            assert forall|k2: u64| #![trigger c1@.contains_key(k2)] c1@.contains_key(k2)
                <==> keys1@.take(q + 1).contains(k2) by {
                if k2 == k {
                    assert(keys1@.take(q + 1)[q as int] == k);
                    assert(keys1@.take(q + 1).contains(k));
                } else {
                    if keys1@.take(q + 1).contains(k2) {
                        let x = choose|x: int| 0 <= x < q + 1 && (#[trigger] keys1@.take(q + 1)[x]) == k2;
                        assert(keys1@.take(q as int)[x] == k2);
                        assert(keys1@.take(q as int).contains(k2));
                    }
                    if keys1@.take(q as int).contains(k2) {
                        let x = choose|x: int| 0 <= x < q && (#[trigger] keys1@.take(q as int)[x]) == k2;
                        assert(keys1@.take(q + 1)[x] == k2);
                        assert(keys1@.take(q + 1).contains(k2));
                    }
                }
            }
        }
        q += 1;
    }
    proof {
        assert(keys1@.take(keys1@.len() as int) =~= keys1@);
        assert(k1@.no_duplicates()) by {
            assert(k1@ == acc1.order_seq());
        }
        assert forall|k2: u64| #![trigger c1@.contains_key(k2)] c1@.contains_key(k2)
            <==> acc1@.contains_key(k2) by {
            assert(c1@.contains_key(k2) <==> keys1@.contains(k2));
        }
    }
    // ranked bigram chains: only keys with more than one distinct successor
    let mut c2: HashMap<u64, Vec<u64>> = HashMap::new();
    let mut k2v: Vec<u64> = Vec::new();
    let keys2 = acc2.keys();
    let mut q: usize = 0;
    proof {
        assert(c2@ =~= Map::<u64, Vec<u64>>::empty());
    }
    while q < keys2.len()
        invariant
            q <= keys2@.len(),
            keys2@ == acc2.order_seq(),
            acc2.wf(),
            succs_below(acc2@, tlen),
            k2v@.no_duplicates(),
            forall|k2: u64| c2@.contains_key(k2) <==> k2v@.contains(k2),
            forall|k2: u64| c2@.contains_key(k2)
                ==> keys2@.take(q as int).contains(k2),
            forall|k2: u64| #[trigger] keys2@.take(q as int).contains(k2)
                ==> (c2@.contains_key(k2) <==> two_successors(acc2@[k2])),
            forall|k2: u64| #![trigger c2@.contains_key(k2)] c2@.contains_key(k2)
                ==> acc2@.contains_key(k2)
                && two_successors(acc2@[k2])
                && is_ranking(c2@[k2]@, acc2@[k2]) && c2@[k2]@.len() >= 2
                && c2@[k2]@.no_duplicates()
                && (forall|x: int| 0 <= x < c2@[k2]@.len()
                    ==> (#[trigger] c2@[k2]@[x]) < tlen),
        decreases keys2@.len() - q,
    {
        let k = keys2[q];
        proof {
            assert(acc2.order_seq().contains(k));
            assert(acc2@.contains_key(k));
        }
        let t = match acc2.get(k) {
            Some(t) => t,
            None => vstd::pervasive::unreached(),
        };
        let ghost prev = c2@;
        let ghost prevk = k2v@;
        if t.distinct() >= 2 {
            let ranked = rank_desc(t);
            proof {
                assert(t@ == acc2@[k]);
                assert(is_ranking(ranked@, acc2@[k]));
                let a = t.order_seq()[0];
                let b = t.order_seq()[1];
                assert(t.order_seq().contains(a) && t.order_seq().contains(b));
                assert(a != b);
                assert(t@.contains_key(a) && t@.contains_key(b));
                assert(two_successors(acc2@[k]));
                assert(ranked@.contains(a) && ranked@.contains(b));
                let xa = choose|xa: int| 0 <= xa < ranked@.len() && ranked@[xa] == a;
                let xb = choose|xb: int| 0 <= xb < ranked@.len() && ranked@[xb] == b;
                assert(xa != xb);
                assert(ranked@.len() >= 2);
                assert forall|x: int| 0 <= x < ranked@.len()
                    implies (#[trigger] ranked@[x]) < tlen by {
                    assert(ranked@.contains(ranked@[x]));
                    assert(acc2@[k].contains_key(ranked@[x]));
                    assert(keys_below(acc2@[k], tlen));
                }
                assert(!k2v@.contains(k)) by {
                    if k2v@.contains(k) {
                        assert(keys2@.take(q as int).contains(k));
                        let x = choose|x: int| 0 <= x < q && (#[trigger] keys2@.take(q as int)[x]) == k;
                        assert(keys2@[x] == k && keys2@[q as int] == k);
                    }
                }
                assert(k2v@.push(k).no_duplicates());
            }
            c2.insert(k, ranked);
            k2v.push(k);
            proof {
                assert forall|k2: u64| #![trigger c2@.contains_key(k2)] c2@.contains_key(k2)
                    implies acc2@.contains_key(k2)
                    && two_successors(acc2@[k2])
                    && is_ranking(c2@[k2]@, acc2@[k2]) && c2@[k2]@.len() >= 2
                    && c2@[k2]@.no_duplicates()
                    && (forall|x: int| 0 <= x < c2@[k2]@.len()
                        ==> (#[trigger] c2@[k2]@[x]) < tlen) by {
                    if k2 != k {
                        assert(prev.contains_key(k2));
                        assert(c2@[k2] == prev[k2]);
                    }
                }
                assert forall|x2: u64| #![trigger c2@.contains_key(x2)] c2@.contains_key(x2)
                    <==> k2v@.contains(x2) by {
                    if x2 == k {
                        assert(k2v@[k2v@.len() - 1] == k);
                        assert(k2v@.contains(k));
                    } else {
                        if k2v@.contains(x2) {
                            let x = choose|x: int| 0 <= x < k2v@.len() && (#[trigger] k2v@[x]) == x2;
                            assert(prevk[x] == x2);
                            assert(prevk.contains(x2));
                        }
                        if prevk.contains(x2) {
                            let x = choose|x: int| 0 <= x < prevk.len() && (#[trigger] prevk[x]) == x2;
                            assert(k2v@[x] == x2);
                            assert(k2v@.contains(x2));
                        }
                    }
                }
            }
        } else {
            proof {
                // at most one distinct successor: the key is condensed away
                assert(!two_successors(acc2@[k])) by {
                    if two_successors(acc2@[k]) {
                        let (a, b) = choose|a: u64, b: u64| a != b
                            && (#[trigger] acc2@[k].contains_key(a))
                            && (#[trigger] acc2@[k].contains_key(b));
                        assert(t@.contains_key(a) && t@.contains_key(b));
                        assert(t.order_seq().contains(a) && t.order_seq().contains(b));
                        let xa = choose|xa: int| 0 <= xa < t.order_seq().len()
                            && t.order_seq()[xa] == a;
                        let xb = choose|xb: int| 0 <= xb < t.order_seq().len()
                            && t.order_seq()[xb] == b;
                        assert(t.order_seq().len() >= 2);
                    }
                }
            }
        }
        proof {
            assert forall|x2: u64| #[trigger] keys2@.take(q + 1).contains(x2)
                implies (c2@.contains_key(x2) <==> two_successors(acc2@[x2])) by {
                if x2 == k {
                    if c2@.contains_key(k) {
                    }
                } else {
                    let x = choose|x: int| 0 <= x < q + 1 && (#[trigger] keys2@.take(q + 1)[x]) == x2;
                    assert(keys2@.take(q as int)[x] == x2);
                    assert(keys2@.take(q as int).contains(x2));
                }
            }
            assert forall|x2: u64| c2@.contains_key(x2)
                implies keys2@.take(q + 1).contains(x2) by {
                if x2 == k {
                    assert(keys2@.take(q + 1)[q as int] == k);
                } else {
                    assert(prev.contains_key(x2));
                    let x = choose|x: int| 0 <= x < q && (#[trigger] keys2@.take(q as int)[x]) == x2;
                    assert(keys2@.take(q + 1)[x] == x2);
                }
            }
        }
        q += 1;
    }
    proof {
        assert(keys2@.take(keys2@.len() as int) =~= keys2@);
        assert forall|k2: u64| #![trigger c2@.contains_key(k2)] c2@.contains_key(k2)
            <==> (acc2@.contains_key(k2) && two_successors(acc2@[k2])) by {
            if c2@.contains_key(k2) {
            }
            if acc2@.contains_key(k2) && two_successors(acc2@[k2]) {
                assert(keys2@.contains(k2));
            }
        }
    }
    let m = ChainModel {
        interner: it,
        chains1: c1,
        chains2: c2,
        chains1_keys: k1,
        chains2_keys: k2v,
        starters,
        top_words: top,
    };
    proof {
        assert(m.wf());
        assert(is_ranking(ranked_words@, sc.3) && m.top_seq() == ranked_words@.take(
            vstd::math::min(top_count as int, ranked_words@.len() as int)));
        assert(is_ranking(ranked_st@, sc.4) && m.starters_seq() == ranked_st@.filter(
            |id: u64| !m.top_seq().contains(id)).map_values(|id: u64| sc.0[id as int]));
        assert(model_matches(m, sc, top_count as int));
    }
    m
}

/// Builds the chain model from the corpus sentences with the default count
/// of suppressed most frequent words.
pub fn ngram_predictor(sentences: &Vec<String>) -> (m: ChainModel)
    requires
        total_tokens(tokenized(strs(sentences@))) < interner_capacity(),
    ensures
        m.wf(),
        model_matches(m, corpus_scan(strs(sentences@)), 7),
{
    build_chain_model(sentences, 7)
}


/// Copies a word list.
fn clone_strings(v: &Vec<String>) -> (r: Vec<String>)
    ensures
        strs(r@) == strs(v@),
{
    let mut r: Vec<String> = Vec::new();
    let mut i: usize = 0;
    while i < v.len()
        invariant
            i <= v@.len(),
            strs(r@) == strs(v@).take(i as int),
        decreases v@.len() - i,
    {
        let w = v[i].clone();
        proof {
            crate::correction::lemma_strs_push(r@, w);
            assert(strs(v@)[i as int] == v@[i as int]@);
            assert(strs(v@).take(i + 1) =~= strs(v@).take(i as int).push(strs(v@)[i as int]));
        }
        r.push(w);
        i += 1;
    }
    proof {
        assert(strs(v@).take(strs(v@).len() as int) =~= strs(v@));
    }
    r
}

/// Whether no identifier repeats.
fn all_distinct(v: &Vec<u64>) -> (r: bool)
    ensures
        r == v@.no_duplicates(),
{
    let mut i: usize = 0;
    while i < v.len()
        invariant
            i <= v@.len(),
            forall|a: int, b: int| 0 <= a < b < v@.len() && b < i ==> v@[a] != v@[b],
        decreases v@.len() - i,
    {
        let mut j: usize = 0;
        while j < i
            invariant
                j <= i < v@.len(),
                forall|a: int| 0 <= a < j ==> v@[a] != v@[i as int],
            decreases i - j,
        {
            if v[j] == v[i] {
                proof {
                    assert(!v@.no_duplicates()) by {
                        if v@.no_duplicates() {
                            assert(v@[j as int] != v@[i as int]);
                        }
                    }
                }
                return false;
            }
            j += 1;
        }
        i += 1;
    }
    proof {
        assert(v@.no_duplicates()) by {
            assert forall|a: int, b: int| 0 <= a < v@.len() && 0 <= b < v@.len() && a != b
                implies v@[a] != v@[b] by {
                if a < b {
                    assert(v@[a] != v@[b]);
                } else {
                    assert(v@[b] != v@[a]);
                }
            }
        }
    }
    true
}

/// Whether every identifier lies below the bound.
fn ids_below(v: &Vec<u64>, b: u64) -> (r: bool)
    ensures
        r == forall|q: int| 0 <= q < v@.len() ==> (#[trigger] v@[q]) < b,
{
    let mut i: usize = 0;
    while i < v.len()
        invariant
            i <= v@.len(),
            forall|q: int| 0 <= q < i ==> (#[trigger] v@[q]) < b,
        decreases v@.len() - i,
    {
        if v[i] >= b {
            return false;
        }
        i += 1;
    }
    true
}

proof fn lemma_keys_nodup(v: Seq<(u64, Seq<u64>)>, keys: Seq<u64>)
    requires
        v.len() == keys.len(),
        keys.no_duplicates(),
        forall|q: int| 0 <= q < v.len() ==> (#[trigger] v[q]).0 == keys[q],
    ensures
        v.map_values(|p: (u64, Seq<u64>)| p.0).no_duplicates(),
{
    let m = v.map_values(|p: (u64, Seq<u64>)| p.0);
    assert forall|a: int, b: int| 0 <= a < b < m.len() implies m[a] != m[b] by {
        assert(m[a] == v[a].0 && m[b] == v[b].0);
    }
}

/// A snapshot that can be restored into a well-formed model.
pub open spec fn snapshot_ok(
    tb: Seq<Seq<char>>,
    c1: Seq<(u64, Seq<u64>)>,
    c2: Seq<(u64, Seq<u64>)>,
    tp: Seq<u64>,
) -> bool {
    &&& tb.no_duplicates()
    &&& tb.len() <= interner_capacity()
    &&& c1.map_values(|p: (u64, Seq<u64>)| p.0).no_duplicates()
    &&& c2.map_values(|p: (u64, Seq<u64>)| p.0).no_duplicates()
    &&& (forall|q: int| 0 <= q < c1.len() ==> {
        let v = (#[trigger] c1[q]).1;
        &&& v.len() >= 1
        &&& v.no_duplicates()
        &&& (forall|x: int| 0 <= x < v.len() ==> (#[trigger] v[x]) < tb.len())
    })
    &&& (forall|q: int| 0 <= q < c2.len() ==> {
        let v = (#[trigger] c2[q]).1;
        &&& v.len() >= 2
        &&& v.no_duplicates()
        &&& (forall|x: int| 0 <= x < v.len() ==> (#[trigger] v[x]) < tb.len())
    })
    &&& (forall|q: int| 0 <= q < tp.len() ==> (#[trigger] tp[q]) < tb.len())
}

impl ChainModel {
    /// The model content as a snapshot of plain data.
    pub fn to_snapshot(&self) -> (s: PredictorSnapshot)
        requires
            self.wf(),
        ensures
            strs(s.starters@) == self.starters_seq(),
            strs(s.table@) == self.table(),
            s.top_words@ == self.top_seq(),
            chain_views(s.chains1@).len() == self.keys1_seq().len(),
            forall|q: int| 0 <= q < self.keys1_seq().len() ==> {
                let p = #[trigger] chain_views(s.chains1@)[q];
                &&& p.0 == self.keys1_seq()[q]
                &&& self.view1().contains_key(p.0)
                &&& p.1 == self.view1()[p.0]@
            },
            chain_views(s.chains2@).len() == self.keys2_seq().len(),
            forall|q: int| 0 <= q < self.keys2_seq().len() ==> {
                let p = #[trigger] chain_views(s.chains2@)[q];
                &&& p.0 == self.keys2_seq()[q]
                &&& self.view2().contains_key(p.0)
                &&& p.1 == self.view2()[p.0]@
            },
            forall|k: u64| #[trigger] self.view1().contains_key(k) ==> exists|q: int|
                0 <= q < chain_views(s.chains1@).len()
                    && (#[trigger] chain_views(s.chains1@)[q]).0 == k,
            forall|k: u64| #[trigger] self.view2().contains_key(k) ==> exists|q: int|
                0 <= q < chain_views(s.chains2@).len()
                    && (#[trigger] chain_views(s.chains2@)[q]).0 == k,
            snapshot_ok(
                strs(s.table@),
                chain_views(s.chains1@),
                chain_views(s.chains2@),
                s.top_words@,
            ),
    {
        let starters = clone_strings(&self.starters);
        let mut table: Vec<String> = Vec::new();
        let n = self.interner.len();
        let mut i: usize = 0;
        while i < n
            invariant
                self.wf(),
                n == self.table().len(),
                i <= n,
                strs(table@) == self.table().take(i as int),
            decreases n - i,
        {
            let w = self.interner.resolve(i as u64);
            proof {
                crate::correction::lemma_strs_push(table@, w);
                assert(self.table().take(i + 1)
                    =~= self.table().take(i as int).push(self.table()[i as int]));
            }
            table.push(w);
            i += 1;
        }
        proof {
            assert(self.table().take(self.table().len() as int) =~= self.table());
        }
        let chains1 = self.dump_chain(true);
        let chains2 = self.dump_chain(false);
        let top_words = clone_ids(&self.top_words);
        let s = PredictorSnapshot { starters, table, chains1, chains2, top_words };
        proof {
            let tb = strs(s.table@);
            let c1 = chain_views(s.chains1@);
            let c2 = chain_views(s.chains2@);
            assert forall|q: int| 0 <= q < c1.len() implies (#[trigger] c1[q]).0
                == self.keys1_seq()[q] by {}
            lemma_keys_nodup(c1, self.keys1_seq());
            assert forall|q: int| 0 <= q < c2.len() implies (#[trigger] c2[q]).0
                == self.keys2_seq()[q] by {}
            lemma_keys_nodup(c2, self.keys2_seq());
            assert forall|q: int| 0 <= q < c1.len() implies {
                let vv = (#[trigger] c1[q]).1;
                &&& vv.len() >= 1
                &&& vv.no_duplicates()
                &&& (forall|x: int| 0 <= x < vv.len() ==> (#[trigger] vv[x]) < tb.len())
            } by {
                assert(self.view1().contains_key(c1[q].0));
                assert(c1[q].1 == self.view1()[c1[q].0]@);
            }
            assert forall|q: int| 0 <= q < c2.len() implies {
                let vv = (#[trigger] c2[q]).1;
                &&& vv.len() >= 2
                &&& vv.no_duplicates()
                &&& (forall|x: int| 0 <= x < vv.len() ==> (#[trigger] vv[x]) < tb.len())
            } by {
                assert(self.view2().contains_key(c2[q].0));
                assert(c2[q].1 == self.view2()[c2[q].0]@);
            }
            assert(snapshot_ok(tb, c1, c2, s.top_words@));
        }
        s
    }

    /// One chain as a list of key and ranked-successors pairs, in key-list
    /// order.
    fn dump_chain(&self, unigram: bool) -> (r: Vec<(u64, Vec<u64>)>)
        requires
            self.wf(),
        ensures
            unigram ==> chain_views(r@).len() == self.keys1_seq().len(),
            unigram ==> forall|q: int| 0 <= q < self.keys1_seq().len() ==> {
                let p = #[trigger] chain_views(r@)[q];
                &&& p.0 == self.keys1_seq()[q]
                &&& self.view1().contains_key(p.0)
                &&& p.1 == self.view1()[p.0]@
            },
            !unigram ==> chain_views(r@).len() == self.keys2_seq().len(),
            !unigram ==> forall|q: int| 0 <= q < self.keys2_seq().len() ==> {
                let p = #[trigger] chain_views(r@)[q];
                &&& p.0 == self.keys2_seq()[q]
                &&& self.view2().contains_key(p.0)
                &&& p.1 == self.view2()[p.0]@
            },
            unigram ==> forall|k: u64| #[trigger] self.view1().contains_key(k) ==> exists|q: int|
                0 <= q < chain_views(r@).len() && (#[trigger] chain_views(r@)[q]).0 == k,
            !unigram ==> forall|k: u64| #[trigger] self.view2().contains_key(k) ==> exists|q: int|
                0 <= q < chain_views(r@).len() && (#[trigger] chain_views(r@)[q]).0 == k,
    {
        broadcast use vstd::std_specs::hash::group_hash_axioms;

        let keys = if unigram {
            &self.chains1_keys
        } else {
            &self.chains2_keys
        };
        let map = if unigram {
            &self.chains1
        } else {
            &self.chains2
        };
        let ghost keyseq = if unigram {
            self.keys1_seq()
        } else {
            self.keys2_seq()
        };
        let ghost view = if unigram {
            self.view1()
        } else {
            self.view2()
        };
        let mut r: Vec<(u64, Vec<u64>)> = Vec::new();
        let mut i: usize = 0;
        while i < keys.len()
            invariant
                keys@ == keyseq,
                map@ == view,
                forall|k: u64| view.contains_key(k) <==> keyseq.contains(k),
                i <= keyseq.len(),
                chain_views(r@).len() == i,
                forall|q: int| 0 <= q < i ==> {
                    let p = #[trigger] chain_views(r@)[q];
                    &&& p.0 == keyseq[q]
                    &&& view.contains_key(p.0)
                    &&& p.1 == view[p.0]@
                },
            decreases keyseq.len() - i,
        {
            let k = keys[i];
            proof {
                assert(keyseq.contains(keyseq[i as int]));
            }
            let succs = match map.get(&k) {
                Some(v) => clone_ids(v),
                None => vstd::pervasive::unreached(),
            };
            let ghost prior = r@;
            r.push((k, succs));
            proof {
                assert forall|q: int| 0 <= q < i + 1 implies {
                    let p = #[trigger] chain_views(r@)[q];
                    &&& p.0 == keyseq[q]
                    &&& view.contains_key(p.0)
                    &&& p.1 == view[p.0]@
                } by {
                    if q < i {
                        assert(chain_views(r@)[q] == (r@[q].0, r@[q].1@));
                        assert(r@[q] == prior[q]);
                        assert(chain_views(prior)[q] == (prior[q].0, prior[q].1@));
                    } else {
                        assert(chain_views(r@)[q] == (r@[q].0, r@[q].1@));
                    }
                }
            }
            i += 1;
        }
        proof {
            // every stored chain key stands in the dump
            assert forall|k: u64| #[trigger] view.contains_key(k) implies exists|q: int|
                0 <= q < chain_views(r@).len() && (#[trigger] chain_views(r@)[q]).0 == k by {
                assert(keyseq.contains(k));
                let q = choose|q: int| 0 <= q < keyseq.len() && (#[trigger] keyseq[q]) == k;
                assert(chain_views(r@)[q].0 == k);
            }
            if unigram {
                assert forall|k: u64| #[trigger] self.view1().contains_key(k)
                    implies exists|q: int| 0 <= q < chain_views(r@).len()
                    && (#[trigger] chain_views(r@)[q]).0 == k by {
                    assert(view.contains_key(k));
                }
            } else {
                assert forall|k: u64| #[trigger] self.view2().contains_key(k)
                    implies exists|q: int| 0 <= q < chain_views(r@).len()
                    && (#[trigger] chain_views(r@)[q]).0 == k by {
                    assert(view.contains_key(k));
                }
            }
        }
        r
    }
}

impl ChainModel {
    /// Restores a model from a snapshot. A snapshot written by a well-formed
    /// model restores exactly; a structurally broken one yields nothing.
    pub fn from_snapshot(s: &PredictorSnapshot) -> (r: Option<ChainModel>)
        ensures
            r matches Some(m) ==> {
                &&& m.wf()
                &&& m.table() == strs(s.table@)
                &&& m.starters_seq() == strs(s.starters@)
                &&& m.top_seq() == s.top_words@
                &&& (forall|q: int| 0 <= q < chain_views(s.chains1@).len() ==> {
                    let p = #[trigger] chain_views(s.chains1@)[q];
                    &&& m.view1().contains_key(p.0)
                    &&& m.view1()[p.0]@ == p.1
                })
                &&& (forall|k: u64| m.view1().contains_key(k) ==> exists|q: int|
                    0 <= q < chain_views(s.chains1@).len()
                        && (#[trigger] chain_views(s.chains1@)[q]).0 == k)
                &&& (forall|q: int| 0 <= q < chain_views(s.chains2@).len() ==> {
                    let p = #[trigger] chain_views(s.chains2@)[q];
                    &&& m.view2().contains_key(p.0)
                    &&& m.view2()[p.0]@ == p.1
                })
                &&& (forall|k: u64| m.view2().contains_key(k) ==> exists|q: int|
                    0 <= q < chain_views(s.chains2@).len()
                        && (#[trigger] chain_views(s.chains2@)[q]).0 == k)
                &&& snapshot_ok(strs(s.table@), chain_views(s.chains1@),
                    chain_views(s.chains2@), s.top_words@)
            },
            snapshot_ok(strs(s.table@), chain_views(s.chains1@), chain_views(s.chains2@),
                s.top_words@) ==> r is Some,
    {
        broadcast use vstd::std_specs::hash::group_hash_axioms;

        let ghost tb = strs(s.table@);
        let ghost c1v = chain_views(s.chains1@);
        let ghost c2v = chain_views(s.chains2@);
        let ghost ok = snapshot_ok(tb, c1v, c2v, s.top_words@);
        // the interner table: intern each word in order; any repeated word or
        // overfull table breaks the density of identifiers
        let mut it = Interner::new();
        let mut i: usize = 0;
        while i < s.table.len()
            invariant
                tb == strs(s.table@),
                i <= tb.len(),
                interner_words(it) == tb.take(i as int),
                interner_words(it).no_duplicates(),
                interner_words(it).len() <= interner_capacity(),
                ok == snapshot_ok(tb, c1v, c2v, s.top_words@),
                ok ==> tb.len() <= interner_capacity(),
            decreases tb.len() - i,
        {
            if it.len() >= 0xFFFF_FFFE {
                proof {
                    if ok {
                        assert(tb.take(i as int).len() < tb.len());
                        assert(false);
                    }
                }
                return None;
            }
            let id = it.get_or_intern(s.table[i].as_str());
            proof {
                assert(strs(s.table@)[i as int] == s.table@[i as int]@);
            }
            if id != i as u64 {
                proof {
                    if ok {
                        if tb.take(i as int).contains(tb[i as int]) {
                            let q = choose|q: int| 0 <= q < i
                                && (#[trigger] tb.take(i as int)[q]) == tb[i as int];
                            assert(tb[q] == tb[i as int]);
                            assert(false);
                        }
                        assert(false);
                    }
                }
                return None;
            }
            proof {
                if tb.take(i as int).contains(tb[i as int]) {
                    let q = choose|q: int| 0 <= q < i
                        && (#[trigger] tb.take(i as int)[q]) == tb[i as int];
                    assert(interner_words(it) == tb.take(i as int));
                    assert(false);
                } else {
                    assert(interner_words(it) == tb.take(i as int).push(tb[i as int]));
                    assert(tb.take(i + 1) =~= tb.take(i as int).push(tb[i as int]));
                    assert(interner_words(it).no_duplicates()) by {
                        assert forall|a: int, b: int| 0 <= a < b < interner_words(it).len()
                            implies interner_words(it)[a] != interner_words(it)[b] by {
                            if b == interner_words(it).len() - 1 {
                                assert(interner_words(it)[a] == tb.take(i as int)[a]);
                                assert(tb.take(i as int).contains(tb.take(i as int)[a]));
                            }
                        }
                    }
                }
            }
            i += 1;
        }
        proof {
            assert(tb.take(tb.len() as int) =~= tb);
        }
        proof {
            assert(interner_words(it).len() <= interner_capacity());
        }
        let tlen = it.len() as u64;
        proof {
            assert(tlen == tb.len());
            if ok {
                assert forall|q: int| 0 <= q < s.chains1@.len() implies {
                    let v = (#[trigger] chain_views(s.chains1@)[q]).1;
                    &&& v.len() >= 1
                    &&& v.no_duplicates()
                    &&& (forall|x: int| 0 <= x < v.len() ==> (#[trigger] v[x]) < tlen)
                } by {
                    assert(chain_views(s.chains1@)[q] == c1v[q]);
                }
                assert forall|q: int| 0 <= q < s.chains2@.len() implies {
                    let v = (#[trigger] chain_views(s.chains2@)[q]).1;
                    &&& v.len() >= 2
                    &&& v.no_duplicates()
                    &&& (forall|x: int| 0 <= x < v.len() ==> (#[trigger] v[x]) < tlen)
                } by {
                    assert(chain_views(s.chains2@)[q] == c2v[q]);
                }
            }
        }
        // the suppressed most frequent words must name live identifiers
        if !ids_below(&s.top_words, tlen) {
            proof {
                if ok {
                    let q = choose|q: int| 0 <= q < s.top_words@.len()
                        && !((#[trigger] s.top_words@[q]) < tlen);
                }
            }
            return None;
        }
        let top_words = clone_ids(&s.top_words);
        let starters = clone_strings(&s.starters);
        // both chains: no repeated key, and well-formed successor lists
        let chains1 = match restore_chain(&s.chains1, tlen, 1, Ghost(ok)) {
            Some(c) => c,
            None => {
                return None;
            },
        };
        let chains2 = match restore_chain(&s.chains2, tlen, 2, Ghost(ok)) {
            Some(c) => c,
            None => {
                return None;
            },
        };
        let (c1map, k1) = chains1;
        let (c2map, k2) = chains2;
        let m = ChainModel {
            interner: it,
            chains1: c1map,
            chains2: c2map,
            chains1_keys: k1,
            chains2_keys: k2,
            starters,
            top_words,
        };
        proof {
            assert(m.table().len() <= interner_capacity());
            assert(m.wf());
            // a restorable snapshot is itself well formed
            lemma_keys_nodup(c1v, m.chains1_keys@);
            lemma_keys_nodup(c2v, m.chains2_keys@);
            assert forall|q: int| 0 <= q < c1v.len() implies {
                let v = (#[trigger] c1v[q]).1;
                &&& v.len() >= 1
                &&& v.no_duplicates()
                &&& (forall|x: int| 0 <= x < v.len() ==> (#[trigger] v[x]) < tb.len())
            } by {
                assert(m.view1().contains_key(c1v[q].0));
                assert(m.view1()[c1v[q].0]@ == c1v[q].1);
            }
            assert forall|q: int| 0 <= q < c2v.len() implies {
                let v = (#[trigger] c2v[q]).1;
                &&& v.len() >= 2
                &&& v.no_duplicates()
                &&& (forall|x: int| 0 <= x < v.len() ==> (#[trigger] v[x]) < tb.len())
            } by {
                assert(m.view2().contains_key(c2v[q].0));
                assert(m.view2()[c2v[q].0]@ == c2v[q].1);
            }
            assert(snapshot_ok(tb, c1v, c2v, s.top_words@));
        }
        Some(m)
    }
}

/// Restores one chain from its snapshot entries: keys must be fresh and
/// every successor list well formed for the chain length.
fn restore_chain(
    entries: &Vec<(u64, Vec<u64>)>,
    tlen: u64,
    min_len: usize,
    Ghost(ok): Ghost<bool>,
) -> (r: Option<(HashMap<u64, Vec<u64>>, Vec<u64>)>)
    requires
        ok ==> forall|q: int| 0 <= q < entries@.len() ==> {
            let v = (#[trigger] chain_views(entries@)[q]).1;
            &&& v.len() >= min_len
            &&& v.no_duplicates()
            &&& (forall|x: int| 0 <= x < v.len() ==> (#[trigger] v[x]) < tlen)
        },
        ok ==> chain_views(entries@).map_values(|p: (u64, Seq<u64>)| p.0).no_duplicates(),
    ensures
        r matches Some(pair) ==> {
            let (map, keys) = pair;
            &&& keys@.no_duplicates()
            &&& (forall|k: u64| map@.contains_key(k) <==> keys@.contains(k))
            &&& (forall|k: u64| #[trigger] map@.contains_key(k) ==> {
                let v = map@[k]@;
                &&& v.len() >= min_len
                &&& v.no_duplicates()
                &&& (forall|x: int| 0 <= x < v.len() ==> (#[trigger] v[x]) < tlen)
            })
            &&& (forall|q: int| 0 <= q < chain_views(entries@).len() ==> {
                let p = #[trigger] chain_views(entries@)[q];
                &&& map@.contains_key(p.0)
                &&& map@[p.0]@ == p.1
            })
            &&& (forall|k: u64| map@.contains_key(k) ==> exists|q: int|
                0 <= q < chain_views(entries@).len()
                    && (#[trigger] chain_views(entries@)[q]).0 == k)
            &&& keys@.len() == chain_views(entries@).len()
            &&& (forall|q: int| 0 <= q < keys@.len()
                ==> (#[trigger] keys@[q]) == chain_views(entries@)[q].0)
        },
        ok ==> r is Some,
{
    broadcast use vstd::std_specs::hash::group_hash_axioms;

    let ghost cv = chain_views(entries@);
    let mut map: HashMap<u64, Vec<u64>> = HashMap::new();
    let mut keys: Vec<u64> = Vec::new();
    let mut i: usize = 0;
    proof {
        assert(map@ =~= Map::<u64, Vec<u64>>::empty());
    }
    while i < entries.len()
        invariant
            cv == chain_views(entries@),
            cv.len() == entries@.len(),
            ok ==> forall|q: int| 0 <= q < entries@.len() ==> {
                let v = (#[trigger] chain_views(entries@)[q]).1;
                &&& v.len() >= min_len
                &&& v.no_duplicates()
                &&& (forall|x: int| 0 <= x < v.len() ==> (#[trigger] v[x]) < tlen)
            },
            ok ==> cv.map_values(|p: (u64, Seq<u64>)| p.0).no_duplicates(),
            i <= cv.len(),
            keys@.no_duplicates(),
            keys@.len() == i,
            forall|q: int| 0 <= q < i ==> (#[trigger] keys@[q]) == cv[q].0,
            forall|k: u64| map@.contains_key(k) <==> keys@.contains(k),
            forall|k: u64| #[trigger] map@.contains_key(k) ==> {
                let v = map@[k]@;
                &&& v.len() >= min_len
                &&& v.no_duplicates()
                &&& (forall|x: int| 0 <= x < v.len() ==> (#[trigger] v[x]) < tlen)
            },
            forall|q: int| 0 <= q < i ==> {
                let p = #[trigger] cv[q];
                &&& map@.contains_key(p.0)
                &&& map@[p.0]@ == p.1
            },
        decreases cv.len() - i,
    {
        let k = entries[i].0;
        let succs = &entries[i].1;
        proof {
            assert(cv[i as int] == (entries@[i as int].0, entries@[i as int].1@));
        }
        if map.contains_key(&k) {
            proof {
                if ok {
                    let km = cv.map_values(|p: (u64, Seq<u64>)| p.0);
                    assert(keys@.contains(k));
                    let q = choose|q: int| 0 <= q < keys@.len() && (#[trigger] keys@[q]) == k;
                    assert(km[q] == cv[q].0);
                    assert(km[i as int] == cv[i as int].0);
                    assert(false);
                }
            }
            return None;
        }
        if succs.len() < min_len || !all_distinct(succs) || !ids_below(succs, tlen) {
            proof {
                if ok {
                    assert(cv[i as int].1 == entries@[i as int].1@);
                    assert(false);
                }
            }
            return None;
        }
        let copy = clone_ids(succs);
        let ghost oldmap = map@;
        let ghost oldkeys = keys@;
        map.insert(k, copy);
        keys.push(k);
        proof {
            assert(keys@.no_duplicates()) by {
                assert forall|a: int, b: int| 0 <= a < b < keys@.len()
                    implies keys@[a] != keys@[b] by {
                    if b == keys@.len() - 1 {
                        assert(keys@[a] == oldkeys[a]);
                        assert(oldkeys.contains(oldkeys[a]));
                    }
                }
            }
            assert forall|k2: u64| map@.contains_key(k2) <==> keys@.contains(k2) by {
                if k2 == k {
                    assert(keys@[keys@.len() - 1] == k);
                    assert(keys@.contains(k));
                } else {
                    if keys@.contains(k2) {
                        let q = choose|q: int| 0 <= q < keys@.len()
                            && (#[trigger] keys@[q]) == k2;
                        assert(oldkeys[q] == k2);
                        assert(oldkeys.contains(k2));
                    }
                    if oldkeys.contains(k2) {
                        let q = choose|q: int| 0 <= q < oldkeys.len()
                            && (#[trigger] oldkeys[q]) == k2;
                        assert(keys@[q] == k2);
                        assert(keys@.contains(k2));
                    }
                }
            }
            assert forall|k2: u64| #[trigger] map@.contains_key(k2) implies {
                let v = map@[k2]@;
                &&& v.len() >= min_len
                &&& v.no_duplicates()
                &&& (forall|x: int| 0 <= x < v.len() ==> (#[trigger] v[x]) < tlen)
            } by {
                if k2 != k {
                    assert(oldmap.contains_key(k2));
                    assert(map@[k2] == oldmap[k2]);
                }
            }
            assert forall|q: int| 0 <= q < i + 1 implies {
                let p = #[trigger] cv[q];
                &&& map@.contains_key(p.0)
                &&& map@[p.0]@ == p.1
            } by {
                if q < i {
                    assert(cv[q].0 != k) by {
                        assert(keys@[q] == cv[q].0);
                    }
                    assert(oldmap.contains_key(cv[q].0));
                    assert(map@[cv[q].0] == oldmap[cv[q].0]);
                }
            }
        }
        i += 1;
    }
    proof {
        assert forall|k2: u64| map@.contains_key(k2) implies exists|q: int| 0 <= q < cv.len()
            && (#[trigger] cv[q]).0 == k2 by {
            assert(keys@.contains(k2));
            let q = choose|q: int| 0 <= q < keys@.len() && (#[trigger] keys@[q]) == k2;
            assert(cv[q].0 == k2);
        }
    }
    Some((map, keys))
}


/// Two models with the same tables answer Predict identically: the snapshot
/// round trip preserves every component, so it preserves every prediction.
pub proof fn lemma_predict_agrees(m1: ChainModel, m2: ChainModel, context: Seq<Seq<char>>, limit: int)
    requires
        m1.table() == m2.table(),
        m1.view1() == m2.view1(),
        m1.view2() == m2.view2(),
        m1.top_seq() == m2.top_seq(),
        m1.starters_seq() == m2.starters_seq(),
    ensures
        context.len() >= 1 ==> m1.predict_seq(context, limit) == m2.predict_seq(context, limit),
{
    if context.len() >= 1 {
        assert(m1.candidates(context) == m2.candidates(context));
        assert(m1.predict_seq(context, limit) =~= m2.predict_seq(context, limit));
    }
}


proof fn lemma_filter_ids_below(s: Seq<u64>, pred: spec_fn(u64) -> bool, b: int)
    requires
        forall|i: int| 0 <= i < s.len() ==> (#[trigger] s[i]) < b,
    ensures
        forall|i: int| 0 <= i < s.filter(pred).len() ==> (#[trigger] s.filter(pred)[i]) < b,
    decreases s.len(),
{
    reveal(Seq::filter);
    if s.len() > 0 {
        assert forall|i: int| 0 <= i < s.drop_last().len()
            implies (#[trigger] s.drop_last()[i]) < b by {
            assert(s.drop_last()[i] == s[i]);
        }
        lemma_filter_ids_below(s.drop_last(), pred, b);
        assert forall|i: int| 0 <= i < s.filter(pred).len()
            implies (#[trigger] s.filter(pred)[i]) < b by {
            if pred(s.last()) {
                if i < s.filter(pred).len() - 1 {
                    assert(s.filter(pred)[i] == s.drop_last().filter(pred)[i]);
                } else {
                    assert(s.filter(pred)[i] == s.last());
                    assert(s[s.len() - 1] < b);
                }
            } else {
                assert(s.filter(pred)[i] == s.drop_last().filter(pred)[i]);
            }
        }
    }
}

/// Every candidate identifier a context can reach names a stored word.
proof fn lemma_candidates_below(m: ChainModel, context: Seq<Seq<char>>)
    requires
        m.wf(),
        context.len() >= 1,
    ensures
        forall|i: int| 0 <= i < m.candidates(context).len()
            ==> (#[trigger] m.candidates(context)[i]) < m.table().len(),
{
    let two = if context.len() >= 2 {
        m.lookup2(context[context.len() - 2], context[context.len() - 1])
    } else {
        Seq::<u64>::empty()
    };
    let one = m.lookup1(context.last());
    assert forall|i: int| 0 <= i < m.candidates(context).len()
        implies (#[trigger] m.candidates(context)[i]) < m.table().len() by {
        if i < two.len() {
            assert(m.candidates(context)[i] == two[i]);
        } else {
            assert(m.candidates(context)[i] == one[i - two.len()]);
        }
    }
}

/// Top-word suppression at the word level: the table has no duplicate, so a
/// suppressed identifier's word never appears among the predictions.
pub proof fn lemma_top_words_suppressed(m: ChainModel, context: Seq<Seq<char>>, limit: int, t: int)
    requires
        m.wf(),
        context.len() >= 1,
        limit >= 0,
        0 <= t < m.top_seq().len(),
    ensures
        !m.predict_seq(context, limit).contains(m.table()[m.top_seq()[t] as int]),
{
    broadcast use vstd::prelude::Seq::lemma_filter_pred;

    let top_id = m.top_seq()[t];
    let word = m.table()[top_id as int];
    let cands = m.candidates(context);
    let pred = |id: u64| !m.top_seq().contains(id);
    let filtered = cands.filter(pred);
    let table = m.table();
    let f = filtered.map_values(|id: u64| table[id as int]);
    let res = f.take(vstd::math::min(limit, f.len() as int));
    lemma_candidates_below(m, context);
    lemma_filter_ids_below(cands, pred, m.table().len() as int);
    assert forall|j: int| 0 <= j < res.len() implies res[j] != word by {
        assert(f.take(vstd::math::min(limit, f.len() as int))[j] == f[j]);
        assert(res[j] == f[j]);
        assert(filtered.map_values(|id2: u64| table[id2 as int])[j]
            == table[filtered[j] as int]);
        assert(f[j] == table[filtered[j] as int]);
        assert(pred(filtered[j]));
        assert(!m.top_seq().contains(filtered[j]));
        assert(m.top_seq().contains(top_id));
        assert(filtered[j] != top_id);
        assert(filtered[j] < table.len());
        assert(table[filtered[j] as int] != table[top_id as int]);
    }
    if m.predict_seq(context, limit).contains(word) {
        let j = choose|j: int| 0 <= j < res.len() && res[j] == word;
    }
}

} // verus!
