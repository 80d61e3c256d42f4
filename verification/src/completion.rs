//! Completion index: a prefix tree over every distinct corpus word, keyed by
//! the word and valued by its occurrence count, with prefix lookup.

use vstd::prelude::*;
use patricia_tree::GenericPatriciaMap;
use crate::correction::strs;
use crate::sort::sort_pairs;
use crate::sort::pair_le;
use crate::snapshot::CompletionSnapshot;
use crate::snapshot::count_views;
use crate::snapshot::entries_map;

verus! {

#[verifier::external_type_specification]
#[verifier::external_body]
#[verifier::reject_recursive_types(K)]
#[verifier::reject_recursive_types(V)]
pub struct ExGenericPatriciaMap<K, V>(GenericPatriciaMap<K, V>);

/// The prefix tree type that backs the index: word keys, count values.
pub type WordTree = GenericPatriciaMap<String, u64>;

/// One stored entry: a word and its occurrence count.
pub type WordCount = (String, u64);

/// The (word, count) entries that a patricia map holds.
pub uninterp spec fn word_map(m: WordTree) -> Map<Seq<char>, u64>;

/// Relies on GenericPatriciaMap::new: the empty map.
#[verifier::external_body]
fn pm_new() -> (r: WordTree)
    ensures
        word_map(r) == (Map::<Seq<char>, u64>::empty()),
{
    GenericPatriciaMap::new()
}

/// Relies on GenericPatriciaMap::get: the value stored under the key, if any.
#[verifier::external_body]
fn pm_get(m: &WordTree, key: &str) -> (r: Option<u64>)
    ensures
        r == if word_map(*m).contains_key(key@) {
            Some(word_map(*m)[key@])
        } else {
            None::<u64>
        },
{
    m.get(key).copied()
}

/// Relies on GenericPatriciaMap::insert: stores the value under the key,
/// replacing any earlier value.
#[verifier::external_body]
fn pm_insert(m: &mut WordTree, key: &str, value: u64)
    ensures
        word_map(*final(m)) == word_map(*old(m)).insert(key@, value),
{
    m.insert(key, value);
}

/// Relies on GenericPatriciaMap::iter_prefix: every stored entry whose key
/// extends the given prefix, each exactly once. The tree compares keys
/// bytewise; on its UTF-8 keys that coincides with character-wise prefixes.
#[verifier::external_body]
fn pm_prefix_entries(m: &WordTree, prefix: &str) -> (r: Vec<WordCount>)
    ensures
        forall|i: int| 0 <= i < r@.len() ==> #[trigger] word_map(*m).contains_key(r@[i].0@)
            && r@[i].1 == word_map(*m)[r@[i].0@]
            && prefix@.is_prefix_of(r@[i].0@),
        forall|w: Seq<char>| #[trigger] word_map(*m).contains_key(w) && prefix@.is_prefix_of(w)
            ==> exists|i: int| 0 <= i < r@.len() && r@[i].0@ == w,
        forall|i: int, j: int| 0 <= i < j < r@.len() ==> r@[i].0@ != r@[j].0@,
{
    m.iter_prefix(prefix).map(|(k, v)| (k, *v)).collect()
}

/// How often each word occurs in a word sequence.
pub open spec fn word_counts(ws: Seq<Seq<char>>) -> Map<Seq<char>, u64> {
    Map::new(
        |w: Seq<char>| ws.to_multiset().count(w) > 0,
        |w: Seq<char>| ws.to_multiset().count(w) as u64,
    )
}

/// The prefix tree of corpus words and their occurrence counts.
pub struct CompletionIndex {
    map: WordTree,
}

impl CompletionIndex {
    /// The stored word-to-count mapping.
    pub closed spec fn counts(self) -> Map<Seq<char>, u64> {
        word_map(self.map)
    }

    /// Builds the index by scanning the word sequence once: each occurrence
    /// of a word raises its count by one, starting at one.
    pub fn build(words: &Vec<String>) -> (index: CompletionIndex)
        ensures
            index.counts() == word_counts(strs(words@)),
    {
        let ghost ws = strs(words@);
        let mut map = pm_new();
        proof {
            broadcast use vstd::seq_lib::group_to_multiset_ensures;
            assert(word_map(map) =~= word_counts(ws.take(0)));
        }
        let mut i: usize = 0;
        while i < words.len()
            invariant
                strs(words@) == ws,
                i <= ws.len(),
                word_map(map) == word_counts(ws.take(i as int)),
                forall|w: Seq<char>| ws.take(i as int).to_multiset().count(w) <= i,
            decreases ws.len() - i,
        {
            let word = &words[i];
            proof {
                assert(strs(words@)[i as int] == words@[i as int]@);
            }
            let count = match pm_get(&map, word.as_str()) {
                Some(c) => c,
                None => 0,
            };
            proof {
                broadcast use vstd::seq_lib::group_to_multiset_ensures;
                assert(count <= i);
                assert(i < usize::MAX);
            }
            pm_insert(&mut map, word.as_str(), count + 1);
            proof {
                broadcast use vstd::seq_lib::group_to_multiset_ensures;
                broadcast use vstd::multiset::group_multiset_properties;
                assert(ws.take(i + 1) =~= ws.take(i as int).push(ws[i as int]));
                assert(ws.take(i + 1).to_multiset() =~= ws.take(i as int).to_multiset().insert(
                    ws[i as int]));
                assert(word_map(map) =~= word_counts(ws.take(i + 1)));
            }
            i += 1;
        }
        proof {
            assert(ws.take(ws.len() as int) =~= ws);
        }
        CompletionIndex { map }
    }

    /// Every stored word having the fragment as a prefix, with its count,
    /// ascending by count; ties carry no promised order.
    pub fn query(&self, fragment: &str) -> (r: Vec<(String, u64)>)
        ensures
            forall|i: int| 0 <= i < r@.len() ==> #[trigger] self.counts().contains_key(r@[i].0@)
                && r@[i].1 == self.counts()[r@[i].0@]
                && fragment@.is_prefix_of(r@[i].0@),
            forall|w: Seq<char>| #[trigger] self.counts().contains_key(w)
                && fragment@.is_prefix_of(w)
                ==> exists|i: int| 0 <= i < r@.len() && r@[i].0@ == w,
            forall|i: int, j: int| 0 <= i < j < r@.len() ==> r@[i].0@ != r@[j].0@,
            forall|i: int, j: int| 0 <= i < j < r@.len() ==> r@[i].1 <= r@[j].1,
    {
        let entries = pm_prefix_entries(&self.map, fragment);
        let n = entries.len();
        let mut pairs: Vec<(u64, u64)> = Vec::new();
        let mut i: usize = 0;
        while i < n
            invariant
                entries@.len() == n,
                i <= entries@.len(),
                pairs@.len() == i,
                forall|k: int| 0 <= k < i ==> #[trigger] pairs@[k] == (entries@[k].1, k as u64),
            decreases entries@.len() - i,
        {
            let c = entries[i].1;
            pairs.push((c, i as u64));
            i += 1;
        }
        let sorted = sort_pairs(&pairs);
        proof {
            broadcast use vstd::seq_lib::group_to_multiset_ensures;
        }
        let mut r: Vec<(String, u64)> = Vec::new();
        let mut i: usize = 0;
        while i < sorted.len()
            invariant
                i <= sorted@.len(),
                r@.len() == i,
                entries@.len() == n,
                sorted@.len() == entries@.len(),
                sorted@.to_multiset() == pairs@.to_multiset(),
                pairs@.len() == entries@.len(),
                forall|k: int| 0 <= k < pairs@.len()
                    ==> #[trigger] pairs@[k] == (entries@[k].1, k as u64),
                crate::sort::pairs_sorted(sorted@),
                forall|k: int| 0 <= k < i ==> (#[trigger] sorted@[k]).1 < entries@.len(),
                forall|k: int| 0 <= k < i ==> #[trigger] r@[k] == (
                    entries@[sorted@[k].1 as int].0,
                    entries@[sorted@[k].1 as int].1,
                ),
            decreases sorted@.len() - i,
        {
            proof {
                broadcast use vstd::seq_lib::group_to_multiset_ensures;
                let x = sorted@[i as int];
                assert(sorted@.contains(x));
                assert(sorted@.to_multiset().count(x) > 0);
                assert(pairs@.to_multiset().count(x) > 0);
                assert(pairs@.contains(x));
                let k = choose|k: int| 0 <= k < pairs@.len() && pairs@[k] == x;
                assert(pairs@[k] == (entries@[k].1, k as u64));
                assert(x.1 == k as u64);
                assert(k <= usize::MAX);
                assert(x.1 < entries@.len());
            }
            let idx = sorted[i].1 as usize;
            let entry = &entries[idx];
            let word = entry.0.clone();
            let c = entry.1;
            proof {
                assert(idx as int == sorted@[i as int].1 as int);
                assert((word, c) == (
                    entries@[sorted@[i as int].1 as int].0,
                    entries@[sorted@[i as int].1 as int].1,
                ));
            }
            r.push((word, c));
            i += 1;
        }
        proof {
            broadcast use vstd::seq_lib::group_to_multiset_ensures;
            let es = entries@;
            let ss = sorted@;
            // each sorted pair restates the count of the entry it points at
            assert forall|t: int| 0 <= t < ss.len() implies (#[trigger] ss[t]).0
                == es[ss[t].1 as int].1 by {
                assert(ss.contains(ss[t]));
                assert(ss.to_multiset().count(ss[t]) > 0);
                assert(pairs@.to_multiset().count(ss[t]) > 0);
                assert(pairs@.contains(ss[t]));
                let k = choose|k: int| 0 <= k < pairs@.len() && pairs@[k] == ss[t];
                assert(pairs@[k] == (es[k].1, k as u64));
                assert(k <= usize::MAX);
            }
            // sorted pairs carry the counts, so output counts ascend
            assert forall|i2: int, j2: int| 0 <= i2 < j2 < r@.len() implies r@[i2].1 <= r@[j2].1 by {
                assert(pair_le(ss[i2], ss[j2]));
                assert(r@[i2].1 == ss[i2].0 && r@[j2].1 == ss[j2].0);
            }
            // distinct positions carry distinct original indices, and those
            // carry distinct words
            assert(pairs@.no_duplicates());
            pairs@.lemma_multiset_has_no_duplicates();
            assert forall|i2: int, j2: int| 0 <= i2 < j2 < r@.len() implies r@[i2].0@ != r@[j2].0@ by {
                if ss[i2].1 == ss[j2].1 {
                    assert(ss.contains(ss[i2]));
                    assert(ss.to_multiset().count(ss[i2]) > 0);
                    assert(pairs@.to_multiset().count(ss[i2]) > 0);
                    assert(pairs@.contains(ss[i2]));
                    let k1 = choose|k1: int| 0 <= k1 < pairs@.len() && pairs@[k1] == ss[i2];
                    assert(ss.contains(ss[j2]));
                    assert(ss.to_multiset().count(ss[j2]) > 0);
                    assert(pairs@.to_multiset().count(ss[j2]) > 0);
                    assert(pairs@.contains(ss[j2]));
                    let k2 = choose|k2: int| 0 <= k2 < pairs@.len() && pairs@[k2] == ss[j2];
                    assert(pairs@[k1].1 == k1 as u64 && pairs@[k2].1 == k2 as u64);
                    assert(k1 == k2);
                    assert(ss[i2] == ss[j2]);
                    let m1 = ss.remove(j2);
                    assert(m1.to_multiset() == ss.to_multiset().remove(ss[j2]));
                    assert(m1[i2] == ss[i2]);
                    assert(m1.contains(ss[i2]));
                    assert(m1.to_multiset().count(ss[i2]) > 0);
                    assert(ss.to_multiset().count(ss[i2]) >= 2);
                    assert(pairs@.to_multiset().count(ss[i2]) >= 2);
                    assert(false);
                } else {
                    assert(es[ss[i2].1 as int].0@ != es[ss[j2].1 as int].0@);
                }
            }
            // every prefixed stored word appears somewhere in the output
            assert forall|w: Seq<char>| #[trigger] self.counts().contains_key(w)
                && fragment@.is_prefix_of(w) implies exists|i2: int|
                0 <= i2 < r@.len() && r@[i2].0@ == w by {
                let k = choose|k: int| 0 <= k < es.len() && es[k].0@ == w;
                assert(pairs@[k] == (es[k].1, k as u64));
                assert(pairs@.to_multiset().count(pairs@[k]) > 0);
                assert(ss.to_multiset().count(pairs@[k]) > 0);
                assert(ss.contains(pairs@[k]));
                let i2 = choose|i2: int| 0 <= i2 < ss.len() && ss[i2] == pairs@[k];
                assert(r@[i2].0@ == w);
            }
        }
        r
    }
}

/// Prefix correctness: a built index stores a word exactly when the corpus
/// holds it, so `query` returns a word exactly when the corpus holds it and
/// the fragment is its prefix.
pub proof fn lemma_query_prefix_correct(ws: Seq<Seq<char>>, f: Seq<char>, w: Seq<char>)
    ensures
        (word_counts(ws).contains_key(w) && f.is_prefix_of(w)) <==> (ws.contains(w)
            && f.is_prefix_of(w)),
{
    broadcast use vstd::seq_lib::group_to_multiset_ensures;

    assert(word_counts(ws).contains_key(w) <==> ws.to_multiset().count(w) > 0);
    assert(ws.to_multiset().contains(w) <==> ws.contains(w));
}

/// Building the index is deterministic up to word multiplicity: two corpora
/// with the same word multiset yield identical word-to-count mappings.
pub proof fn lemma_build_order_independent(ws1: Seq<Seq<char>>, ws2: Seq<Seq<char>>)
    requires
        ws1.to_multiset() == ws2.to_multiset(),
    ensures
        word_counts(ws1) == word_counts(ws2),
{
    assert(word_counts(ws1) =~= word_counts(ws2));
}


impl CompletionIndex {
    /// The index content as a snapshot: every stored word with its count,
    /// each exactly once.
    pub fn to_snapshot(&self) -> (s: CompletionSnapshot)
        ensures
            forall|i: int| 0 <= i < s.entries@.len()
                ==> self.counts().contains_key((#[trigger] count_views(s.entries@)[i]).0)
                && count_views(s.entries@)[i].1 == self.counts()[count_views(s.entries@)[i].0],
            forall|w: Seq<char>| #[trigger] self.counts().contains_key(w) ==> exists|i: int|
                0 <= i < s.entries@.len() && (#[trigger] count_views(s.entries@)[i]).0 == w,
            forall|i: int, j: int| 0 <= i < j < s.entries@.len()
                ==> count_views(s.entries@)[i].0 != count_views(s.entries@)[j].0,
    {
        let empty = String::new();
        let entries = pm_prefix_entries(&self.map, empty.as_str());
        let snap = CompletionSnapshot { entries };
        proof {
            let ev = count_views(snap.entries@);
            assert forall|i: int| 0 <= i < snap.entries@.len() implies self.counts().contains_key(
                (#[trigger] ev[i]).0,
            ) && ev[i].1 == self.counts()[ev[i].0] by {
                assert(ev[i] == (snap.entries@[i].0@, snap.entries@[i].1));
            }
            assert forall|w: Seq<char>| #[trigger] self.counts().contains_key(w)
                implies exists|i: int| 0 <= i < snap.entries@.len()
                && (#[trigger] ev[i]).0 == w by {
                assert(empty@.is_prefix_of(w)) by {
                    assert(empty@ =~= w.take(0));
                }
                let i = choose|i: int| 0 <= i < snap.entries@.len() && snap.entries@[i].0@ == w;
                assert(ev[i] == (snap.entries@[i].0@, snap.entries@[i].1));
            }
            assert forall|i: int, j: int| 0 <= i < j < snap.entries@.len() implies ev[i].0
                != ev[j].0 by {
                assert(ev[i] == (snap.entries@[i].0@, snap.entries@[i].1));
                assert(ev[j] == (snap.entries@[j].0@, snap.entries@[j].1));
            }
        }
        snap
    }

    /// Rebuilds an index from a snapshot: exactly the listed entries, later
    /// duplicates winning.
    pub fn from_snapshot(s: &CompletionSnapshot) -> (index: CompletionIndex)
        ensures
            index.counts() == entries_map(count_views(s.entries@)),
    {
        let ghost ev = count_views(s.entries@);
        let mut map = pm_new();
        proof {
            assert(ev.take(0) =~= Seq::<(Seq<char>, u64)>::empty());
            assert(word_map(map) =~= entries_map(ev.take(0)));
        }
        let mut i: usize = 0;
        while i < s.entries.len()
            invariant
                ev == count_views(s.entries@),
                ev.len() == s.entries@.len(),
                i <= s.entries@.len(),
                word_map(map) == entries_map(ev.take(i as int)),
            decreases s.entries@.len() - i,
        {
            let entry = &s.entries[i];
            pm_insert(&mut map, entry.0.as_str(), entry.1);
            proof {
                assert(ev[i as int] == (s.entries@[i as int].0@, s.entries@[i as int].1));
                assert(ev.take(i + 1).drop_last() =~= ev.take(i as int));
                assert(ev.take(i + 1).last() == ev[i as int]);
                assert(word_map(map) =~= entries_map(ev.take(i + 1)));
            }
            i += 1;
        }
        proof {
            assert(ev.take(ev.len() as int) =~= ev);
        }
        CompletionIndex { map }
    }
}

} // verus!
