//! The rebuild-or-load branching around the persistence cache: cache bytes
//! that hold a snapshot restore the index exactly and leave the cache alone;
//! anything else — absent, truncated or corrupt bytes — triggers a full
//! rebuild from the corpus and a snapshot write-back. All of it in one
//! place, fed by a caller that owns the cache bytes.
//!
//! A load is accepted only when re-encoding the decoded snapshot reproduces
//! the cache bytes exactly, so "the bytes hold a snapshot" means precisely
//! "some snapshot encodes to these bytes".

use vstd::prelude::*;
use crate::completion::CompletionIndex;
use crate::completion::word_counts;
use crate::correction::strs;
use crate::snapshot::encode_completion;
use crate::snapshot::decode_completion;
use crate::snapshot::entries_map;
use crate::snapshot::count_views;
use crate::snapshot::count_sizes_ok;
use crate::snapshot::completion_tokens;
use crate::snapshot::bytes_of;
use crate::snapshot::lemma_entries_restore;
use crate::snapshot::word_sizes_ok;
use crate::snapshot::chain_sizes_ok;
use crate::prediction::ChainModel;
use crate::prediction::ngram_predictor;
use crate::prediction::model_matches;
use crate::prediction::corpus_scan;
use crate::prediction::total_tokens;
use crate::prediction::tokenized;
use crate::prediction::snapshot_ok;
use crate::interner::interner_capacity;
use crate::snapshot::encode_predictor;
use crate::snapshot::decode_predictor;
use crate::snapshot::chain_views;
use crate::snapshot::predictor_tokens;

verus! {

/// Whether the bytes are the encoding of some completion snapshot.
pub open spec fn holds_completion_snapshot(b: Seq<u8>) -> bool {
    exists|es: Seq<(Seq<char>, u64)>| count_sizes_ok(es) && b == bytes_of(
        #[trigger] completion_tokens(es),
    )
}

/// Whether the bytes are the encoding of some restorable predictor snapshot.
pub open spec fn holds_predictor_snapshot(b: Seq<u8>) -> bool {
    exists|st: Seq<Seq<char>>, tb: Seq<Seq<char>>, c1: Seq<(u64, Seq<u64>)>, c2: Seq<
        (u64, Seq<u64>),
    >, tp: Seq<u64>|
        word_sizes_ok(st) && word_sizes_ok(tb) && chain_sizes_ok(c1) && chain_sizes_ok(c2)
            && tp.len() <= u64::MAX && snapshot_ok(tb, c1, c2, tp) && b == bytes_of(
            #[trigger] predictor_tokens(st, tb, c1, c2, tp),
        )
}

/// Whether two byte strings are equal.
fn bytes_equal(a: &Vec<u8>, b: &Vec<u8>) -> (r: bool)
    ensures
        r == (a@ == b@),
{
    if a.len() != b.len() {
        proof {
            assert(a@ != b@);
        }
        return false;
    }
    let mut i: usize = 0;
    while i < a.len()
        invariant
            a@.len() == b@.len(),
            i <= a@.len(),
            forall|k: int| 0 <= k < i ==> a@[k] == b@[k],
        decreases a@.len() - i,
    {
        if a[i] != b[i] {
            proof {
                assert(a@ != b@);
            }
            return false;
        }
        i += 1;
    }
    proof {
        assert(a@ =~= b@);
    }
    true
}

/// Loads the completion index from cache bytes, or rebuilds it from the
/// corpus words and hands back the snapshot bytes to persist: cache bytes
/// that encode a snapshot restore exactly its counts and write nothing
/// back; all other cache states force a rebuild and a write-back that
/// encodes the rebuilt counts.
pub fn load_or_build_completion(cached: Option<&Vec<u8>>, words: &Vec<String>) -> (r: (
    CompletionIndex,
    Option<Vec<u8>>,
))
    ensures
        // a cache that holds a snapshot is loaded, not rebuilt, not rewritten
        forall|es: Seq<(Seq<char>, u64)>| (cached matches Some(b) && count_sizes_ok(es) && b@
            == bytes_of(#[trigger] completion_tokens(es))) ==> r.1 is None && r.0.counts()
            == entries_map(es),
        // anything else is treated as a miss: rebuild and write back
        (cached is None || (cached matches Some(b) && !holds_completion_snapshot(b@)))
            ==> r.1 is Some && r.0.counts() == word_counts(strs(words@)),
        // the write-back holds a snapshot that restores the rebuilt counts
        r.1 matches Some(bytes) ==> r.0.counts() == word_counts(strs(words@)) && exists|
            es: Seq<(Seq<char>, u64)>,
        |
            count_sizes_ok(es) && bytes@ == bytes_of(#[trigger] completion_tokens(es))
                && entries_map(es) == r.0.counts(),
{
    match cached {
        Some(bytes) => match decode_completion(bytes) {
            Some(snapshot) => {
                let reencoded = encode_completion(&snapshot);
                if bytes_equal(bytes, &reencoded) {
                    let index = CompletionIndex::from_snapshot(&snapshot);
                    proof {
                        let ev = count_views(snapshot.entries@);
                        assert(bytes@ == bytes_of(completion_tokens(ev)));
                        assert forall|es: Seq<(Seq<char>, u64)>| count_sizes_ok(es) && bytes@
                            == bytes_of(#[trigger] completion_tokens(es)) implies entries_map(es)
                            == index.counts() by {
                            assert(count_views(snapshot.entries@) == es);
                        }
                        assert(holds_completion_snapshot(bytes@));
                    }
                    (index, None)
                } else {
                    proof {
                        // bytes that held a snapshot would decode to it and
                        // re-encode to themselves
                        assert forall|es: Seq<(Seq<char>, u64)>| count_sizes_ok(es) && bytes@
                            == bytes_of(#[trigger] completion_tokens(es)) implies false by {
                            assert(count_views(snapshot.entries@) == es);
                        }
                        assert(!holds_completion_snapshot(bytes@));
                    }
                    rebuild_completion(words)
                }
            },
            None => {
                proof {
                    assert forall|es: Seq<(Seq<char>, u64)>| count_sizes_ok(es) && bytes@
                        == bytes_of(#[trigger] completion_tokens(es)) implies false by {}
                    assert(!holds_completion_snapshot(bytes@));
                }
                rebuild_completion(words)
            },
        },
        None => rebuild_completion(words),
    }
}

fn rebuild_completion(words: &Vec<String>) -> (r: (CompletionIndex, Option<Vec<u8>>))
    ensures
        r.0.counts() == word_counts(strs(words@)),
        r.1 matches Some(bytes) ==> exists|es: Seq<(Seq<char>, u64)>|
            count_sizes_ok(es) && bytes@ == bytes_of(#[trigger] completion_tokens(es))
                && entries_map(es) == r.0.counts(),
        r.1 is Some,
{
    let index = CompletionIndex::build(words);
    let snapshot = index.to_snapshot();
    let bytes = encode_completion(&snapshot);
    proof {
        lemma_entries_restore(count_views(snapshot.entries@), index.counts());
    }
    (index, Some(bytes))
}

/// Loads the chain model from cache bytes, or rebuilds it from the corpus
/// sentences and hands back the snapshot bytes to persist: cache bytes that
/// encode a restorable snapshot yield a model with exactly those tables and
/// write nothing back; all other cache states force a rebuild and a
/// write-back that encodes the rebuilt model.
pub fn load_or_build_predictor(cached: Option<&Vec<u8>>, sentences: &Vec<String>) -> (r: (
    ChainModel,
    Option<Vec<u8>>,
))
    requires
        total_tokens(tokenized(strs(sentences@))) < interner_capacity(),
    ensures
        r.0.wf(),
        // a cache that holds a restorable snapshot is loaded, not rebuilt
        forall|st: Seq<Seq<char>>, tb: Seq<Seq<char>>, c1: Seq<(u64, Seq<u64>)>, c2: Seq<
            (u64, Seq<u64>),
        >, tp: Seq<u64>|
            (cached matches Some(b) && word_sizes_ok(st) && word_sizes_ok(tb) && chain_sizes_ok(c1)
                && chain_sizes_ok(c2) && tp.len() <= u64::MAX && snapshot_ok(tb, c1, c2, tp) && b@
                == bytes_of(#[trigger] predictor_tokens(st, tb, c1, c2, tp))) ==> {
                &&& r.1 is None
                &&& r.0.table() == tb
                &&& r.0.starters_seq() == st
                &&& r.0.top_seq() == tp
                &&& (forall|q: int| 0 <= q < c1.len() ==> r.0.view1().contains_key(
                    (#[trigger] c1[q]).0,
                ) && r.0.view1()[c1[q].0]@ == c1[q].1)
                &&& (forall|k: u64| r.0.view1().contains_key(k) ==> exists|q: int| 0 <= q < c1.len()
                    && (#[trigger] c1[q]).0 == k)
                &&& (forall|q: int| 0 <= q < c2.len() ==> r.0.view2().contains_key(
                    (#[trigger] c2[q]).0,
                ) && r.0.view2()[c2[q].0]@ == c2[q].1)
                &&& (forall|k: u64| r.0.view2().contains_key(k) ==> exists|q: int| 0 <= q < c2.len()
                    && (#[trigger] c2[q]).0 == k)
            },
        // anything else is treated as a miss: rebuild and write back
        (cached is None || (cached matches Some(b) && !holds_predictor_snapshot(b@)))
            ==> r.1 is Some && model_matches(r.0, corpus_scan(strs(sentences@)), 7),
        r.1 is Some ==> model_matches(r.0, corpus_scan(strs(sentences@)), 7),
{
    match cached {
        Some(bytes) => match decode_predictor(bytes) {
            Some(snapshot) => {
                let reencoded = encode_predictor(&snapshot);
                if bytes_equal(bytes, &reencoded) {
                    match ChainModel::from_snapshot(&snapshot) {
                        Some(model) => {
                            proof {
                                assert(bytes@ == bytes_of(predictor_tokens(
                                    strs(snapshot.starters@),
                                    strs(snapshot.table@),
                                    chain_views(snapshot.chains1@),
                                    chain_views(snapshot.chains2@),
                                    snapshot.top_words@,
                                )));
                                assert(holds_predictor_snapshot(bytes@));
                            }
                            (model, None)
                        },
                        None => {
                            proof {
                                // a restorable snapshot would have restored
                                assert forall|st: Seq<Seq<char>>, tb: Seq<Seq<char>>, c1: Seq<
                                    (u64, Seq<u64>),
                                >, c2: Seq<(u64, Seq<u64>)>, tp: Seq<u64>|
                                    word_sizes_ok(st) && word_sizes_ok(tb) && chain_sizes_ok(c1)
                                        && chain_sizes_ok(c2) && tp.len() <= u64::MAX
                                        && snapshot_ok(tb, c1, c2, tp) && bytes@ == bytes_of(
                                        #[trigger] predictor_tokens(st, tb, c1, c2, tp),
                                    ) implies false by {
                                    assert(strs(snapshot.table@) == tb);
                                    assert(chain_views(snapshot.chains1@) == c1);
                                    assert(chain_views(snapshot.chains2@) == c2);
                                    assert(snapshot.top_words@ == tp);
                                }
                                assert(!holds_predictor_snapshot(bytes@));
                            }
                            rebuild_predictor(sentences)
                        },
                    }
                } else {
                    proof {
                        assert forall|st: Seq<Seq<char>>, tb: Seq<Seq<char>>, c1: Seq<
                            (u64, Seq<u64>),
                        >, c2: Seq<(u64, Seq<u64>)>, tp: Seq<u64>|
                            word_sizes_ok(st) && word_sizes_ok(tb) && chain_sizes_ok(c1)
                                && chain_sizes_ok(c2) && tp.len() <= u64::MAX && snapshot_ok(
                                tb,
                                c1,
                                c2,
                                tp,
                            ) && bytes@ == bytes_of(
                                #[trigger] predictor_tokens(st, tb, c1, c2, tp),
                            ) implies false by {
                            assert(strs(snapshot.starters@) == st);
                            assert(strs(snapshot.table@) == tb);
                            assert(chain_views(snapshot.chains1@) == c1);
                            assert(chain_views(snapshot.chains2@) == c2);
                            assert(snapshot.top_words@ == tp);
                        }
                        assert(!holds_predictor_snapshot(bytes@));
                    }
                    rebuild_predictor(sentences)
                }
            },
            None => {
                proof {
                    assert forall|st: Seq<Seq<char>>, tb: Seq<Seq<char>>, c1: Seq<
                        (u64, Seq<u64>),
                    >, c2: Seq<(u64, Seq<u64>)>, tp: Seq<u64>|
                        word_sizes_ok(st) && word_sizes_ok(tb) && chain_sizes_ok(c1)
                            && chain_sizes_ok(c2) && tp.len() <= u64::MAX && snapshot_ok(
                            tb,
                            c1,
                            c2,
                            tp,
                        ) && bytes@ == bytes_of(
                            #[trigger] predictor_tokens(st, tb, c1, c2, tp),
                        ) implies false by {}
                    assert(!holds_predictor_snapshot(bytes@));
                }
                rebuild_predictor(sentences)
            },
        },
        None => rebuild_predictor(sentences),
    }
}

fn rebuild_predictor(sentences: &Vec<String>) -> (r: (ChainModel, Option<Vec<u8>>))
    requires
        total_tokens(tokenized(strs(sentences@))) < interner_capacity(),
    ensures
        r.0.wf(),
        model_matches(r.0, corpus_scan(strs(sentences@)), 7),
        r.1 is Some,
{
    let model = ngram_predictor(sentences);
    let snapshot = model.to_snapshot();
    let bytes = encode_predictor(&snapshot);
    (model, Some(bytes))
}

} // verus!
