//! Suggestion orchestrator: combines the completion index, the n-gram chain
//! model and the fuzzy corrector into one ranked response for a request.

use vstd::prelude::*;
use crate::completion::CompletionIndex;
use crate::prediction::ChainModel;
use crate::corpus::split_to_words;
use crate::corpus::split_words_spec;
use crate::correction::strs;
use crate::correction::tier1_of;
use crate::correction::tier2_of;
use crate::correction::tier1_variations;
use crate::correction::tier2_only_variations;
use crate::correction::char_vec;
use crate::distance::lev;
use crate::distance::levenshtein_distance;
use crate::text::chars_of;
use crate::text::string_of;

verus! {

/// A suggestion request: the text typed so far, and a reserved field.
pub struct Request {
    pub previous: String,
    pub next: String,
}

/// The ranked suggestions: completions of the trailing fragment, and
/// predictions of what might follow it.
pub struct Response {
    pub completions: Vec<String>,
    pub predictions: Vec<String>,
}

/// A context prediction is kept when it extends the fragment, or its prefix
/// of the fragment's length lies within edit distance three.
pub open spec fn keeps_prediction(frag: Seq<char>, w: Seq<char>) -> bool {
    frag.is_prefix_of(w) || lev(
        frag,
        w.take(vstd::math::min(frag.len() as int, w.len() as int)),
    ) < 3
}

/// The context predictions that survive the fragment filter.
pub open spec fn surviving_predictions(
    model: ChainModel,
    ctx: Seq<Seq<char>>,
    frag: Seq<char>,
) -> Seq<Seq<char>> {
    (if ctx.len() == 0 {
        model.starters_seq()
    } else {
        model.predict_seq(ctx, 7)
    }).filter(|w: Seq<char>| keeps_prediction(frag, w))
}

/// A stored word above the caller's count threshold that extends the prefix.
pub open spec fn matching(index: CompletionIndex, p: Seq<char>, w: Seq<char>) -> bool {
    &&& index.counts().contains_key(w)
    &&& index.counts()[w] > 2
    &&& p.is_prefix_of(w)
}

/// The best completion of a prefix: a qualifying hit that no stored
/// extension of the prefix outcounts.
pub open spec fn is_best_hit(index: CompletionIndex, p: Seq<char>, w: Seq<char>) -> bool {
    &&& matching(index, p, w)
    &&& (forall|w2: Seq<char>| #[trigger] index.counts().contains_key(w2) && p.is_prefix_of(w2)
        ==> index.counts()[w2] <= index.counts()[w])
}

/// The best hit of one of the listed variations.
pub open spec fn best_of_variation(
    index: CompletionIndex,
    vars: Seq<Seq<char>>,
    w: Seq<char>,
) -> bool {
    exists|v: Seq<char>| #[trigger] vars.contains(v) && is_best_hit(index, v, w)
}

/// How the completions list is assembled: the surviving context predictions
/// `pf` first, then the direct prefix completions, then the recoveries of
/// the two fuzzy tiers. An empty fragment never reaches the index; the three
/// appended segments together stay within the cap of seven; the direct pass
/// lists qualifying extensions of the fragment best-first and, while the cap
/// is unreached, all of them; each tier runs only on its trigger conditions
/// and, while the cap is unreached, recovers the best hit of every variation
/// that has one. Equal counts carry no promised order, so the segments are
/// pinned up to the index's tie order.
pub open spec fn completions_assembled(
    index: CompletionIndex,
    frag: Seq<char>,
    pf: Seq<Seq<char>>,
    direct: Seq<Seq<char>>,
    f1: Seq<Seq<char>>,
    f2: Seq<Seq<char>>,
    out: Seq<Seq<char>>,
) -> bool {
    &&& out == pf + direct + f1 + f2
    &&& direct.len() + f1.len() + f2.len() <= 7
    &&& (frag.len() == 0 ==> direct.len() == 0 && f1.len() == 0 && f2.len() == 0)
    // the direct pass
    &&& (forall|a: int| 0 <= a < direct.len() ==> matching(index, frag, #[trigger] direct[a]))
    &&& (forall|a: int, b: int| 0 <= a < b < direct.len()
        ==> index.counts()[direct[a]] >= index.counts()[direct[b]])
    &&& (frag.len() > 0 && direct.len() < 7 ==> forall|w: Seq<char>| matching(index, frag, w)
        ==> direct.contains(w))
    // the one-edit tier
    &&& (f1.len() > 0 ==> direct.len() < 7 && frag.len() > 2)
    &&& (forall|j: int| 0 <= j < f1.len() ==> best_of_variation(
        index,
        tier1_of(frag),
        #[trigger] f1[j],
    ))
    &&& (2 < frag.len() < usize::MAX && direct.len() + f1.len() + f2.len() < 7
        ==> forall|v: Seq<char>| #[trigger] tier1_of(frag).contains(v) && (exists|w: Seq<char>|
        matching(index, v, w)) ==> exists|j: int| 0 <= j < f1.len() && v.is_prefix_of(
        #[trigger] f1[j],
    ))
    // the two-edit tier
    &&& (f2.len() > 0 ==> direct.len() + f1.len() < 7 && frag.len() > 3)
    &&& (forall|j: int| 0 <= j < f2.len() ==> best_of_variation(
        index,
        tier2_of(frag),
        #[trigger] f2[j],
    ))
    &&& (3 < frag.len() && frag.len() < usize::MAX - 1 && direct.len() + f1.len() + f2.len() < 7
        ==> forall|v: Seq<char>| #[trigger] tier2_of(frag).contains(v) && (exists|w: Seq<char>|
        matching(index, v, w)) ==> exists|j: int| 0 <= j < f2.len() && v.is_prefix_of(
        #[trigger] f2[j],
    ))
}

/// Some segmentation of the completions list fits the assembly rules.
pub open spec fn completions_ok(
    index: CompletionIndex,
    frag: Seq<char>,
    pf: Seq<Seq<char>>,
    out: Seq<Seq<char>>,
) -> bool {
    exists|direct: Seq<Seq<char>>, f1: Seq<Seq<char>>, f2: Seq<Seq<char>>|
        completions_assembled(index, frag, pf, direct, f1, f2, out)
}

/// Exhibiting one segmentation establishes the assembly.
pub proof fn lemma_completions_ok(
    index: CompletionIndex,
    frag: Seq<char>,
    pf: Seq<Seq<char>>,
    direct: Seq<Seq<char>>,
    f1: Seq<Seq<char>>,
    f2: Seq<Seq<char>>,
    out: Seq<Seq<char>>,
)
    requires
        completions_assembled(index, frag, pf, direct, f1, f2, out),
    ensures
        completions_ok(index, frag, pf, out),
{
}

/// The whole answer to one request: the completions assembled from the
/// surviving predictions, the direct pass and the fuzzy tiers; and the
/// re-prediction — from the best completion candidate, from the fragment as
/// typed when none was found, or the sentence starters when nothing was
/// typed at all.
pub open spec fn respond_post(
    index: CompletionIndex,
    model: ChainModel,
    previous: Seq<char>,
    r: Response,
) -> bool {
    let toks = split_words_spec(previous);
    let frag = if toks.len() > 0 {
        toks.last()
    } else {
        Seq::empty()
    };
    let ctx = if toks.len() > 0 {
        toks.drop_last()
    } else {
        toks
    };
    let pf = surviving_predictions(model, ctx, frag);
    let best = if strs(r.completions@).len() > 0 {
        strs(r.completions@)[0]
    } else {
        frag
    };
    &&& completions_ok(index, frag, pf, strs(r.completions@))
    &&& (toks.len() == 0 ==> strs(r.predictions@) == model.starters_seq())
    &&& (toks.len() > 0 ==> strs(r.predictions@) == model.predict_seq(ctx.push(best), 7))
}

/// Whether one word starts with another.
fn starts_with_chars(w: &str, p: &str) -> (r: bool)
    ensures
        r == p@.is_prefix_of(w@),
{
    let wc = chars_of(w);
    let pc = chars_of(p);
    if pc.len() > wc.len() {
        proof {
            assert(!p@.is_prefix_of(w@));
        }
        return false;
    }
    let mut i: usize = 0;
    while i < pc.len()
        invariant
            wc@ == w@,
            pc@ == p@,
            p@.len() <= w@.len(),
            i <= p@.len(),
            forall|k: int| 0 <= k < i ==> p@[k] == w@[k],
        decreases pc@.len() - i,
    {
        if pc[i] != wc[i] {
            proof {
                assert(w@.take(p@.len() as int)[i as int] == w@[i as int]);
                assert(!p@.is_prefix_of(w@));
            }
            return false;
        }
        i += 1;
    }
    proof {
        assert(p@ =~= w@.take(p@.len() as int));
    }
    true
}

/// The fragment's prefix-length view of a word, as text.
fn truncate_to(w: &str, n: usize) -> (r: String)
    ensures
        r@ == w@.take(vstd::math::min(n as int, w@.len() as int)),
{
    let cs = chars_of(w);
    let cut = if n < cs.len() {
        n
    } else {
        cs.len()
    };
    let mut out: Vec<char> = Vec::new();
    let mut i: usize = 0;
    while i < cut
        invariant
            cs@ == w@,
            cut <= w@.len(),
            i <= cut,
            out@ == w@.take(cut as int).take(i as int),
        decreases cut - i,
    {
        proof {
            assert(w@.take(cut as int)[i as int] == w@[i as int]);
            assert(w@.take(cut as int).take(i + 1)
                =~= w@.take(cut as int).take(i as int).push(w@[i as int]));
        }
        out.push(cs[i]);
        i += 1;
    }
    proof {
        assert(w@.take(cut as int).take(cut as int) =~= w@.take(cut as int));
    }
    string_of(out.as_slice())
}

/// The best stored completion of a prefix above the count threshold, if any:
/// the query hit of maximal count.
fn best_completion(index: &CompletionIndex, prefix: &str) -> (r: Option<String>)
    ensures
        r matches Some(w) ==> is_best_hit(*index, prefix@, w@),
        r is None ==> forall|w2: Seq<char>| !matching(*index, prefix@, w2),
{
    let hits = index.query(prefix);
    if hits.len() == 0 {
        proof {
            assert forall|w2: Seq<char>| !matching(*index, prefix@, w2) by {
                if matching(*index, prefix@, w2) {
                    assert(index.counts().contains_key(w2) && prefix@.is_prefix_of(w2));
                }
            }
        }
        return None;
    }
    let n = hits.len();
    let best_count = hits[n - 1].1;
    if best_count > 2 {
        let w = hits[n - 1].0.clone();
        proof {
            assert(index.counts().contains_key(hits@[n - 1].0@));
            assert(index.counts()[w@] == hits@[n - 1].1);
            assert forall|w2: Seq<char>| #[trigger] index.counts().contains_key(w2)
                && prefix@.is_prefix_of(w2) implies index.counts()[w2] <= index.counts()[w@] by {
                let i = choose|i: int| 0 <= i < hits@.len() && (#[trigger] hits@[i]).0@ == w2;
                assert(index.counts().contains_key(hits@[i].0@));
                assert(index.counts()[w2] == hits@[i].1);
                assert(hits@[i].1 <= hits@[n - 1].1);
            }
            assert(is_best_hit(*index, prefix@, w@));
        }
        Some(w)
    } else {
        proof {
            assert forall|w2: Seq<char>| !matching(*index, prefix@, w2) by {
                if matching(*index, prefix@, w2) {
                    let i = choose|i: int| 0 <= i < hits@.len() && (#[trigger] hits@[i]).0@ == w2;
                    assert(index.counts().contains_key(hits@[i].0@));
                    assert(index.counts()[w2] == hits@[i].1);
                    assert(hits@[i].1 <= hits@[n - 1].1);
                }
            }
        }
        None
    }
}

/// Answers one request: tokenize the typed text, keep context predictions
/// that fit the trailing fragment, complete a nonempty fragment from the
/// index (an empty fragment is rejected rather than scanned), fall back to
/// one- and two-edit variations while completions run short, and re-predict
/// from the best completion — or from the fragment as typed when no
/// completion was found, and from nothing (the sentence starters) when no
/// word was typed at all.
pub fn respond(index: &CompletionIndex, model: &ChainModel, request: &Request) -> (r: Response)
    requires
        model.wf(),
    ensures
        respond_post(*index, *model, request.previous@, r),
{
    let ghost toks = split_words_spec(request.previous@);
    let words = split_to_words(request.previous.as_str());
    let fragment = if words.len() > 0 {
        words[words.len() - 1].clone()
    } else {
        String::new()
    };
    let mut context: Vec<String> = Vec::new();
    let ctx_len = if words.len() > 0 {
        words.len() - 1
    } else {
        0
    };
    let mut i: usize = 0;
    while i < ctx_len
        invariant
            strs(words@) == toks,
            ctx_len <= words@.len(),
            i <= ctx_len,
            context@.len() == i,
            forall|k: int| 0 <= k < i ==> (#[trigger] context@[k])@ == toks[k],
        decreases ctx_len - i,
    {
        let w = words[i].clone();
        context.push(w);
        i += 1;
    }
    let ghost frag = if toks.len() > 0 {
        toks.last()
    } else {
        Seq::<char>::empty()
    };
    let ghost ctx = if toks.len() > 0 {
        toks.drop_last()
    } else {
        toks
    };
    proof {
        assert(fragment@ == frag) by {
            if toks.len() > 0 {
                assert(strs(words@)[words@.len() - 1] == words@[words@.len() - 1]@);
            } else {
                assert(frag =~= Seq::<char>::empty());
            }
        }
        assert(strs(context@) =~= ctx);
    }
    // context predictions, filtered against the fragment
    let frag_chars = char_vec(fragment.as_str());
    let frag_len = frag_chars.len();
    let preds = model.predict(&context, 7);
    let ghost source = if ctx.len() == 0 {
        model.starters_seq()
    } else {
        model.predict_seq(ctx, 7)
    };
    let ghost keep = |w: Seq<char>| keeps_prediction(frag, w);
    let mut completions: Vec<String> = Vec::new();
    let mut i: usize = 0;
    proof {
        reveal(Seq::filter);
        assert(strs(preds@) == source);
        assert(source.take(0) =~= Seq::<Seq<char>>::empty());
        assert(Seq::<Seq<char>>::empty().filter(keep) =~= Seq::<Seq<char>>::empty());
        assert(strs(completions@) =~= source.take(0).filter(keep));
    }
    while i < preds.len()
        invariant
            strs(preds@) == source,
            keep == (|w: Seq<char>| keeps_prediction(frag, w)),
            fragment@ == frag,
            frag_chars@ == frag,
            frag_len == frag.len(),
            i <= preds@.len(),
            strs(completions@) == source.take(i as int).filter(keep),
        decreases preds@.len() - i,
    {
        let w = &preds[i];
        proof {
            assert(strs(preds@)[i as int] == preds@[i as int]@);
        }
        let keep_it = if starts_with_chars(w.as_str(), fragment.as_str()) {
            true
        } else {
            let cut = truncate_to(w.as_str(), frag_len);
            levenshtein_distance(fragment.as_str(), cut.as_str()) < 3
        };
        proof {
            reveal(Seq::filter);
            assert(source.take(i + 1).drop_last() =~= source.take(i as int));
            assert(source.take(i + 1).last() == source[i as int]);
            assert(strs(preds@)[i as int] == preds@[i as int]@);
            assert(frag_chars@ == frag);
            assert(frag_len == frag.len());
            assert(keep_it == keep(source[i as int]));
        }
        if keep_it {
            let kept = w.clone();
            proof {
                crate::correction::lemma_strs_push(completions@, kept);
            }
            completions.push(kept);
        }
        i += 1;
    }
    proof {
        assert(source.take(source.len() as int) =~= source);
        assert(strs(completions@) == surviving_predictions(*model, ctx, frag));
    }
    let ghost pf = strs(completions@);
    // direct completions of the fragment, best first, capped at seven; an
    // empty fragment is rejected before any prefix scan
    let mut gdirect: Ghost<Seq<Seq<char>>> = Ghost(Seq::empty());
    let mut direct_count: usize = 0;
    proof {
        assert(strs(completions@) =~= pf + gdirect@);
    }
    if !fragment.as_str().is_empty() {
        let hits = index.query(fragment.as_str());
        proof {
            assert forall|k: int| 0 <= k < hits@.len() implies index.counts().contains_key(
                (#[trigger] hits@[k]).0@,
            ) && hits@[k].1 == index.counts()[hits@[k].0@] && frag.is_prefix_of(hits@[k].0@) by {
                assert(index.counts().contains_key(hits@[k].0@));
            }
        }
        let mut i: usize = hits.len();
        while i > 0
            invariant
                fragment@ == frag,
                i <= hits@.len(),
                forall|k: int| 0 <= k < hits@.len() ==> index.counts().contains_key(
                    (#[trigger] hits@[k]).0@,
                ) && hits@[k].1 == index.counts()[hits@[k].0@] && frag.is_prefix_of(hits@[k].0@),
                forall|k: int, k2: int| 0 <= k < k2 < hits@.len()
                    ==> (#[trigger] hits@[k]).1 <= (#[trigger] hits@[k2]).1,
                direct_count <= 7,
                gdirect@.len() == direct_count,
                strs(completions@) == pf + gdirect@,
                forall|a: int| 0 <= a < gdirect@.len() ==> matching(
                    *index,
                    frag,
                    #[trigger] gdirect@[a],
                ),
                forall|a: int, b: int| 0 <= a < b < gdirect@.len()
                    ==> index.counts()[gdirect@[a]] >= index.counts()[gdirect@[b]],
                forall|a: int, k: int| 0 <= a < gdirect@.len() && 0 <= k < i
                    ==> index.counts()[#[trigger] gdirect@[a]] >= (#[trigger] hits@[k]).1,
                direct_count < 7 ==> forall|k: int| i <= k < hits@.len()
                    && (#[trigger] hits@[k]).1 > 2 ==> gdirect@.contains(hits@[k].0@),
            decreases i,
        {
            i -= 1;
            if direct_count < 7 && hits[i].1 > 2 {
                let w = hits[i].0.clone();
                let ghost old_direct = gdirect@;
                proof {
                    crate::correction::lemma_strs_push(completions@, w);
                    gdirect@ = gdirect@.push(w@);
                    assert(strs(completions@).push(w@) =~= pf + gdirect@);
                    assert forall|k: int| i <= k < hits@.len() && (#[trigger] hits@[k]).1 > 2
                        implies gdirect@.contains(hits@[k].0@) by {
                        if k == i {
                            assert(gdirect@[gdirect@.len() - 1] == w@);
                        } else {
                            assert(old_direct.contains(hits@[k].0@));
                            let a = choose|a: int| 0 <= a < old_direct.len()
                                && old_direct[a] == hits@[k].0@;
                            assert(gdirect@[a] == hits@[k].0@);
                        }
                    }
                }
                completions.push(w);
                direct_count += 1;
            }
        }
        proof {
            // while the cap was not reached, every qualifying extension of
            // the fragment was taken
            if direct_count < 7 {
                assert forall|w: Seq<char>| matching(*index, frag, w)
                    implies gdirect@.contains(w) by {
                    assert(index.counts().contains_key(w) && frag.is_prefix_of(w));
                    let k = choose|k: int| 0 <= k < hits@.len() && (#[trigger] hits@[k]).0@ == w;
                    assert(hits@[k].1 > 2);
                }
            }
        }
    }
    // the one-edit tier, only when the direct pass leaves the cap unreached
    // on a fragment of more than two characters
    let mut gf1: Ghost<Seq<Seq<char>>> = Ghost(Seq::empty());
    let mut total: usize = direct_count;
    proof {
        assert(strs(completions@) =~= pf + gdirect@ + gf1@);
    }
    if direct_count < 7 && frag_chars.len() > 2 && frag_chars.len() < usize::MAX {
        let vars = tier1_variations(frag_chars.as_slice());
        let mut v: usize = 0;
        while v < vars.len() && total < 7
            invariant
                fragment@ == frag,
                frag_chars@ == frag,
                strs(vars@) == tier1_of(frag),
                v <= vars@.len(),
                direct_count <= total <= 7,
                gf1@.len() == total - direct_count,
                gdirect@.len() == direct_count,
                strs(completions@) == pf + gdirect@ + gf1@,
                forall|j: int| 0 <= j < gf1@.len() ==> best_of_variation(
                    *index,
                    tier1_of(frag),
                    #[trigger] gf1@[j],
                ),
                total < 7 ==> forall|vv: int| 0 <= vv < v && (exists|w: Seq<char>|
                    matching(*index, #[trigger] strs(vars@)[vv], w)) ==> exists|j: int|
                    0 <= j < gf1@.len() && strs(vars@)[vv].is_prefix_of(#[trigger] gf1@[j]),
            decreases vars@.len() - v,
        {
            match best_completion(index, vars[v].as_str()) {
                Some(w) => {
                    let ghost old_f1 = gf1@;
                    proof {
                        crate::correction::lemma_strs_push(completions@, w);
                        assert(strs(vars@)[v as int] == vars@[v as int]@);
                        assert(tier1_of(frag).contains(strs(vars@)[v as int]));
                        assert(best_of_variation(*index, tier1_of(frag), w@));
                        gf1@ = gf1@.push(w@);
                        assert(strs(completions@).push(w@) =~= pf + gdirect@ + gf1@);
                        assert forall|vv: int| 0 <= vv < v + 1 && (exists|w2: Seq<char>|
                            matching(*index, #[trigger] strs(vars@)[vv], w2)) implies exists|
                            j: int,
                        |
                            0 <= j < gf1@.len() && strs(vars@)[vv].is_prefix_of(
                                #[trigger] gf1@[j],
                            ) by {
                            if vv == v {
                                assert(gf1@[gf1@.len() - 1] == w@);
                                assert(strs(vars@)[vv].is_prefix_of(w@));
                            } else if total < 7 {
                                let j = choose|j: int| 0 <= j < old_f1.len() && strs(
                                    vars@,
                                )[vv].is_prefix_of(#[trigger] old_f1[j]);
                                assert(gf1@[j] == old_f1[j]);
                            }
                        }
                    }
                    completions.push(w);
                    total += 1;
                },
                None => {
                    proof {
                        assert forall|vv: int| 0 <= vv < v + 1 && (exists|w2: Seq<char>|
                            matching(*index, #[trigger] strs(vars@)[vv], w2)) implies exists|
                            j: int,
                        |
                            0 <= j < gf1@.len() && strs(vars@)[vv].is_prefix_of(
                                #[trigger] gf1@[j],
                            ) by {
                            if vv == v {
                                let w2 = choose|w2: Seq<char>| matching(
                                    *index,
                                    strs(vars@)[vv],
                                    w2,
                                );
                                assert(!matching(*index, vars@[v as int]@, w2));
                            }
                        }
                    }
                },
            }
            v += 1;
        }
        proof {
            // while the cap was not reached, every variation with a hit was
            // recovered
            if total < 7 {
                assert forall|vv: Seq<char>| #[trigger] tier1_of(frag).contains(vv) && (exists|
                    w: Seq<char>,
                | matching(*index, vv, w)) implies exists|j: int| 0 <= j < gf1@.len()
                    && vv.is_prefix_of(#[trigger] gf1@[j]) by {
                    let q = choose|q: int| 0 <= q < tier1_of(frag).len() && tier1_of(frag)[q]
                        == vv;
                    assert(strs(vars@)[q] == vv);
                }
            }
        }
    }
    // the two-edit tier, only when still short on a fragment of more than
    // three characters
    let mut gf2: Ghost<Seq<Seq<char>>> = Ghost(Seq::empty());
    proof {
        assert(strs(completions@) =~= pf + gdirect@ + gf1@ + gf2@);
    }
    let ghost f1_count = total - direct_count;
    if total < 7 && frag_chars.len() > 3 && frag_chars.len() < usize::MAX - 1 {
        let vars = tier2_only_variations(frag_chars.as_slice());
        let mut v: usize = 0;
        while v < vars.len() && total < 7
            invariant
                fragment@ == frag,
                frag_chars@ == frag,
                strs(vars@) == tier2_of(frag),
                v <= vars@.len(),
                direct_count + f1_count <= total <= 7,
                f1_count == gf1@.len(),
                gf2@.len() == total - direct_count - f1_count,
                gdirect@.len() == direct_count,
                strs(completions@) == pf + gdirect@ + gf1@ + gf2@,
                forall|j: int| 0 <= j < gf2@.len() ==> best_of_variation(
                    *index,
                    tier2_of(frag),
                    #[trigger] gf2@[j],
                ),
                total < 7 ==> forall|vv: int| 0 <= vv < v && (exists|w: Seq<char>|
                    matching(*index, #[trigger] strs(vars@)[vv], w)) ==> exists|j: int|
                    0 <= j < gf2@.len() && strs(vars@)[vv].is_prefix_of(#[trigger] gf2@[j]),
            decreases vars@.len() - v,
        {
            match best_completion(index, vars[v].as_str()) {
                Some(w) => {
                    let ghost old_f2 = gf2@;
                    proof {
                        crate::correction::lemma_strs_push(completions@, w);
                        assert(strs(vars@)[v as int] == vars@[v as int]@);
                        assert(tier2_of(frag).contains(strs(vars@)[v as int]));
                        assert(best_of_variation(*index, tier2_of(frag), w@));
                        gf2@ = gf2@.push(w@);
                        assert(strs(completions@).push(w@) =~= pf + gdirect@ + gf1@ + gf2@);
                        assert forall|vv: int| 0 <= vv < v + 1 && (exists|w2: Seq<char>|
                            matching(*index, #[trigger] strs(vars@)[vv], w2)) implies exists|
                            j: int,
                        |
                            0 <= j < gf2@.len() && strs(vars@)[vv].is_prefix_of(
                                #[trigger] gf2@[j],
                            ) by {
                            if vv == v {
                                assert(gf2@[gf2@.len() - 1] == w@);
                                assert(strs(vars@)[vv].is_prefix_of(w@));
                            } else if total < 7 {
                                let j = choose|j: int| 0 <= j < old_f2.len() && strs(
                                    vars@,
                                )[vv].is_prefix_of(#[trigger] old_f2[j]);
                                assert(gf2@[j] == old_f2[j]);
                            }
                        }
                    }
                    completions.push(w);
                    total += 1;
                },
                None => {
                    proof {
                        assert forall|vv: int| 0 <= vv < v + 1 && (exists|w2: Seq<char>|
                            matching(*index, #[trigger] strs(vars@)[vv], w2)) implies exists|
                            j: int,
                        |
                            0 <= j < gf2@.len() && strs(vars@)[vv].is_prefix_of(
                                #[trigger] gf2@[j],
                            ) by {
                            if vv == v {
                                let w2 = choose|w2: Seq<char>| matching(
                                    *index,
                                    strs(vars@)[vv],
                                    w2,
                                );
                                assert(!matching(*index, vars@[v as int]@, w2));
                            }
                        }
                    }
                },
            }
            v += 1;
        }
        proof {
            if total < 7 {
                assert forall|vv: Seq<char>| #[trigger] tier2_of(frag).contains(vv) && (exists|
                    w: Seq<char>,
                | matching(*index, vv, w)) implies exists|j: int| 0 <= j < gf2@.len()
                    && vv.is_prefix_of(#[trigger] gf2@[j]) by {
                    let q = choose|q: int| 0 <= q < tier2_of(frag).len() && tier2_of(frag)[q]
                        == vv;
                    assert(strs(vars@)[q] == vv);
                }
            }
        }
    }
    proof {
        assert(completions_assembled(
            *index,
            frag,
            pf,
            gdirect@,
            gf1@,
            gf2@,
            strs(completions@),
        ));
    }
    // re-predict: from the best completion candidate when one exists, from
    // the fragment as typed otherwise, and from nothing at all — yielding
    // the sentence starters — when no word was typed
    if words.len() == 0 {
        let empty_context: Vec<String> = Vec::new();
        let predictions = model.predict(&empty_context, 7);
        proof {
            assert(toks.len() == 0);
        }
        let ghost comps = completions@;
        let resp = Response { completions, predictions };
        proof {
            assert(resp.completions@ == comps);
            lemma_completions_ok(*index, frag, pf, gdirect@, gf1@, gf2@,
                strs(resp.completions@));
            assert(respond_post(*index, *model, request.previous@, resp));
        }
        return resp;
    }
    let best = if completions.len() > 0 {
        completions[0].clone()
    } else {
        fragment
    };
    let mut repredict_ctx = context;
    repredict_ctx.push(best);
    proof {
        let bestv = if strs(completions@).len() > 0 {
            strs(completions@)[0]
        } else {
            frag
        };
        assert(strs(completions@).len() > 0 ==> strs(completions@)[0] == completions@[0]@);
        assert(strs(repredict_ctx@) =~= ctx.push(bestv));
    }
    let predictions = model.predict(&repredict_ctx, 7);
    proof {
        assert(repredict_ctx@.len() > 0);
    }
    let ghost comps = completions@;
    let resp = Response { completions, predictions };
    proof {
        assert(resp.completions@ == comps);
        lemma_completions_ok(*index, frag, pf, gdirect@, gf1@, gf2@, strs(resp.completions@));
        assert(respond_post(*index, *model, request.previous@, resp));
    }
    resp
}


} // verus!
