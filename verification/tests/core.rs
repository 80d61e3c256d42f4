use typeahead::completion::CompletionIndex;
use typeahead::correction::char_vec;
use typeahead::correction::tier1_variations;
use typeahead::correction::tier2_only_variations;
use typeahead::corpus::sentences;
use typeahead::corpus::split_to_words;
use typeahead::corpus::words;
use typeahead::prediction::build_chain_model;
use typeahead::prediction::ngram_predictor;

fn corpus_words(texts: &[&str]) -> Vec<String> {
    let mut all = Vec::new();
    for t in texts {
        all.extend(words(t));
    }
    all
}

fn corpus_sentences(texts: &[&str]) -> Vec<String> {
    let mut all = Vec::new();
    for t in texts {
        all.extend(sentences(t));
    }
    all
}

#[test]
fn tokenizer_splits_sentences_on_terminators() {
    let s = sentences("the cat sat. the cat ran! did it? tail without end");
    assert_eq!(s, vec![
        "the cat sat".to_string(),
        " the cat ran".to_string(),
        " did it".to_string(),
    ]);
}

#[test]
fn tokenizer_merges_linebreak_hyphenation() {
    let s = sentences("a hyphen-\nated word. next!");
    assert_eq!(s, vec!["a hyphenated word".to_string(), " next".to_string()]);
}

#[test]
fn tokenizer_drops_empty_sentences() {
    let s = sentences("one..two!");
    assert_eq!(s, vec!["one".to_string(), "two".to_string()]);
}

#[test]
fn split_to_words_lowercases_and_strips() {
    assert_eq!(split_to_words("The CAT, sat?!"), vec!["the", "cat", "sat"]);
    assert_eq!(split_to_words("don't stop"), vec!["don't", "stop"]);
    assert_eq!(split_to_words("' 123 ..."), Vec::<String>::new());
    assert_eq!(split_to_words(""), Vec::<String>::new());
}

#[test]
fn words_flattens_sentences() {
    assert_eq!(
        words("The cat sat. The cat ran."),
        vec!["the", "cat", "sat", "the", "cat", "ran"]
    );
}

#[test]
fn tier1_counts_for_cat() {
    // L + (L-1) + 26L + 26(L+1) with L = 3
    let vars = tier1_variations(&char_vec("cat"));
    assert_eq!(vars.len(), 3 + 2 + 26 * 3 + 26 * 4);
    assert_eq!(vars.len(), 187);
}

#[test]
fn tier1_generation_order_and_content() {
    let vars = tier1_variations(&char_vec("cat"));
    // deletions first, in position order
    assert_eq!(&vars[0..3], &["at".to_string(), "ct".to_string(), "ca".to_string()]);
    // then adjacent swaps
    assert_eq!(&vars[3..5], &["act".to_string(), "cta".to_string()]);
    // substitutions follow: position 0 with 'a' is "aat"
    assert_eq!(vars[5], "aat");
    // insertions last: gap 3 with 'z' is the very last
    assert_eq!(vars[186], "catz");
}

#[test]
fn tier2_counts_for_cat() {
    // every tier-1 output expanded again: deletions have length 2, swaps and
    // substitutions length 3, insertions length 4
    let vars = tier2_only_variations(&char_vec("cat"));
    let t1 = |l: usize| l + (l - 1) + 26 * l + 26 * (l + 1);
    let expected = 3 * t1(2) + (2 + 78) * t1(3) + 104 * t1(4);
    assert_eq!(vars.len(), expected);
    assert_eq!(vars.len(), 40423);
}

#[test]
fn tier1_recovers_adjacent_transposition() {
    // a swap of 'e' and 'h' in "teh" yields "the"
    let vars = tier1_variations(&char_vec("teh"));
    assert!(vars.iter().any(|v| v == "the"));
}

#[test]
fn completion_index_counts_occurrences() {
    let ws = corpus_words(&["the cat sat.", "the cat ran."]);
    let index = CompletionIndex::build(&ws);
    let hits = index.query("ca");
    assert_eq!(hits.len(), 1);
    assert_eq!(hits[0].0, "cat");
    assert_eq!(hits[0].1, 2);
}

#[test]
fn completion_index_query_ascends_by_count() {
    let ws = corpus_words(&["b b b a a c."]);
    let index = CompletionIndex::build(&ws);
    let hits = index.query("");
    assert_eq!(hits.len(), 3);
    assert!(hits[0].1 <= hits[1].1 && hits[1].1 <= hits[2].1);
    assert_eq!(hits[2].0, "b");
    assert_eq!(hits[2].1, 3);
}

#[test]
fn completion_index_build_is_order_independent() {
    let mut ws = corpus_words(&["the cat sat.", "the cat ran."]);
    let index1 = CompletionIndex::build(&ws);
    ws.reverse();
    let index2 = CompletionIndex::build(&ws);
    let mut h1 = index1.query("");
    let mut h2 = index2.query("");
    h1.sort();
    h2.sort();
    assert_eq!(h1, h2);
}

#[test]
fn completion_index_empty_query_result() {
    let ws = corpus_words(&["the cat sat."]);
    let index = CompletionIndex::build(&ws);
    assert_eq!(index.query("zz").len(), 0);
}

#[test]
fn predictor_ranks_successors_by_frequency() {
    let sents = corpus_sentences(&["the cat sat.", "the cat ran.", "the dog ran."]);
    let model = build_chain_model(&sents, 0);
    let preds = model.predict(&vec!["the".to_string()], 7);
    assert_eq!(preds[0], "cat");
    assert!(preds.contains(&"dog".to_string()));
}

#[test]
fn predictor_prefers_bigram_context() {
    let sents = corpus_sentences(&[
        "a b c.",
        "a b c.",
        "a b d.",
        "x b e.",
        "x b e.",
        "x b e.",
    ]);
    let model = build_chain_model(&sents, 0);
    // after "a b" the bigram chain knows c and d; e leads only after "x b"
    let preds = model.predict(&vec!["a".to_string(), "b".to_string()], 2);
    assert_eq!(preds[0], "c");
}

#[test]
fn predictor_falls_back_to_unigram_context() {
    let sents = corpus_sentences(&["the cat sat.", "the cat ran."]);
    let model = build_chain_model(&sents, 0);
    // "never the" was not observed, so only the trailing word drives this
    let with_unseen = model.predict(&vec!["never".to_string(), "the".to_string()], 7);
    let trailing_only = model.predict(&vec!["the".to_string()], 7);
    assert_eq!(with_unseen, trailing_only);
}

#[test]
fn predictor_empty_context_yields_starters() {
    let sents = corpus_sentences(&["good morning.", "good night.", "fine day."]);
    let model = build_chain_model(&sents, 0);
    let starters = model.predict(&Vec::new(), 7);
    assert!(starters.contains(&"good".to_string()));
    assert!(starters.contains(&"fine".to_string()));
    assert_eq!(starters[0], "good");
}

#[test]
fn predictor_suppresses_top_words() {
    let sents = corpus_sentences(&[
        "the cat sat.",
        "the cat ran.",
        "the cat naps.",
        "the dog sat.",
    ]);
    // "the" and "cat" are the two most frequent words overall
    let model = build_chain_model(&sents, 2);
    let preds = model.predict(&vec!["the".to_string()], 7);
    assert!(!preds.contains(&"cat".to_string()));
    assert!(preds.contains(&"dog".to_string()));
}

#[test]
fn predictor_default_suppresses_seven() {
    let sents = corpus_sentences(&["a b c d e f g h i j."]);
    let model = ngram_predictor(&sents);
    // with only ten distinct words, the seven most frequent are suppressed
    let preds = model.predict(&vec!["a".to_string()], 7);
    assert!(preds.len() <= 3);
}

#[test]
fn predictor_respects_limit() {
    let sents = corpus_sentences(&["a b.", "a c.", "a d.", "a e."]);
    let model = build_chain_model(&sents, 0);
    let preds = model.predict(&vec!["a".to_string()], 2);
    assert_eq!(preds.len(), 2);
}
