use typeahead::completion::CompletionIndex;
use typeahead::corpus::sentences;
use typeahead::corpus::words;
use typeahead::prediction::build_chain_model;
use typeahead::prediction::ChainModel;
use typeahead::server::respond;
use typeahead::server::Request;
use typeahead::snapshot::decode_completion;
use typeahead::snapshot::decode_predictor;
use typeahead::snapshot::encode_completion;
use typeahead::snapshot::encode_predictor;
use typeahead::store::load_or_build_completion;
use typeahead::store::load_or_build_predictor;

fn corpus_words(texts: &[&str]) -> Vec<String> {
    let mut all = Vec::new();
    for t in texts {
        all.extend(words(t));
    }
    all
}

fn corpus_sentences(texts: &[&str]) -> Vec<String> {
    let mut all = Vec::new();
    for t in texts {
        all.extend(sentences(t));
    }
    all
}

#[test]
fn completion_cache_round_trip() {
    let ws = corpus_words(&["the cat sat.", "the cat ran.", "a dog ran."]);
    let index = CompletionIndex::build(&ws);
    let bytes = encode_completion(&index.to_snapshot());
    let decoded = decode_completion(&bytes).expect("written snapshot must decode");
    let restored = CompletionIndex::from_snapshot(&decoded);
    for frag in ["", "c", "ca", "cat", "d", "r", "zz"] {
        let mut before = index.query(frag);
        let mut after = restored.query(frag);
        before.sort();
        after.sort();
        assert_eq!(before, after);
    }
}

#[test]
fn predictor_cache_round_trip() {
    let sents = corpus_sentences(&["the cat sat.", "the cat ran.", "a dog ran."]);
    let model = build_chain_model(&sents, 1);
    let bytes = encode_predictor(&model.to_snapshot());
    let decoded = decode_predictor(&bytes).expect("written snapshot must decode");
    let restored = ChainModel::from_snapshot(&decoded).expect("written snapshot must restore");
    let contexts: [&[&str]; 4] = [&[], &["the"], &["the", "cat"], &["unseen"]];
    for ctx in contexts {
        let ctx_vec: Vec<String> = ctx.iter().map(|w| w.to_string()).collect();
        assert_eq!(model.predict(&ctx_vec, 7), restored.predict(&ctx_vec, 7));
    }
}

#[test]
fn corrupt_cache_falls_back_to_rebuild() {
    let ws = corpus_words(&["the cat sat.", "the cat ran."]);
    let garbage = vec![1u8, 2, 3];
    let (index, writeback) = load_or_build_completion(Some(&garbage), &ws);
    assert!(writeback.is_some());
    assert_eq!(index.query("ca")[0].0, "cat");

    let sents = corpus_sentences(&["the cat sat."]);
    let (_model, writeback2) = load_or_build_predictor(Some(&garbage), &sents);
    assert!(writeback2.is_some());
}

#[test]
fn cache_hit_skips_rebuild_and_agrees() {
    let ws = corpus_words(&["the cat sat.", "the cat ran."]);
    let (index, writeback) = load_or_build_completion(None, &ws);
    let bytes = writeback.expect("a fresh build writes the cache back");
    let empty: Vec<String> = Vec::new();
    let (restored, writeback2) = load_or_build_completion(Some(&bytes), &empty);
    assert!(writeback2.is_none());
    let mut before = index.query("");
    let mut after = restored.query("");
    before.sort();
    after.sort();
    assert_eq!(before, after);

    let sents = corpus_sentences(&["the cat sat.", "the cat ran."]);
    let (model, pw) = load_or_build_predictor(None, &sents);
    let pbytes = pw.expect("a fresh build writes the cache back");
    let (pmodel, pw2) = load_or_build_predictor(Some(&pbytes), &empty);
    assert!(pw2.is_none());
    let ctx = vec!["the".to_string()];
    assert_eq!(model.predict(&ctx, 7), pmodel.predict(&ctx, 7));
}

#[test]
fn respond_combines_prediction_and_completion() {
    // the scenario corpus: "ca" completes to "cat" both by context
    // prediction and by the index; no fuzzy tier triggers at two characters
    let ws = corpus_words(&["the cat sat.", "the cat ran."]);
    let index = CompletionIndex::build(&ws);
    let sents = corpus_sentences(&["the cat sat.", "the cat ran."]);
    let model = build_chain_model(&sents, 0);
    let request = Request { previous: "the ca".to_string(), next: String::new() };
    let response = respond(&index, &model, &request);
    assert!(response.completions.contains(&"cat".to_string()));
    assert_eq!(response.completions[0], "cat");
    // re-prediction follows the completed word
    assert!(response.predictions.contains(&"sat".to_string())
        || response.predictions.contains(&"ran".to_string()));
}

#[test]
fn respond_keeps_mistyped_predictions_within_edit_distance() {
    let ws = corpus_words(&["he said the word."]);
    let index = CompletionIndex::build(&ws);
    let sents = corpus_sentences(&["he said the word.", "he said the word."]);
    let model = build_chain_model(&sents, 0);
    // "teh" does not extend to "the", but lies within edit distance three
    let request = Request { previous: "said teh".to_string(), next: String::new() };
    let response = respond(&index, &model, &request);
    assert!(response.completions.contains(&"the".to_string()));
}

#[test]
fn respond_fuzzy_fallback_recovers_transposition() {
    // "teh" has no direct completion; the swap variation "the" has one,
    // and "the" occurs more than twice so it clears the count threshold
    let ws = corpus_words(&["the thing.", "the other thing.", "the last thing."]);
    let index = CompletionIndex::build(&ws);
    let sents = corpus_sentences(&["the thing."]);
    let model = build_chain_model(&sents, 0);
    let request = Request { previous: "teh".to_string(), next: String::new() };
    let response = respond(&index, &model, &request);
    assert!(response.completions.contains(&"the".to_string()));
}

#[test]
fn respond_empty_input_offers_starters() {
    let ws = corpus_words(&["good morning.", "fine day."]);
    let index = CompletionIndex::build(&ws);
    let sents = corpus_sentences(&["good morning.", "fine day."]);
    let model = build_chain_model(&sents, 0);
    let request = Request { previous: String::new(), next: String::new() };
    let response = respond(&index, &model, &request);
    assert!(response.completions.contains(&"good".to_string()));
    assert!(response.completions.contains(&"fine".to_string()));
    // with nothing typed, the predictions are the sentence starters, and the
    // empty fragment never reaches the index
    assert!(response.predictions.contains(&"good".to_string()));
    assert!(response.predictions.contains(&"fine".to_string()));
    assert_eq!(response.completions.len(), 2);
}

#[test]
fn respond_caps_direct_completions() {
    let ws = corpus_words(&[
        "aa ab ac ad ae af ag ah ai aj.",
        "aa ab ac ad ae af ag ah ai aj.",
        "aa ab ac ad ae af ag ah ai aj.",
    ]);
    let index = CompletionIndex::build(&ws);
    // with every model word suppressed, no starter joins the completions
    let sents = corpus_sentences(&["unrelated words."]);
    let model = build_chain_model(&sents, 7);
    let request = Request { previous: "a".to_string(), next: String::new() };
    let response = respond(&index, &model, &request);
    // ten candidates clear the threshold, yet at most seven come back
    assert_eq!(response.completions.len(), 7);
}
