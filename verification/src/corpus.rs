//! Tokenizer: splits raw corpus text into terminal-punctuated sentences,
//! merges line-break hyphenation, and maps text spans to lowercase word
//! tokens of alphabetic characters and apostrophes.

use vstd::prelude::*;
use crate::text::chars_of;
use crate::text::string_of;
use crate::text::char_lower;
use crate::text::char_is_alphabetic;
use crate::text::char_is_whitespace;
use crate::text::lower_chars;
use crate::text::is_alpha;
use crate::text::is_space;
use crate::correction::strs;

verus! {

/// Sentence-terminating punctuation.
pub open spec fn is_term(c: char) -> bool {
    c == '!' || c == '?' || c == '.'
}

/// Whether some character terminates a sentence.
pub open spec fn has_term(s: Seq<char>) -> bool {
    exists|i: int| 0 <= i < s.len() && is_term(s[i])
}

/// The characters before the first sentence terminator.
pub open spec fn take_span(s: Seq<char>) -> Seq<char>
    decreases s.len(),
{
    if s.len() == 0 || is_term(s[0]) {
        Seq::empty()
    } else {
        seq![s[0]] + take_span(s.drop_first())
    }
}

proof fn lemma_take_span_len(s: Seq<char>)
    ensures
        take_span(s).len() <= s.len(),
        has_term(s) ==> take_span(s).len() < s.len(),
    decreases s.len(),
{
    if s.len() == 0 || is_term(s[0]) {
    } else {
        lemma_take_span_len(s.drop_first());
        if has_term(s) {
            let i = choose|i: int| 0 <= i < s.len() && is_term(s[i]);
            assert(s.drop_first()[i - 1] == s[i]);
            assert(has_term(s.drop_first()));
        }
    }
}

/// The terminal-punctuated spans of the text, in order; characters after the
/// last terminator belong to no sentence.
pub open spec fn split_sentences(s: Seq<char>) -> Seq<Seq<char>>
    decreases s.len(),
        via split_sentences_decreases
{
    if !has_term(s) {
        Seq::empty()
    } else {
        seq![take_span(s)] + split_sentences(s.skip(take_span(s).len() as int + 1))
    }
}

#[via_fn]
proof fn split_sentences_decreases(s: Seq<char>) {
    if has_term(s) {
        lemma_take_span_len(s);
    }
}

/// The span with each "-" followed by a line break removed, merging words
/// hyphenated across lines.
pub open spec fn dehyph(s: Seq<char>) -> Seq<char>
    decreases s.len(),
{
    if s.len() < 2 {
        s
    } else if s[0] == '-' && s[1] == '\n' {
        dehyph(s.skip(2))
    } else {
        seq![s[0]] + dehyph(s.skip(1))
    }
}

/// The sentences of a raw text: terminal-punctuated spans, dehyphenated,
/// empty ones dropped.
pub open spec fn sentences_spec(t: Seq<char>) -> Seq<Seq<char>> {
    split_sentences(t).map_values(|s: Seq<char>| dehyph(s)).filter(|s: Seq<char>| s.len() > 0)
}

/// A sentence span ends exactly at the first terminator.
proof fn lemma_span_of(s: Seq<char>, m: int)
    requires
        0 <= m < s.len(),
        forall|t: int| 0 <= t < m ==> !is_term(s[t]),
        is_term(s[m]),
    ensures
        has_term(s),
        take_span(s) == s.take(m),
        split_sentences(s) == seq![s.take(m)] + split_sentences(s.skip(m + 1)),
    decreases m,
{
    assert(has_term(s));
    if m == 0 {
        assert(take_span(s) =~= s.take(0));
    } else {
        assert(!is_term(s[0]));
        let d = s.drop_first();
        assert(forall|t: int| 0 <= t < m - 1 ==> !is_term(#[trigger] d[t]));
        assert(d[m - 1] == s[m]);
        lemma_span_of(d, m - 1);
        assert(take_span(s) == seq![s[0]] + d.take(m - 1));
        assert(take_span(s) =~= s.take(m));
    }
    assert(s.skip(m + 1) =~= s.skip(take_span(s).len() as int + 1));
}

/// Text without a terminator holds no sentence.
proof fn lemma_no_span(s: Seq<char>)
    requires
        forall|t: int| 0 <= t < s.len() ==> !is_term(s[t]),
    ensures
        split_sentences(s) == Seq::<Seq<char>>::empty(),
{
    assert(!has_term(s));
}

proof fn lemma_map_dehyph_push(v: Seq<Seq<char>>, x: Seq<char>)
    ensures
        v.push(x).map_values(|s: Seq<char>| dehyph(s))
            == v.map_values(|s: Seq<char>| dehyph(s)).push(dehyph(x)),
{
    assert(v.push(x).map_values(|s: Seq<char>| dehyph(s))
        =~= v.map_values(|s: Seq<char>| dehyph(s)).push(dehyph(x)));
}

/// Removes each "-" immediately followed by a line break.
fn dehyphenate(cs: &Vec<char>, a: usize, b: usize) -> (r: Vec<char>)
    requires
        a <= b <= cs@.len(),
    ensures
        r@ == dehyph(cs@.subrange(a as int, b as int)),
{
    let ghost s = cs@.subrange(a as int, b as int);
    let mut r: Vec<char> = Vec::new();
    let mut i: usize = a;
    while i < b
        invariant
            a <= i <= b <= cs@.len(),
            s == cs@.subrange(a as int, b as int),
            dehyph(s) == r@ + dehyph(cs@.subrange(i as int, b as int)),
        decreases b - i,
    {
        let ghost rest = cs@.subrange(i as int, b as int);
        if i + 1 < b && cs[i] == '-' && cs[i + 1] == '\n' {
            proof {
                assert(rest.len() >= 2 && rest[0] == '-' && rest[1] == '\n');
                assert(rest.skip(2) =~= cs@.subrange(i + 2, b as int));
            }
            i += 2;
        } else {
            proof {
                if i + 1 < b {
                    assert(rest.len() >= 2 && !(rest[0] == '-' && rest[1] == '\n'));
                    assert(rest.skip(1) =~= cs@.subrange(i + 1, b as int));
                    assert(dehyph(rest) == seq![rest[0]] + dehyph(rest.skip(1)));
                } else {
                    assert(rest.len() == 1);
                    assert(dehyph(rest) == rest);
                    assert(cs@.subrange(i + 1, b as int) =~= Seq::<char>::empty());
                    assert(dehyph(rest) =~= seq![rest[0]]
                        + dehyph(cs@.subrange(i + 1, b as int)));
                }
                assert(r@ + dehyph(rest) =~= r@.push(rest[0]) + dehyph(
                    cs@.subrange(i + 1, b as int)));
            }
            r.push(cs[i]);
            i += 1;
        }
    }
    proof {
        assert(cs@.subrange(b as int, b as int) =~= Seq::<char>::empty());
        assert(r@ + Seq::<char>::empty() =~= r@);
    }
    r
}

/// Splits raw text into sentences: one per terminal-punctuated span, with
/// line-break hyphenation merged back and empty spans dropped.
pub fn sentences(text: &str) -> (r: Vec<String>)
    ensures
        strs(r@) == sentences_spec(text@),
{
    let cs = chars_of(text);
    let ghost full = text@;
    let n = cs.len();
    let mut out: Vec<String> = Vec::new();
    let ghost spans: Seq<Seq<char>> = Seq::empty();
    let mut start: usize = 0;
    let mut i: usize = 0;
    proof {
        reveal(Seq::filter);
        assert(full.skip(0) =~= full);
        assert(split_sentences(full) =~= spans + split_sentences(full.skip(0)));
        assert(strs(out@) =~= spans.map_values(|s: Seq<char>| dehyph(s)).filter(
            |s: Seq<char>| s.len() > 0));
    }
    let mut spans_ghost = Ghost(spans);
    while i < n
        invariant
            cs@ == full,
            n == full.len(),
            0 <= start <= i <= n,
            forall|t: int| start <= t < i ==> !is_term(full[t]),
            split_sentences(full) == spans_ghost@ + split_sentences(full.skip(start as int)),
            strs(out@) == spans_ghost@.map_values(|s: Seq<char>| dehyph(s)).filter(
                |s: Seq<char>| s.len() > 0),
        decreases n - i,
    {
        if cs[i] == '!' || cs[i] == '?' || cs[i] == '.' {
            let ghost tail = full.skip(start as int);
            proof {
                assert(forall|t: int| 0 <= t < i - start ==> !is_term(#[trigger] tail[t]));
                assert(tail[i - start] == full[i as int]);
                lemma_span_of(tail, i - start);
                assert(tail.take(i - start) =~= full.subrange(start as int, i as int));
                assert(tail.skip(i - start + 1) =~= full.skip(i + 1));
            }
            let sentence = dehyphenate(&cs, start, i);
            let ghost span = full.subrange(start as int, i as int);
            proof {
                lemma_map_dehyph_push(spans_ghost@, span);
                let mapped = spans_ghost@.map_values(|s: Seq<char>| dehyph(s));
                assert(mapped.push(dehyph(span)).drop_last() =~= mapped);
            }
            if sentence.len() > 0 {
                let sentence_str = string_of(sentence.as_slice());
                proof {
                    crate::correction::lemma_strs_push(out@, sentence_str);
                }
                out.push(sentence_str);
            }
            proof {
                let prior = spans_ghost@;
                let mapped = prior.map_values(|s: Seq<char>| dehyph(s));
                spans_ghost@ = spans_ghost@.push(span);
                assert(split_sentences(full) =~= spans_ghost@ + split_sentences(full.skip(i + 1)));
                let mapped2 = spans_ghost@.map_values(|s: Seq<char>| dehyph(s));
                reveal(Seq::filter);
                assert(mapped2 == mapped.push(dehyph(span)));
                assert(mapped2.drop_last() =~= mapped);
                assert(mapped2.last() == dehyph(span));
                assert(mapped2.filter(|s: Seq<char>| s.len() > 0)
                    == if dehyph(span).len() > 0 {
                        mapped.filter(|s: Seq<char>| s.len() > 0).push(dehyph(span))
                    } else {
                        mapped.filter(|s: Seq<char>| s.len() > 0)
                    });
                assert(strs(out@) == mapped2.filter(|s: Seq<char>| s.len() > 0));
            }
            start = i + 1;
        }
        i += 1;
    }
    proof {
        reveal(Seq::filter);
        let tail = full.skip(start as int);
        assert(forall|t: int| 0 <= t < tail.len() ==> !is_term(#[trigger] tail[t]));
        lemma_no_span(tail);
        assert(spans_ghost@ + split_sentences(tail) =~= spans_ghost@);
        assert(strs(out@) =~= sentences_spec(full));
    }
    out
}


/// Characters kept in a word token: alphabetic ones and the apostrophe.
pub open spec fn keep(c: char) -> bool {
    is_alpha(c) || c == '\''
}

/// A raw token cleaned: each character lowercased, then everything but
/// alphabetic characters and apostrophes dropped.
pub open spec fn clean(w: Seq<char>) -> Seq<char> {
    w.map_values(|c: char| lower_chars(c)).flatten().filter(|c: char| keep(c))
}

/// The characters before the first whitespace.
pub open spec fn take_word(s: Seq<char>) -> Seq<char>
    decreases s.len(),
{
    if s.len() == 0 || is_space(s[0]) {
        Seq::empty()
    } else {
        seq![s[0]] + take_word(s.drop_first())
    }
}

proof fn lemma_take_word_len(s: Seq<char>)
    ensures
        take_word(s).len() <= s.len(),
        s.len() > 0 && !is_space(s[0]) ==> take_word(s).len() >= 1,
    decreases s.len(),
{
    if s.len() == 0 || is_space(s[0]) {
    } else {
        lemma_take_word_len(s.drop_first());
    }
}

/// The whitespace-separated raw tokens of a span, in order.
pub open spec fn ws_split(s: Seq<char>) -> Seq<Seq<char>>
    decreases s.len(),
        via ws_split_decreases
{
    if s.len() == 0 {
        Seq::empty()
    } else if is_space(s[0]) {
        ws_split(s.drop_first())
    } else {
        seq![take_word(s)] + ws_split(s.skip(take_word(s).len() as int))
    }
}

#[via_fn]
proof fn ws_split_decreases(s: Seq<char>) {
    if s.len() > 0 && !is_space(s[0]) {
        lemma_take_word_len(s);
    }
}

/// A cleaned token is kept only when it is nonempty and not a lone
/// apostrophe.
pub open spec fn word_ok(w: Seq<char>) -> bool {
    w.len() > 0 && w != seq!['\'']
}

/// The word tokens of a span: whitespace-split, cleaned, with empty and
/// lone-apostrophe tokens dropped.
pub open spec fn split_words_spec(s: Seq<char>) -> Seq<Seq<char>> {
    ws_split(s).map_values(|w: Seq<char>| clean(w)).filter(|w: Seq<char>| word_ok(w))
}

/// The word tokens of a whole raw text, sentence by sentence.
pub open spec fn words_spec(t: Seq<char>) -> Seq<Seq<char>> {
    sentences_spec(t).map_values(|s: Seq<char>| split_words_spec(s)).flatten()
}

/// A raw token ends exactly at the first whitespace.
proof fn lemma_word_of(s: Seq<char>, m: int)
    requires
        1 <= m <= s.len(),
        forall|t: int| 0 <= t < m ==> !is_space(s[t]),
        m < s.len() ==> is_space(s[m]),
    ensures
        take_word(s) == s.take(m),
        ws_split(s) == seq![s.take(m)] + ws_split(s.skip(m)),
    decreases m,
{
    if m == 1 {
        if s.len() == 1 {
            assert(take_word(s) == seq![s[0]] + take_word(s.drop_first()));
            assert(s.drop_first().len() == 0);
            assert(take_word(s) =~= s.take(1));
        } else {
            assert(is_space(s[1]));
            assert(s.drop_first()[0] == s[1]);
            assert(take_word(s.drop_first()) == Seq::<char>::empty());
            assert(take_word(s) =~= s.take(1));
        }
    } else {
        let d = s.drop_first();
        assert(forall|t: int| 0 <= t < m - 1 ==> !is_space(#[trigger] d[t]));
        assert(m - 1 < d.len() ==> d[m - 1] == s[m]);
        lemma_word_of(d, m - 1);
        assert(take_word(s) == seq![s[0]] + d.take(m - 1));
        assert(take_word(s) =~= s.take(m));
    }
    assert(s.skip(take_word(s).len() as int) == s.skip(m));
}

proof fn lemma_map_clean_push(v: Seq<Seq<char>>, x: Seq<char>)
    ensures
        v.push(x).map_values(|w: Seq<char>| clean(w))
            == v.map_values(|w: Seq<char>| clean(w)).push(clean(x)),
{
    assert(v.push(x).map_values(|w: Seq<char>| clean(w))
        =~= v.map_values(|w: Seq<char>| clean(w)).push(clean(x)));
}

proof fn lemma_map_lower_push(v: Seq<char>, c: char)
    ensures
        v.push(c).map_values(|c2: char| lower_chars(c2))
            == v.map_values(|c2: char| lower_chars(c2)).push(lower_chars(c)),
{
    assert(v.push(c).map_values(|c2: char| lower_chars(c2))
        =~= v.map_values(|c2: char| lower_chars(c2)).push(lower_chars(c)));
}

/// Cleans the raw token held between two positions: lowercases every
/// character and keeps only alphabetic ones and apostrophes.
fn clean_word(cs: &Vec<char>, a: usize, b: usize) -> (r: Vec<char>)
    requires
        a <= b <= cs@.len(),
    ensures
        r@ == clean(cs@.subrange(a as int, b as int)),
{
    let ghost w = cs@.subrange(a as int, b as int);
    let mut r: Vec<char> = Vec::new();
    let mut i: usize = a;
    proof {
        reveal(Seq::filter);
        assert(w.take(0).map_values(|c: char| lower_chars(c)) =~= Seq::<Seq<char>>::empty());
        assert(w.take(0).map_values(|c: char| lower_chars(c)).flatten()
            =~= Seq::<char>::empty());
        assert(r@ =~= clean(w.take(0)));
    }
    while i < b
        invariant
            a <= i <= b <= cs@.len(),
            w == cs@.subrange(a as int, b as int),
            r@ == clean(w.take(i - a)),
        decreases b - i,
    {
        let c = cs[i];
        proof {
            assert(w[i - a] == c);
        }
        let lows = char_lower(c);
        let ghost base = clean(w.take(i - a));
        let mut l: usize = 0;
        proof {
            reveal(Seq::filter);
            assert(lower_chars(c).take(0).filter(|c2: char| keep(c2)) =~= Seq::<char>::empty());
            assert(r@ =~= base + lower_chars(c).take(0).filter(|c2: char| keep(c2)));
        }
        while l < lows.len()
            invariant
                l <= lows@.len(),
                lows@ == lower_chars(c),
                r@ == base + lower_chars(c).take(l as int).filter(|c2: char| keep(c2)),
            decreases lows@.len() - l,
        {
            let lc = lows[l];
            proof {
                reveal(Seq::filter);
                let t = lower_chars(c);
                assert(t.take(l + 1).drop_last() =~= t.take(l as int));
                assert(t.take(l + 1).last() == t[l as int]);
                if keep(t[l as int]) {
                    assert(t.take(l + 1).filter(|c2: char| keep(c2))
                        == t.take(l as int).filter(|c2: char| keep(c2)).push(t[l as int]));
                    assert(base + t.take(l + 1).filter(|c2: char| keep(c2))
                        =~= r@.push(t[l as int]));
                } else {
                    assert(t.take(l + 1).filter(|c2: char| keep(c2))
                        == t.take(l as int).filter(|c2: char| keep(c2)));
                }
            }
            if char_is_alphabetic(lc) || lc == '\'' {
                r.push(lc);
            }
            l += 1;
        }
        proof {
            broadcast use vstd::prelude::Seq::lemma_flatten_push;
            let t = lower_chars(c);
            assert(t.take(t.len() as int) =~= t);
            let mapped = w.take(i - a).map_values(|c2: char| lower_chars(c2));
            assert(w.take(i - a + 1) =~= w.take(i - a).push(w[i - a]));
            lemma_map_lower_push(w.take(i - a), w[i - a]);
            assert(w.take(i - a + 1).map_values(|c2: char| lower_chars(c2))
                == mapped.push(t));
            assert(mapped.push(t).flatten() == mapped.flatten() + t);
            crate::sort::lemma_filter_append(mapped.flatten(), t, |c2: char| keep(c2));
            assert(clean(w.take(i - a + 1)) == clean(w.take(i - a))
                + t.filter(|c2: char| keep(c2)));
        }
        i += 1;
    }
    proof {
        assert(w.take(b - a) =~= w);
    }
    r
}

/// Splits a text span into cleaned word tokens: whitespace-separated,
/// lowercased, restricted to alphabetic characters and apostrophes, with
/// empty and lone-apostrophe results dropped. May return an empty vector.
pub fn split_to_words(sentence: &str) -> (r: Vec<String>)
    ensures
        strs(r@) == split_words_spec(sentence@),
{
    let cs = chars_of(sentence);
    let ghost full = sentence@;
    let n = cs.len();
    let mut out: Vec<String> = Vec::new();
    let ghost words0: Seq<Seq<char>> = Seq::empty();
    let mut words_ghost = Ghost(words0);
    let mut i: usize = 0;
    proof {
        reveal(Seq::filter);
        assert(full.skip(0) =~= full);
        assert(ws_split(full) =~= words_ghost@ + ws_split(full.skip(0)));
        assert(strs(out@) =~= words_ghost@.map_values(|w: Seq<char>| clean(w)).filter(
            |w: Seq<char>| word_ok(w)));
    }
    while i < n
        invariant
            cs@ == full,
            n == full.len(),
            i <= n,
            ws_split(full) == words_ghost@ + ws_split(full.skip(i as int)),
            strs(out@) == words_ghost@.map_values(|w: Seq<char>| clean(w)).filter(
                |w: Seq<char>| word_ok(w)),
        decreases n - i,
    {
        if char_is_whitespace(cs[i]) {
            proof {
                let rest = full.skip(i as int);
                assert(rest[0] == full[i as int]);
                assert(ws_split(rest) == ws_split(rest.drop_first()));
                assert(rest.drop_first() =~= full.skip(i + 1));
            }
            i += 1;
        } else {
            let mut j: usize = i + 1;
            while j < n && !char_is_whitespace(cs[j])
                invariant
                    cs@ == full,
                    n == full.len(),
                    i < j <= n,
                    forall|t: int| i <= t < j ==> !is_space(full[t]),
                    !is_space(full[i as int]),
                decreases n - j,
            {
                j += 1;
            }
            let cleaned = clean_word(&cs, i, j);
            let ghost word = full.subrange(i as int, j as int);
            proof {
                let rest = full.skip(i as int);
                assert(forall|t: int| 0 <= t < j - i ==> !is_space(#[trigger] rest[t]));
                assert(j < n ==> rest[j - i] == full[j as int]);
                lemma_word_of(rest, j - i);
                assert(rest.take(j - i) =~= word);
                assert(rest.skip(j - i) =~= full.skip(j as int));
                assert(cleaned@ == clean(word));
            }
            let ok = cleaned.len() > 0 && !(cleaned.len() == 1 && cleaned[0] == '\'');
            proof {
                if cleaned@.len() == 1 && cleaned@[0] == '\'' {
                    assert(cleaned@ =~= seq!['\'']);
                }
                if cleaned@ == seq!['\''] {
                    assert(cleaned@.len() == 1 && cleaned@[0] == '\'');
                }
                assert(ok == word_ok(clean(word)));
            }
            if ok {
                let word_str = string_of(cleaned.as_slice());
                proof {
                    crate::correction::lemma_strs_push(out@, word_str);
                }
                out.push(word_str);
            }
            proof {
                let prior = words_ghost@;
                let mapped = prior.map_values(|w: Seq<char>| clean(w));
                words_ghost@ = prior.push(word);
                reveal(Seq::filter);
                lemma_map_clean_push(prior, word);
                let mapped2 = words_ghost@.map_values(|w: Seq<char>| clean(w));
                assert(mapped2 == mapped.push(clean(word)));
                assert(mapped2.drop_last() =~= mapped);
                assert(mapped2.last() == clean(word));
                assert(mapped2.filter(|w: Seq<char>| word_ok(w))
                    == if word_ok(clean(word)) {
                        mapped.filter(|w: Seq<char>| word_ok(w)).push(clean(word))
                    } else {
                        mapped.filter(|w: Seq<char>| word_ok(w))
                    });
                assert(strs(out@) == mapped2.filter(|w: Seq<char>| word_ok(w)));
                assert(ws_split(full) =~= words_ghost@ + ws_split(full.skip(j as int)));
            }
            i = j;
        }
    }
    proof {
        assert(full.skip(n as int) =~= Seq::<char>::empty());
        assert(ws_split(Seq::<char>::empty()) == Seq::<Seq<char>>::empty());
        assert(words_ghost@ + ws_split(full.skip(n as int)) =~= words_ghost@);
        assert(strs(out@) =~= split_words_spec(full));
    }
    out
}

/// Appending string vectors appends their views.
pub proof fn lemma_strs_add(a: Seq<String>, b: Seq<String>)
    ensures
        strs(a + b) == strs(a) + strs(b),
{
    assert forall|k: int| 0 <= k < a.len() + b.len()
        implies strs(a + b)[k] == (strs(a) + strs(b))[k] by {
        if k < a.len() {
            assert((a + b)[k] == a[k]);
        } else {
            assert((a + b)[k] == b[k - a.len()]);
        }
    }
    assert(strs(a + b) =~= strs(a) + strs(b));
}

/// Every word token of a raw text, in reading order: the text split into
/// sentences, each sentence split into cleaned words.
pub fn words(text: &str) -> (r: Vec<String>)
    ensures
        strs(r@) == words_spec(text@),
{
    let ghost full = text@;
    let ghost expanded = sentences_spec(full).map_values(|s: Seq<char>| split_words_spec(s));
    let sents = sentences(text);
    let mut out: Vec<String> = Vec::new();
    let mut i: usize = 0;
    proof {
        assert(expanded.take(0).flatten() =~= Seq::<Seq<char>>::empty());
        assert(strs(out@) =~= expanded.take(0).flatten());
    }
    while i < sents.len()
        invariant
            strs(sents@) == sentences_spec(full),
            expanded == sentences_spec(full).map_values(|s: Seq<char>| split_words_spec(s)),
            i <= sents@.len(),
            strs(out@) == expanded.take(i as int).flatten(),
        decreases sents@.len() - i,
    {
        let mut ws = split_to_words(sents[i].as_str());
        proof {
            broadcast use vstd::prelude::Seq::lemma_flatten_push;
            assert(strs(sents@)[i as int] == sents@[i as int]@);
            assert(strs(ws@) == split_words_spec(sents@[i as int]@));
            assert(expanded[i as int] == split_words_spec(strs(sents@)[i as int]));
            lemma_strs_add(out@, ws@);
            assert(expanded.take(i + 1) =~= expanded.take(i as int).push(expanded[i as int]));
            assert(expanded.take(i as int).push(expanded[i as int]).flatten()
                == expanded.take(i as int).flatten() + expanded[i as int]);
        }
        out.append(&mut ws);
        i += 1;
    }
    proof {
        assert(expanded.take(expanded.len() as int) =~= expanded);
    }
    out
}

} // verus!
