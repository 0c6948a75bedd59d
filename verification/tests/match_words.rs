use fnv::{FnvHashMap, FnvHashSet};
use qpick::matcher::{match_queries, match_words, sieve_words, word_set_of};

fn words(v: &[&str]) -> Vec<String> {
    v.iter().map(|w| w.to_string()).collect()
}

fn set(v: &[&str]) -> FnvHashSet<String> {
    v.iter().map(|w| w.to_string()).collect()
}

fn pairs(v: &[(&str, &str)]) -> Vec<(String, String)> {
    v.iter().map(|(a, b)| (a.to_string(), b.to_string())).collect()
}

// The matched, missing and excess words are sets: they are compared without
// their order.
fn sorted(mut v: Vec<String>) -> Vec<String> {
    v.sort();
    v
}

#[test]
fn a_synonym_matches_once_and_takes_its_word_away() {
    let wanted = set(&["x", "b2"]);
    let (cand, matches, missing, excess) =
        match_words("a1 b2 c3", &wanted, &pairs(&[("a1", "x"), ("c3", "x")]));
    assert_eq!(cand, words(&["a1", "b2", "c3"]));
    assert_eq!(sorted(matches), words(&["b2", "x"]));
    assert_eq!(missing, words(&[]));
    assert_eq!(excess, words(&["c3"]));
    // the other order of the synonyms leaves the other word in excess
    let (_, matches, missing, excess) =
        match_words("a1 b2 c3", &wanted, &pairs(&[("c3", "x"), ("a1", "x")]));
    assert_eq!(sorted(matches), words(&["b2", "x"]));
    assert_eq!(missing, words(&[]));
    assert_eq!(excess, words(&["a1"]));
}

#[test]
fn single_letters_are_no_candidate_words_but_single_digits_are() {
    let (cand, matches, missing, excess) =
        match_words("a 2 bb, BB", &set(&["bb", "zz"]), &pairs(&[]));
    assert_eq!(cand, words(&["2", "bb", "bb"]));
    assert_eq!(matches, words(&["bb"]));
    assert_eq!(missing, words(&["zz"]));
    assert_eq!(excess, words(&["2"]));
}

#[test]
fn an_empty_candidate_misses_everything() {
    let (cand, matches, missing, excess) =
        match_words("", &set(&["several", "million"]), &pairs(&[("millions", "million")]));
    assert!(cand.is_empty());
    assert!(matches.is_empty());
    assert_eq!(sorted(missing), words(&["million", "several"]));
    assert!(excess.is_empty());
}

#[test]
fn matched_words_are_neither_missing_nor_in_excess() {
    let org_q: FnvHashSet<String> = set(&["several", "million", "people"]);
    let syns: FnvHashMap<String, String> =
        pairs(&[("millions", "million"), ("persons", "people"), ("folks", "people")])
            .into_iter()
            .collect();
    for q in ["several millions", "2 millions of persons", "folks persons", "", "people people"] {
        let (_, matches, missing, excess) = match_queries(q, &org_q, &syns);
        for m in matches.iter() {
            assert!(!missing.contains(m), "query: {}", q);
            assert!(!excess.contains(m), "query: {}", q);
        }
        for w in org_q.iter() {
            assert!(matches.contains(w) != missing.contains(w), "query: {}", q);
        }
        let mut once = matches.clone();
        once.sort();
        once.dedup();
        assert_eq!(once.len(), matches.len());
    }
}

#[test]
fn sieving_gives_the_common_words_or_the_others() {
    let a = set(&["d", "a", "c", "b"]);
    let b = set(&["b", "d", "x"]);
    assert_eq!(sorted(sieve_words(&a, &b, true)), words(&["b", "d"]));
    assert_eq!(sorted(sieve_words(&a, &b, false)), words(&["a", "c"]));
    assert_eq!(word_set_of(&words(&["b", "a", "b"])), set(&["a", "b"]));
}
