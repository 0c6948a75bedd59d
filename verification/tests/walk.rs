use fnv::{FnvHashMap, FnvHashSet};
use qpick::model::ParseMode;
use qpick::lookup::index_set_of;
use qpick::scan::{get_stop_ngrams, update_linked};
use qpick::stopgrams::{StopNgram, StopNgrams};

fn words(v: &[&str]) -> Vec<String> {
    v.iter().map(|w| w.to_string()).collect()
}

fn overlay(v: &[(usize, &str)]) -> FnvHashMap<usize, String> {
    v.iter().map(|(i, w)| (*i, w.to_string())).collect()
}

fn as_tuples(v: &Vec<StopNgram>) -> Vec<(String, u128, Vec<usize>)> {
    v.iter().map(|n| (n.ngram.clone(), n.relev, n.word_indices.clone())).collect()
}

fn t(key: &str, w: u128, ids: &[usize]) -> (String, u128, Vec<usize>) {
    (key.to_string(), w, ids.to_vec())
}

#[test]
fn a_stop_ngram_knows_its_length() {
    let n = StopNgram::new("b a".to_string(), 7, vec![1, 0]);
    assert_eq!(n.len(), 2);
    assert_eq!(n.ngram, "b a");
    assert_eq!(n.relev, 7);
    assert_eq!(n.word_indices, vec![1, 0]);
}

#[test]
fn update_adds_ngrams_of_one_two_and_three_tokens() {
    let w = words(&["b", "a", "c"]);
    let rels = vec![1, 2, 4];
    let none = overlay(&[]);
    let mut list = StopNgrams::with_capacity(3, ParseMode::Index);
    assert_eq!(list.len(), 0);
    list.update(&w, &rels, vec![2], &none);
    list.update(&w, &rels, vec![0, 1], &none);
    list.update(&w, &rels, vec![2, 0, 1], &none);
    assert_eq!(list.len(), 3);
    assert_eq!(
        as_tuples(&list.ngrams),
        vec![t("c", 4, &[2]), t("a b", 3, &[0, 1]), t("a b c", 7, &[2, 0, 1])]
    );
    // nothing is added for no index or for more than three
    list.update(&w, &rels, vec![], &none);
    list.update(&w, &rels, vec![0, 1, 2, 0], &none);
    assert_eq!(list.len(), 3);
}

#[test]
fn update_keeps_variants_with_alternates_for_a_search() {
    let w = words(&["b", "a", "c"]);
    let rels = vec![1, 2, 4];
    let syn = overlay(&[(0, "z"), (1, "y")]);
    let mut list = StopNgrams::with_capacity(3, ParseMode::Search);
    list.update(&w, &rels, vec![0, 1], &syn);
    list.update(&w, &rels, vec![0, 1, 2], &syn);
    list.update(&w, &rels, vec![2], &syn);
    assert_eq!(list.synonyms.len(), 2);
    assert_eq!(as_tuples(&list.synonyms[&0]), vec![t("a z", 3, &[0, 1]), t("b y", 3, &[0, 1])]);
    assert_eq!(
        as_tuples(&list.synonyms[&1]),
        vec![t("a c z", 7, &[0, 1, 2]), t("b c y", 7, &[0, 1, 2])]
    );
    assert!(list.synonyms.get(&2).is_none());
    // none when indexing
    let mut list = StopNgrams::with_capacity(3, ParseMode::Index);
    list.update(&w, &rels, vec![0, 1], &syn);
    assert!(list.synonyms.is_empty());
}

#[test]
fn a_leading_stop_word_takes_the_next_word() {
    let w = words(&["to", "be", "or"]);
    let mut word_idx = vec![1, 2];
    let list = get_stop_ngrams(
        &w,
        &vec![1, 5, 3],
        &mut word_idx,
        &vec![0],
        &overlay(&[]),
        ParseMode::Index,
    );
    assert_eq!(as_tuples(&list.ngrams), vec![t("be to", 6, &[0, 1]), t("or", 3, &[2])]);
    assert!(word_idx.is_empty());
}

#[test]
fn a_closing_stop_word_joins_the_ngram_before_it() {
    let w = words(&["of", "x", "in"]);
    let mut word_idx = vec![1];
    let list = get_stop_ngrams(
        &w,
        &vec![1, 5, 3],
        &mut word_idx,
        &vec![0, 2],
        &overlay(&[]),
        ParseMode::Index,
    );
    assert_eq!(as_tuples(&list.ngrams), vec![t("in of x", 9, &[0, 1, 2])]);
    // the key is that of all three tokens, whatever the order they joined in
    let w = words(&["of", "zeta", "the"]);
    let mut word_idx = vec![1];
    let list = get_stop_ngrams(
        &w,
        &vec![1, 5, 3],
        &mut word_idx,
        &vec![0, 2],
        &overlay(&[]),
        ParseMode::Index,
    );
    assert_eq!(as_tuples(&list.ngrams), vec![t("of the zeta", 9, &[0, 1, 2])]);
    assert!(list.synonyms.is_empty());
    // in a search the variants get the token too
    let mut word_idx = vec![1];
    let list = get_stop_ngrams(
        &w,
        &vec![1, 5, 3],
        &mut word_idx,
        &vec![0, 2],
        &overlay(&[(1, "alpha")]),
        ParseMode::Search,
    );
    assert_eq!(as_tuples(&list.ngrams), vec![t("of the zeta", 9, &[0, 1, 2])]);
    assert_eq!(list.synonyms.len(), 1);
    assert_eq!(as_tuples(&list.synonyms[&0]), vec![t("alpha of the", 9, &[0, 1, 2])]);
}

#[test]
fn stop_words_in_a_row_and_a_variant() {
    let w = words(&["aa", "of", "the", "bb", "cc"]);
    let mut word_idx = vec![0, 3, 4];
    let list = get_stop_ngrams(
        &w,
        &vec![10, 1, 2, 7, 3],
        &mut word_idx,
        &vec![1, 2],
        &overlay(&[(3, "bz")]),
        ParseMode::Search,
    );
    assert_eq!(
        as_tuples(&list.ngrams),
        vec![t("aa of", 11, &[0, 1]), t("bb the", 9, &[2, 3]), t("cc", 3, &[4])]
    );
    assert_eq!(list.synonyms.len(), 1);
    assert_eq!(as_tuples(&list.synonyms[&1]), vec![t("bz the", 9, &[2, 3])]);
}

#[test]
fn a_stop_word_between_two_words_goes_right_unless_the_left_is_long() {
    // the left word is in no n-gram: it comes first, by itself
    let w = words(&["aa", "of", "bb", "in", "cc"]);
    let mut word_idx = vec![0, 2, 4];
    let list = get_stop_ngrams(
        &w,
        &vec![10, 1, 2, 7, 3],
        &mut word_idx,
        &vec![1, 3],
        &overlay(&[]),
        ParseMode::Search,
    );
    assert_eq!(
        as_tuples(&list.ngrams),
        vec![t("aa", 10, &[0]), t("bb of", 3, &[1, 2]), t("cc in", 10, &[3, 4])]
    );
    // a left word four times as long as the right one takes the stop word
    let w = words(&["abcdefgh", "of", "bb"]);
    let mut word_idx = vec![0, 2];
    let list = get_stop_ngrams(
        &w,
        &vec![10, 1, 2],
        &mut word_idx,
        &vec![1],
        &overlay(&[]),
        ParseMode::Index,
    );
    assert_eq!(as_tuples(&list.ngrams), vec![t("abcdefgh of", 11, &[0, 1]), t("bb", 2, &[2])]);
}

#[test]
fn without_stop_words_every_word_stands_alone() {
    let w = words(&["bdv", "e670"]);
    let mut word_idx = vec![0, 1];
    let list =
        get_stop_ngrams(&w, &vec![4, 6], &mut word_idx, &vec![], &overlay(&[]), ParseMode::Index);
    assert_eq!(as_tuples(&list.ngrams), vec![t("bdv", 4, &[0]), t("e670", 6, &[1])]);
    let w = words(&["one"]);
    let mut word_idx = vec![0];
    let list =
        get_stop_ngrams(&w, &vec![4], &mut word_idx, &vec![], &overlay(&[]), ParseMode::Index);
    assert_eq!(as_tuples(&list.ngrams), vec![t("one", 4, &[0])]);
}

#[test]
fn linked_tokens_are_noted_by_index_and_by_word() {
    let w = words(&["to", "be", "or", "be"]);
    let mut idx: FnvHashSet<usize> = FnvHashSet::default();
    let mut by_word: FnvHashSet<String> = FnvHashSet::default();
    update_linked(&vec![2, 0], &w, &mut idx, &mut by_word);
    assert_eq!(idx, [0, 2].iter().cloned().collect::<FnvHashSet<usize>>());
    assert_eq!(by_word, words(&["or", "to"]).into_iter().collect::<FnvHashSet<String>>());
    update_linked(&vec![3], &w, &mut idx, &mut by_word);
    assert_eq!(idx.len(), 3);
    assert!(by_word.contains("be"));
    assert_eq!(index_set_of(&vec![4, 1, 4]), [1, 4].iter().cloned().collect::<FnvHashSet<usize>>());
}

#[test]
fn every_token_is_in_some_stop_ngram() {
    let cases: Vec<(Vec<&str>, Vec<u128>, Vec<usize>)> = vec![
        (vec!["to", "be", "or"], vec![1, 5, 3], vec![0]),
        (vec!["of", "x", "in"], vec![1, 5, 3], vec![0, 2]),
        (vec!["aa", "of", "the", "bb", "cc"], vec![10, 1, 2, 7, 3], vec![1, 2]),
        (vec!["aa", "of", "bb", "in", "cc"], vec![10, 1, 2, 7, 3], vec![1, 3]),
        (vec!["aa", "bb", "of", "the", "in", "cc", "dd"], vec![1, 9, 1, 1, 1, 5, 2], vec![2, 3, 4]),
        (vec!["of", "the", "in", "to"], vec![4, 3, 2, 1], vec![0, 1, 2, 3]),
        (vec!["aa", "bb", "cc"], vec![4, 3, 2], vec![]),
    ];
    for (tokens, rels, stop_idx) in cases {
        let w = words(&tokens);
        let mut word_idx: Vec<usize> =
            (0..w.len()).filter(|i| !stop_idx.contains(i)).collect();
        let list =
            get_stop_ngrams(&w, &rels, &mut word_idx, &stop_idx, &overlay(&[]), ParseMode::Index);
        for i in 0..w.len() {
            assert!(
                list.ngrams.iter().any(|n| n.word_indices.contains(&i)),
                "token {} of {:?}",
                i,
                tokens
            );
        }
        assert!(list.synonyms.is_empty());
    }
}
