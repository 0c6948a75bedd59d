use fnv::{FnvHashMap, FnvHashSet};
use qpick::lookup::{TermWeights, Toponyms, MISS_WORD_REL};
use qpick::model::ParseMode;
use qpick::parse::get_words_relevances;
use qpick::weights::{flagged_set, heaviest_of, index_words, lightest_of, positions_of};

fn words(v: &[&str]) -> Vec<String> {
    v.iter().map(|w| w.to_string()).collect()
}

fn weights(items: &[(&str, u64)]) -> TermWeights {
    let mut sorted: Vec<(String, u64)> = items.iter().map(|(w, v)| (w.to_string(), *v)).collect();
    sorted.sort();
    TermWeights::from_sorted(&sorted).unwrap()
}

fn places(items: &[&str]) -> Option<Toponyms> {
    let mut sorted: Vec<String> = items.iter().map(|w| w.to_string()).collect();
    sorted.sort();
    Some(Toponyms::from_sorted(&sorted).unwrap())
}

fn set(v: &[&str]) -> FnvHashSet<String> {
    v.iter().map(|w| w.to_string()).collect()
}

fn indices(v: &[usize]) -> FnvHashSet<usize> {
    v.iter().cloned().collect()
}

fn no_overlay() -> FnvHashMap<usize, String> {
    FnvHashMap::default()
}

#[test]
fn the_miss_weight_is_6666() {
    assert_eq!(MISS_WORD_REL, 6666);
}

#[test]
fn stop_words_weigh_half_and_repeated_words_count_once() {
    let w = words(&["the", "cat", "cat", "x2"]);
    let tr = weights(&[("cat", 100), ("the", 50)]);
    let wi = index_words(&w, &tr, &set(&["the"]), &no_overlay(), &None, &None);
    // in halves: the stop word its weight, the others twice theirs
    assert_eq!(wi.rels, vec![50, 200, 200, 2 * 6666]);
    assert_eq!(wi.norm, 50 + 200 + 2 * 6666);
    assert_eq!(wi.stop_idx, vec![0]);
    assert_eq!(wi.word_idx, vec![1, 2, 3]);
    assert_eq!(wi.numerics, indices(&[3]));
    assert_eq!(wi.must_have, vec![3]);
}

#[test]
fn a_word_of_one_byte_is_a_stop_word() {
    let w = words(&["x", "ray", "7"]);
    let tr = weights(&[("7", 10), ("ray", 30), ("x", 20)]);
    let wi = index_words(&w, &tr, &set(&[]), &no_overlay(), &None, &None);
    assert_eq!(wi.stop_idx, vec![0, 2]);
    assert_eq!(wi.word_idx, vec![1]);
    assert_eq!(wi.rels, vec![20, 60, 10]);
    assert_eq!(wi.norm, 90);
    // a stop word is never a must-have, number or not
    assert_eq!(wi.numerics, indices(&[]));
    assert_eq!(wi.must_have, Vec::<usize>::new());
}

#[test]
fn the_lightest_of_four_words_without_a_stop_word_becomes_one() {
    let w = words(&["aa", "bb", "cc", "dd"]);
    let tr = weights(&[("aa", 1), ("bb", 1000), ("cc", 1000), ("dd", 1000)]);
    let wi = index_words(&w, &tr, &set(&[]), &no_overlay(), &None, &None);
    assert_eq!(wi.rels, vec![2, 2000, 2000, 2000]);
    assert_eq!(wi.norm, 6002);
    // 2 / 6002 is less than 1 / 9
    assert_eq!(wi.stop_idx, vec![0]);
    assert_eq!(wi.word_idx, vec![1, 2, 3]);
}

#[test]
fn no_word_becomes_a_stop_word_at_the_threshold_or_in_a_short_query() {
    // 1000 / 9000 is 1 / 9: not less
    let w = words(&["aa", "bb", "cc", "dd"]);
    let tr = weights(&[("aa", 500), ("bb", 1500), ("cc", 1500), ("dd", 1000)]);
    let wi = index_words(&w, &tr, &set(&[]), &no_overlay(), &None, &None);
    assert_eq!(wi.norm, 9000);
    assert_eq!(wi.stop_idx, Vec::<usize>::new());
    assert_eq!(wi.word_idx, vec![0, 1, 2, 3]);
    // three words
    let w = words(&["aa", "bb", "cc"]);
    let tr = weights(&[("aa", 1), ("bb", 1000), ("cc", 1000)]);
    let wi = index_words(&w, &tr, &set(&[]), &no_overlay(), &None, &None);
    assert_eq!(wi.stop_idx, Vec::<usize>::new());
}

#[test]
fn weights_that_sum_to_nothing_are_all_zero() {
    let w = words(&["aa", "bb"]);
    let tr = weights(&[("aa", 0), ("bb", 0)]);
    let wi = index_words(&w, &tr, &set(&[]), &no_overlay(), &None, &None);
    assert_eq!(wi.rels, vec![0, 0]);
    assert_eq!(wi.norm, 1);
}

#[test]
fn an_alternate_lends_its_weight_and_a_synonym_its_place() {
    let w = words(&["visit", "muenchen"]);
    let tr = weights(&[("x", 10000)]);
    let mut overlay = no_overlay();
    overlay.insert(0, "x".to_string());
    let dict: Option<FnvHashMap<String, String>> =
        Some([("muenchen".to_string(), "munich".to_string())].into_iter().collect());
    let topo = places(&["munich"]);
    let wi = index_words(&w, &tr, &set(&[]), &overlay, &topo, &dict);
    assert_eq!(wi.rels, vec![2 * 10000, 2 * 6666]);
    assert_eq!(wi.norm, 2 * 10000 + 2 * 6666);
    assert_eq!(wi.must_have, vec![1]);
    // without the dictionary the synonym is not found
    let wi = index_words(&w, &tr, &set(&[]), &overlay, &topo, &None);
    assert_eq!(wi.must_have, Vec::<usize>::new());
    // a lighter alternate changes nothing
    let tr = weights(&[("x", 10)]);
    let wi = index_words(&w, &tr, &set(&[]), &overlay, &None, &None);
    assert_eq!(wi.rels, vec![2 * 6666, 2 * 6666]);
}

#[test]
fn the_number_and_the_place_must_be_had() {
    let w = words(&["berlin", "2019", "110", "paris"]);
    let tr = weights(&[("110", 900), ("2019", 900), ("berlin", 500), ("paris", 700)]);
    let topo = places(&["berlin", "paris"]);
    let wi = index_words(&w, &tr, &set(&[]), &no_overlay(), &topo, &None);
    // of two numbers that weigh the same the first; the heavier place
    assert_eq!(wi.must_have, vec![1, 3]);
    assert_eq!(wi.numerics, indices(&[1, 2]));
}

#[test]
fn words_relevances_gives_the_weights_by_word() {
    let tr = weights(&[("cat", 100), ("the", 50)]);
    let (by_word, norm) = get_words_relevances(
        "The CAT",
        &tr,
        &set(&["the"]),
        &no_overlay(),
        &None,
        &None,
        ParseMode::Index,
    );
    assert_eq!(by_word.len(), 2);
    assert_eq!(by_word["the"], 50);
    assert_eq!(by_word["cat"], 200);
    assert_eq!(norm, 250);
    // a word that comes twice has one entry
    let tr = weights(&[("kitten", 100), ("the", 50)]);
    let (by_word, norm) = get_words_relevances(
        "kitten the kitten",
        &tr,
        &set(&["the"]),
        &no_overlay(),
        &None,
        &None,
        ParseMode::Index,
    );
    assert_eq!(by_word.len(), 2);
    assert_eq!(by_word["kitten"], 200);
    assert_eq!(norm, 250);
    let (by_word, norm) =
        get_words_relevances("", &tr, &set(&[]), &no_overlay(), &None, &None, ParseMode::Index);
    assert!(by_word.is_empty());
    assert_eq!(norm, 1);
}

#[test]
fn picking_positions_and_extremes() {
    assert_eq!(positions_of(&vec![true, false, true], true), vec![0, 2]);
    assert_eq!(positions_of(&vec![true, false, true], false), vec![1]);
    assert_eq!(flagged_set(&vec![true, false, true]), indices(&[0, 2]));
    assert_eq!(heaviest_of(&vec![5, 9, 9, 3], &vec![true, true, true, false]), Some(1));
    assert_eq!(heaviest_of(&vec![5, 9, 9, 3], &vec![true, false, false, true]), Some(0));
    assert_eq!(heaviest_of(&vec![0, 0], &vec![true, true]), None);
    assert_eq!(heaviest_of(&vec![4, 4], &vec![false, false]), None);
    assert_eq!(lightest_of(&vec![5, 2, 2, 7]), 1);
    assert_eq!(lightest_of(&vec![5]), 0);
}

#[test]
fn term_weights_hold_what_they_were_made_of() {
    let tr = weights(&[("cat", 100), ("the", 50), ("über", 7)]);
    assert_eq!(tr.get("cat"), Some(100));
    assert_eq!(tr.get("the"), Some(50));
    assert_eq!(tr.get("über"), Some(7));
    assert_eq!(tr.get("ca"), None);
    assert_eq!(tr.get("cats"), None);
    assert_eq!(tr.get(""), None);
    let none = weights(&[]);
    assert_eq!(none.get("cat"), None);
}

#[test]
fn term_weights_are_made_of_sorted_words_only() {
    let unsorted = vec![("the".to_string(), 1), ("cat".to_string(), 2)];
    assert!(TermWeights::from_sorted(&unsorted).is_none());
    let twice = vec![("cat".to_string(), 1), ("cat".to_string(), 2)];
    assert!(TermWeights::from_sorted(&twice).is_none());
}

#[test]
fn toponyms_hold_what_they_were_made_of() {
    let topo = places(&["paris", "rome"]).unwrap();
    assert!(topo.contains("paris"));
    assert!(topo.contains("rome"));
    assert!(!topo.contains("par"));
    assert!(!topo.contains("berlin"));
    let unsorted = vec!["rome".to_string(), "paris".to_string()];
    assert!(Toponyms::from_sorted(&unsorted).is_none());
    // a word may come twice
    let twice = vec!["paris".to_string(), "paris".to_string()];
    assert!(Toponyms::from_sorted(&twice).unwrap().contains("paris"));
    assert!(!Toponyms::from_sorted(&vec![]).unwrap().contains(""));
}
