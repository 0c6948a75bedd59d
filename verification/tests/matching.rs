use fnv::{FnvHashMap, FnvHashSet};
use qpick::matcher::match_queries;

// The matched, missing and excess words are sets: they are compared without
// their order.
fn sorted(v: Vec<&str>) -> Vec<String> {
    let mut s: Vec<String> = v.into_iter().map(|w| w.to_string()).collect();
    s.sort();
    s
}

fn sorted_words(v: Vec<String>) -> Vec<String> {
    let mut s = v;
    s.sort();
    s
}

fn assert_match_miss_excess(
    q_cand: &str,
    org_q: &FnvHashSet<String>,
    cand_syns: &FnvHashMap<String, String>,
    e_cand: Vec<&str>,
    e_match: Vec<&str>,
    e_miss: Vec<&str>,
    e_excess: Vec<&str>,
) {
    let (cand_words, match_words, miss_words, excess_words) =
        match_queries(q_cand, &org_q, &cand_syns);
    assert_eq!(cand_words, e_cand);
    assert_eq!(sorted_words(match_words), sorted(e_match));
    assert_eq!(sorted_words(miss_words), sorted(e_miss));
    assert_eq!(sorted_words(excess_words), sorted(e_excess));
}

#[test]
fn test_match_queries() {
    let org_q: FnvHashSet<String> = vec!["several", "million"]
        .into_iter()
        .map(|w| w.to_string())
        .collect();

    let cand_syns: FnvHashMap<String, String> = vec![("millions", "million")]
        .into_iter()
        .map(|(w1, w2)| (w1.to_string(), w2.to_string()))
        .collect();

    let q_cand = "several millions";
    let (e_cand, e_match) = (vec!["several", "millions"], vec!["several", "million"]);
    let (e_miss, e_excess): (Vec<&str>, Vec<&str>) = (vec![], vec![]);
    assert_match_miss_excess(
        q_cand, &org_q, &cand_syns, e_cand, e_match, e_miss, e_excess,
    );

    let q_cand = "2 millions";
    let (e_cand, e_match, e_miss, e_excess) = (
        vec!["2", "millions"],
        vec!["million"],
        vec!["several"],
        vec!["2"],
    );
    assert_match_miss_excess(
        q_cand, &org_q, &cand_syns, e_cand, e_match, e_miss, e_excess,
    );

    let q_cand = "several million or millions";
    let (e_cand, e_match, e_excess) = (
        vec!["several", "million", "or", "millions"],
        vec!["several", "million"],
        vec!["or", "millions"],
    );
    let e_miss: Vec<&str> = vec![];
    assert_match_miss_excess(
        q_cand, &org_q, &cand_syns, e_cand, e_match, e_miss, e_excess,
    );

    let q_cand = "several million or several millions";
    let (e_cand, e_match, e_excess) = (
        vec!["several", "million", "or", "several", "millions"],
        vec!["several", "million"],
        vec!["or", "millions"],
    );
    let e_miss: Vec<&str> = vec![];
    assert_match_miss_excess(
        q_cand, &org_q, &cand_syns, e_cand, e_match, e_miss, e_excess,
    );

    let q_cand = "several million vs several millions";
    let (e_cand, e_match, e_excess) = (
        vec!["several", "million", "vs", "several", "millions"],
        vec!["several", "million"],
        vec!["millions", "vs"],
    );
    let e_miss: Vec<&str> = vec![];
    assert_match_miss_excess(
        q_cand, &org_q, &cand_syns, e_cand, e_match, e_miss, e_excess,
    );
}
