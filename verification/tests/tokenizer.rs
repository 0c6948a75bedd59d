use fnv::FnvHashMap;
use qpick::model::ParseMode;
use qpick::tokens::get_norm_query_vec;

#[test]
fn test_suffix_words() {
    let q = "@xel en e x";
    let e = vec!["xelenex"];
    let (words, _) = get_norm_query_vec(q, &None, ParseMode::Search);
    assert_eq!(words, e);
}

#[test]
fn test_get_norm_query_vec() {
    let q = "ruby date and time as string";
    let e = vec!["ruby", "date", "and", "time", "as", "string"];
    let (words, _) = get_norm_query_vec(q, &None, ParseMode::Search);
    assert_eq!(words, e);

    let q = "sim karte defekt t mobile iphone";
    let e_words = vec!["sim", "karte", "defekt", "mobile", "iphone"];
    let e_synonyms = vec![(2, "defektt")]
        .into_iter()
        .map(|(i, s)| (i, s.to_string()))
        .collect::<FnvHashMap<usize, String>>();
    let (words, synonyms) = get_norm_query_vec(q, &None, ParseMode::Search);
    assert_eq!(words, e_words);
    assert_eq!(synonyms, e_synonyms);

    let q = "sim karte defekt t mobile iphone";
    let e_words = vec!["sim", "karte", "defekt", "mobile", "iphone"];
    let e_suffix_letters: FnvHashMap<usize, String> = FnvHashMap::default();
    let (words, suffix_letters) = get_norm_query_vec(q, &None, ParseMode::Index);
    assert_eq!(words, e_words);
    assert_eq!(suffix_letters, e_suffix_letters);

    let q = "caddy14 d ersatzteile";
    let e_words = vec!["caddy", "14", "ersatzteile"];
    let e_synonyms = vec![(1, "14d")]
        .into_iter()
        .map(|(i, s)| (i, s.to_string()))
        .collect::<FnvHashMap<usize, String>>();
    let (words, synonyms) = get_norm_query_vec(q, &None, ParseMode::Search);
    assert_eq!(words, e_words);
    assert_eq!(synonyms, e_synonyms);

    let q = "caddy14 d ersatzteile";
    let e_words = vec!["caddy", "14", "ersatzteile"];
    let e_synonyms: FnvHashMap<usize, String> = FnvHashMap::default();
    let (words, synonyms) = get_norm_query_vec(q, &None, ParseMode::Index);
    assert_eq!(words, e_words);
    assert_eq!(synonyms, e_synonyms);

    let q = "r sim 7 free mobile iphone 5";
    let e = vec!["r", "sim", "7", "free", "mobile", "iphone", "5"];
    let (words, _) = get_norm_query_vec(q, &None, ParseMode::Search);
    assert_eq!(words, e);
}
