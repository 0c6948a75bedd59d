use fnv::FnvHashMap;
use qpick::model::{ParseMode, WORDS_PER_QUERY};
use qpick::tokens::{
    are_all_short, get_norm_query_vec, split_on, split_spaces, suffix_synonyms, suffix_words,
    word_synonyms,
};

fn words(v: &[&str]) -> Vec<String> {
    v.iter().map(|w| w.to_string()).collect()
}

fn letters(v: &[(usize, &str)]) -> Vec<(usize, String)> {
    v.iter().map(|(i, w)| (*i, w.to_string())).collect()
}

#[test]
fn splitting_keeps_empty_pieces() {
    assert_eq!(split_spaces("a b"), words(&["a", "b"]));
    assert_eq!(split_spaces("a  b "), words(&["a", "", "b", ""]));
    assert_eq!(split_spaces(""), words(&[""]));
    assert_eq!(split_on("q:a:b", ':'), words(&["q", "a", "b"]));
    assert_eq!(split_on("no tab", '\t'), words(&["no tab"]));
}

#[test]
fn an_empty_query_has_no_tokens() {
    for q in ["", "   ", "!!!", "?,:"] {
        let (w, s) = get_norm_query_vec(q, &None, ParseMode::Search);
        assert!(w.is_empty(), "query: {:?}", q);
        assert!(s.is_empty());
    }
}

#[test]
fn at_most_fifteen_tokens_are_kept() {
    let q = "alpha bravo charlie delta echoes foxtrot golfer hotel india juliet kilos limas mikes november oscar papas quebec";
    let (w, _) = get_norm_query_vec(q, &None, ParseMode::Index);
    assert_eq!(w.len(), WORDS_PER_QUERY);
    assert_eq!(w[0], "alpha");
    assert_eq!(w[14], "oscar");
}

#[test]
fn single_characters_are_kept_dropped_or_recorded() {
    // the first piece is kept whatever it is
    let (w, _) = get_norm_query_vec("x tomorrow never", &None, ParseMode::Index);
    assert_eq!(w, words(&["x", "tomorrow", "never"]));
    // a digit is kept
    let (w, _) = get_norm_query_vec("windows 7 download", &None, ParseMode::Index);
    assert_eq!(w, words(&["windows", "7", "download"]));
    // a character that is no letter is dropped and leaves no alternate
    let (w, s) = get_norm_query_vec("tomorrow $ never", &None, ParseMode::Search);
    assert_eq!(w, words(&["tomorrow", "never"]));
    assert!(s.is_empty());
    // a letter is dropped and becomes an alternate of the word before it
    let (w, s) = get_norm_query_vec("tomorrow n never", &None, ParseMode::Search);
    assert_eq!(w, words(&["tomorrow", "never"]));
    assert_eq!(s.get(&0), Some(&"tomorrown".to_string()));
    assert_eq!(s.len(), 1);
}

#[test]
fn sparse_tokens_are_joined() {
    let (w, _) = get_norm_query_vec("@x s e l e n a x", &None, ParseMode::Index);
    assert_eq!(w, words(&["xselenax"]));
    let (w, _) = get_norm_query_vec("@xsel e n a x", &None, ParseMode::Search);
    assert_eq!(w, words(&["xselenax"]));
    // three short words are sparse too
    let (w, _) = get_norm_query_vec("ab cd ef", &None, ParseMode::Index);
    assert_eq!(w, words(&["abcdef"]));
    // two short words without a letter are not
    let (w, _) = get_norm_query_vec("ab cd", &None, ParseMode::Index);
    assert_eq!(w, words(&["ab", "cd"]));
    // a word of five bytes is not short
    let (w, _) = get_norm_query_vec("ab cd efghi", &None, ParseMode::Index);
    assert_eq!(w, words(&["ab", "cd", "efghi"]));
    // if a word grows beyond four bytes with its letters, nothing is joined
    let (w, _) = get_norm_query_vec("abcd e fg", &None, ParseMode::Index);
    assert_eq!(w, words(&["abcde", "fg"]));
}

#[test]
fn suffix_words_puts_letters_behind_their_words() {
    let w = words(&["long-word", "other"]);
    let l = letters(&[(0, "a"), (1, "b"), (0, "c")]);
    assert_eq!(suffix_words(&w, &l), words(&["long-wordac", "otherb"]));
    let w = words(&["xel", "en"]);
    let l = letters(&[(1, "e"), (1, "x")]);
    assert_eq!(suffix_words(&w, &l), words(&["xelenex"]));
    let w = words(&["one"]);
    assert_eq!(suffix_words(&w, &letters(&[])), words(&["one"]));
    assert_eq!(suffix_words(&words(&[]), &letters(&[])), words(&[]));
}

#[test]
fn suffix_synonyms_adds_words_with_their_letters() {
    let w = words(&["defekt", "mobile", "iphone"]);
    let l = letters(&[(0, "t"), (2, "x"), (2, "s")]);
    let mut syn: FnvHashMap<usize, String> = FnvHashMap::default();
    suffix_synonyms(&w, &l, &mut syn);
    assert_eq!(syn.len(), 2);
    assert_eq!(syn.get(&0), Some(&"defektt".to_string()));
    assert_eq!(syn.get(&2), Some(&"iphonexs".to_string()));
    let mut none: FnvHashMap<usize, String> = FnvHashMap::default();
    suffix_synonyms(&w, &letters(&[]), &mut none);
    assert!(none.is_empty());
}

#[test]
fn word_synonyms_come_from_the_dictionary() {
    let dict: Option<FnvHashMap<String, String>> = Some(
        [("bicycle", "bike"), ("vs", "against"), ("car", "auto")]
            .iter()
            .map(|(a, b)| (a.to_string(), b.to_string()))
            .collect(),
    );
    let w = words(&["bicycle", "vs", "car", "auto"]);
    let mut syn: FnvHashMap<usize, String> = FnvHashMap::default();
    syn.insert(1, "versus".to_string());
    word_synonyms(&w, &mut syn, &dict);
    // a token keeps the alternate it has; an alternate that is a token is left out
    assert_eq!(syn.len(), 2);
    assert_eq!(syn.get(&0), Some(&"bike".to_string()));
    assert_eq!(syn.get(&1), Some(&"versus".to_string()));
    let mut untouched: FnvHashMap<usize, String> = FnvHashMap::default();
    word_synonyms(&w, &mut untouched, &None);
    assert!(untouched.is_empty());
}

#[test]
fn alternates_are_made_for_a_search_only() {
    let dict: Option<FnvHashMap<String, String>> = Some(
        [("stream", "streaming")].iter().map(|(a, b)| (a.to_string(), b.to_string())).collect(),
    );
    let q = "friends s01 e01 stream";
    let (w, s) = get_norm_query_vec(q, &dict, ParseMode::Search);
    assert_eq!(w, words(&["friends", "s01", "e01", "stream"]));
    assert_eq!(s.len(), 1);
    assert_eq!(s.get(&3), Some(&"streaming".to_string()));
    let (wi, si) = get_norm_query_vec(q, &dict, ParseMode::Index);
    assert_eq!(wi, w);
    assert!(si.is_empty());
}

#[test]
fn short_words() {
    assert!(are_all_short(&words(&["a", "abcd", "äö"])));
    assert!(!are_all_short(&words(&["a", "äöü"])));
    assert!(are_all_short(&words(&[])));
}

#[test]
fn the_fields_of_a_text_rejoin_to_the_text() {
    for s in ["", " ", "a b  c ", "q:a:b", "::", "no separator", "ä ö\tü"] {
        for sep in [' ', ':', '\t'] {
            let fields = split_on(s, sep);
            assert!(fields.len() >= 1);
            assert!(fields.iter().all(|f| !f.contains(sep)));
            assert_eq!(fields.join(&sep.to_string()), s);
        }
    }
}
