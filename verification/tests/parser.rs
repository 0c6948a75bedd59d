use fnv::{FnvHashMap, FnvHashSet};
use qpick::lookup::{TermWeights, Toponyms};
use qpick::model::ParseMode;
use qpick::parse::parse;
use qpick::scan::get_stop_ngrams;
use qpick::tokens::get_norm_query_vec;
use qpick::weights::index_words;

// The term weights, toponyms, stop words and synonyms below are a small made-up
// index: large enough to cover every query of these tests.

fn term_weights() -> TermWeights {
    // keys in byte order, as the map builder asks
    let items: Vec<(&str, u64)> = vec![
        ("1", 2500), ("113", 5198), ("123", 400), ("14", 1),
        ("14d", 6559), ("2017", 15000), ("30", 700), ("4", 2000),
        ("4500", 7651), ("4500e", 4000), ("56", 321), ("7", 8),
        ("95", 300), ("aber", 2000), ("against", 2000), ("all", 149),
        ("allocating", 1), ("alter", 2550), ("amazon", 15), ("and", 59),
        ("bar", 4000), ("bdv", 150), ("best", 1900), ("bicycle", 3723),
        ("big", 22), ("bigram", 45000), ("bike", 200), ("bind", 4114),
        ("blutdruck", 5666), ("buffer", 5100), ("by", 1260), ("caddy", 6000),
        ("callintransaction", 360), ("calypso", 100), ("catia", 1709), ("changing", 5320),
        ("cisco", 9001), ("clash", 360), ("configuration", 2890), ("datei", 918),
        ("dax", 8400), ("deal", 1200), ("defekt", 9999), ("defektt", 400),
        ("destiny", 60), ("dinkel", 1700), ("disneyland", 9753), ("download", 3150),
        ("e01", 2500), ("e670", 4000), ("emacs", 18051), ("episode", 12000),
        ("ersatzteile", 2000), ("evangelische", 8000), ("exportieren", 771), ("file", 88),
        ("first", 2625), ("flag", 3600), ("flowers", 315), ("free", 400),
        ("friends", 1900), ("fsck", 7752), ("genres", 2500), ("go", 2224),
        ("h2", 126), ("has", 3), ("hengstenberg", 402), ("if", 100),
        ("im", 700), ("imagic", 12285), ("in", 3), ("influences", 20000),
        ("inode", 9618), ("into", 1200), ("invent", 3000), ("iota", 15000),
        ("iphone", 15000), ("is", 1200), ("it", 882), ("javascript", 3000),
        ("k5177", 9103), ("karte", 10105), ("keine", 5700), ("kenzan", 30000),
        ("key", 3324), ("laravel", 123120), ("list", 700), ("literature", 2850),
        ("mac", 15436), ("magicians", 180), ("manager", 4711), ("many", 8268),
        ("memory", 200), ("menu", 9025), ("mobile", 8160), ("mode", 3122),
        ("moon", 3957), ("movies", 350), ("nidda", 52920), ("not", 28500),
        ("nota", 665), ("numeric", 12), ("of", 10), ("on", 2),
        ("order", 9975), ("ormlite", 500), ("os", 3812), ("paris", 5700),
        ("paws", 5100), ("person", 1231), ("pokemon", 6174), ("positionierte", 1259),
        ("power", 3674), ("prime", 6000), ("programming", 150), ("puls", 700),
        ("python", 1424), ("remove", 1500), ("rezept", 999), ("rock", 5592),
        ("s01", 2115), ("samsung", 20486), ("scholarship", 72), ("season", 20000),
        ("set", 150), ("sim", 11398), ("sind", 750), ("size", 3000),
        ("skype", 29925), ("spaces", 5000), ("stl", 1083), ("stream", 1795),
        ("streaming", 63), ("the", 50), ("thesis", 735), ("ticket", 4537),
        ("to", 10), ("toasties", 2493), ("tuhh", 11200), ("tv", 19455),
        ("txt", 300), ("unternehmen", 3704), ("vollkorn", 1344), ("vs", 1187),
        ("walk", 3000), ("was", 4000), ("watch", 300), ("welche", 400),
        ("what", 2000), ("who", 280), ("word", 5250), ("xselenax", 2100),
        ("youngest", 2728), ("zeit", 4750), ("zu", 228),
    ];
    let items: Vec<(String, u64)> = items.into_iter().map(|(w, v)| (w.to_string(), v)).collect();
    TermWeights::from_sorted(&items).unwrap()
}

fn toponyms() -> Toponyms {
    let items: Vec<&str> = vec![
        "bind", "calypso", "dinkel", "flag", "flowers", "list", "many", "moon", "paris", "puls", "rock", "samsung", "streaming",
    ];
    let items: Vec<String> = items.into_iter().map(|w| w.to_string()).collect();
    Toponyms::from_sorted(&items).unwrap()
}

fn stopwords() -> FnvHashSet<String> {
    let words = [
        "aber", "all", "and", "by", "has", "if", "im", "in",
        "into", "is", "it", "keine", "not", "of", "on", "sind",
        "the", "to", "txt", "was", "welche", "what", "who", "zu",
    ];
    words.iter().map(|w| w.to_string()).collect()
}

fn synonyms() -> FnvHashMap<String, String> {
    let pairs = [("bicycle", "bike"), ("stream", "streaming"), ("vs", "against")];
    pairs.iter().map(|(w, s)| (w.to_string(), s.to_string())).collect()
}

fn get_stop_ngrams_test(
    query: &str,
    tr_map: &TermWeights,
    stopwords: &FnvHashSet<String>,
    mode: ParseMode,
) -> Vec<String> {
    let (words, _) = get_norm_query_vec(query, &None, mode);

    if words.is_empty() {
        return vec![];
    }

    if words.len() == 1 {
        return words;
    }

    let synonyms: FnvHashMap<usize, String> = FnvHashMap::default();
    let wi = index_words(&words, tr_map, stopwords, &synonyms, &None, &None);
    let mut word_idx = wi.word_idx;

    let stop_ngrams = get_stop_ngrams(
        &words,
        &wi.rels,
        &mut word_idx,
        &wi.stop_idx,
        &synonyms,
        mode,
    );

    stop_ngrams
        .ngrams
        .iter()
        .map(|n| n.ngram.clone())
        .collect::<Vec<String>>()
}

fn sorted(v: &Vec<usize>) -> Vec<usize> {
    let mut s = v.clone();
    s.sort();
    s
}

fn assert_must_have_words_ngrams_ids(
    query: &str,
    synonyms: &Option<FnvHashMap<String, String>>,
    toponyms: &Option<Toponyms>,
    stopwords: &FnvHashSet<String>,
    tr_map: &TermWeights,
    mode: ParseMode,
    e_must_have: Vec<usize>,
    e_words: Vec<&str>,
    e_ngrams_ids: Vec<(&str, Vec<usize>)>,
) {
    let p = parse(query, synonyms, toponyms, stopwords, tr_map, mode);
    let e_ngrams_ids = e_ngrams_ids
        .into_iter()
        .map(|(s, v)| (s.to_string(), v))
        .collect::<FnvHashMap<String, Vec<usize>>>();

    assert_eq!(p.ngrams.len(), p.ngrams_ids.len());
    assert_eq!(p.ngrams_ids, e_ngrams_ids);
    assert_eq!(p.words, e_words);
    // the must-have indices are a set: they are compared without their order
    assert_eq!(sorted(&p.must_have), sorted(&e_must_have), "query: {}", query);
}

#[test]
fn test_get_stop_ngrams() {
    let stopwords = stopwords();
    let tr_map = term_weights();

    let mode = ParseMode::Index;

    let q = "watch the magicians season 4 free 123";
    let e = vec!["watch", "magicians the", "4 season", "free", "123"];
    assert_eq!(get_stop_ngrams_test(q, &tr_map, &stopwords, mode), e);

    let q = "watch the magicians season 4 episode 1 free 123";
    let e = vec!["watch", "magicians the", "4 season", "1 episode", "free", "123"];
    assert_eq!(get_stop_ngrams_test(q, &tr_map, &stopwords, mode), e);

    let q = "watch the magicians season 4 episode 1 123movies";
    let e = vec!["watch", "magicians the", "4 season", "1 episode", "123", "movies"];
    assert_eq!(get_stop_ngrams_test(q, &tr_map, &stopwords, mode), e);

    let q = "ormlite callintransaction and h2";
    let e = vec!["ormlite", "and callintransaction", "h2"];
    assert_eq!(get_stop_ngrams_test(q, &tr_map, &stopwords, mode), e);

    let q = "laravel has many order by";
    let e = vec!["laravel", "has many", "by order"];
    assert_eq!(get_stop_ngrams_test(q, &tr_map, &stopwords, mode), e);

    let q = "order by has many laravel";
    let e = vec!["by order", "has many", "laravel"];
    assert_eq!(get_stop_ngrams_test(q, &tr_map, &stopwords, mode), e);

    let q = "the paws of destiny amazon prime";
    let e = vec!["paws the", "destiny of", "amazon", "prime"];
    assert_eq!(get_stop_ngrams_test(q, &tr_map, &stopwords, mode), e);

    let q = "the clash influences";
    let e = vec!["clash the", "influences"];
    assert_eq!(get_stop_ngrams_test(q, &tr_map, &stopwords, mode), e);

    let q = "welche 30 unternehmen sind im dax";
    let e = vec!["30 welche", "unternehmen", "dax im sind"];
    assert_eq!(get_stop_ngrams_test(q, &tr_map, &stopwords, mode), e);

    let q = "if the word is numeric it has to go into bigram";
    let e = vec!["if the word", "is numeric", "has it", "go to", "bigram into"];
    assert_eq!(get_stop_ngrams_test(q, &tr_map, &stopwords, mode), e);

    let q = "if the word is 7 it has to go into bigram";
    let e = vec!["if the word", "7 is", "has it", "go to", "bigram into"];
    assert_eq!(get_stop_ngrams_test(q, &tr_map, &stopwords, mode), e);

    let q = "remove all of the spaces in JavaScript file";
    let e = vec!["all remove", "of spaces the", "in javascript", "file"];
    assert_eq!(get_stop_ngrams_test(q, &tr_map, &stopwords, mode), e);

    let q = "allocating memory is not a big deal";
    let e = vec!["allocating", "is memory", "big not", "deal"];
    assert_eq!(get_stop_ngrams_test(q, &tr_map, &stopwords, mode), e);

    let q = "aber keine";
    let e = vec!["aber keine"];
    assert_eq!(get_stop_ngrams_test(q, &tr_map, &stopwords, mode), e);

    let q = "hengstenberg evangelische";
    let e = vec!["hengstenberg", "evangelische"];
    assert_eq!(get_stop_ngrams_test(q, &tr_map, &stopwords, mode), e);

    let q = "changing mac os menu bar";
    let e = vec!["changing", "mac", "os", "menu", "bar"];
    assert_eq!(get_stop_ngrams_test(q, &tr_map, &stopwords, mode), e);

    let q = "emacs bind buffer mode key";
    let e = vec!["emacs", "bind", "buffer", "mode", "key"];
    assert_eq!(get_stop_ngrams_test(q, &tr_map, &stopwords, mode), e);

    let q = "sim karte defekt t mobile iphone";
    let e = vec!["sim", "karte", "defekt", "mobile", "iphone"];
    assert_eq!(get_stop_ngrams_test(q, &tr_map, &stopwords, mode), e);

    let q = "disneyland paris ticket download";
    let e = vec!["disneyland", "paris", "ticket", "download"];
    assert_eq!(get_stop_ngrams_test(q, &tr_map, &stopwords, mode), e);

    let q = "friends s01 e01 stream";
    let e = vec!["friends", "s01", "e01", "stream"];
    assert_eq!(get_stop_ngrams_test(q, &tr_map, &stopwords, mode), e);

    let q = "caddy14 d ersatzteile";
    let e = vec!["caddy", "14", "ersatzteile"];
    assert_eq!(get_stop_ngrams_test(q, &tr_map, &stopwords, mode), e);

    let q = "who was the first to invent bicycle";
    let e = vec!["the was who", "first", "invent to", "bicycle"];
    assert_eq!(
        get_stop_ngrams_test(q, &tr_map, &stopwords, ParseMode::Index),
        e
    );
    assert_eq!(
        get_stop_ngrams_test(q, &tr_map, &stopwords, ParseMode::Search),
        e
    );

    let q = "youngest person to walk on the moon";
    let e = vec!["youngest", "person", "to walk", "moon on the"];
    assert_eq!(
        get_stop_ngrams_test(q, &tr_map, &stopwords, ParseMode::Index),
        e
    );
    assert_eq!(
        get_stop_ngrams_test(q, &tr_map, &stopwords, ParseMode::Search),
        e
    );

    let q = "youngest person on the moon";
    let e = vec!["youngest", "person", "moon on the"];
    assert_eq!(
        get_stop_ngrams_test(q, &tr_map, &stopwords, ParseMode::Index),
        e
    );
    assert_eq!(
        get_stop_ngrams_test(q, &tr_map, &stopwords, ParseMode::Search),
        e
    );

    let q = "@x s e l e n a x";
    let e = vec!["xselenax"];
    assert_eq!(
        get_stop_ngrams_test(q, &tr_map, &stopwords, ParseMode::Index),
        e
    );
    assert_eq!(
        get_stop_ngrams_test(q, &tr_map, &stopwords, ParseMode::Search),
        e
    );

    let q = "@xsel e n a x";
    let e = vec!["xselenax"];
    assert_eq!(
        get_stop_ngrams_test(q, &tr_map, &stopwords, ParseMode::Index),
        e
    );
    assert_eq!(
        get_stop_ngrams_test(q, &tr_map, &stopwords, ParseMode::Search),
        e
    );

    let q = "bdv e670";
    let e = vec!["bdv", "e670"];
    assert_eq!(
        get_stop_ngrams_test(q, &tr_map, &stopwords, ParseMode::Index),
        e
    );
    assert_eq!(
        get_stop_ngrams_test(q, &tr_map, &stopwords, ParseMode::Search),
        e
    );
}

#[test]
fn test_parse() {
    let synonyms = Some(synonyms());
    let toponyms = Some(toponyms());
    let stopwords = stopwords();
    let tr_map = term_weights();

    let q = "list of literature genres txt";
    assert_must_have_words_ngrams_ids(
        q,
        &synonyms,
        &toponyms,
        &stopwords,
        &tr_map,
        ParseMode::Index,
        vec![0, 2],
        vec!["list", "of", "literature", "genres", "txt"],
        vec![
            ("list literature of", vec![0, 1, 2]),
            ("literature of", vec![1, 2]),
            ("genres list", vec![3, 0]),
            ("genres txt", vec![3, 4]),
            ("genres txt list", vec![0, 3, 4]),
            ("genres literature", vec![2, 3]),
            ("list literature", vec![2, 0]),
            ("genres txt literature of", vec![1, 2, 3, 4]),
            ("genres list literature", vec![2, 3, 0]),
            ("genres of", vec![3, 1]),
            ("genres", vec![3]),
        ],
    );

    let q = "friends s01 e01 stream";
    assert_must_have_words_ngrams_ids(
        q,
        &synonyms,
        &toponyms,
        &stopwords,
        &tr_map,
        ParseMode::Index,
        vec![0, 3, 2],
        vec!["friends", "s01", "e01", "stream"],
        vec![
            ("s01 stream", vec![1, 3]),
            ("friends s01", vec![0, 1]),
            ("e01 s01", vec![1, 2]),
            ("friends stream", vec![0, 3]),
            ("e01 friends", vec![0, 2]),
            ("e01 stream", vec![2, 3]),
            ("e01 friends s01", vec![2, 1, 0]),
            ("s01", vec![1]),
        ],
    );

    let q = "emacs bind buffer mode key";
    assert_must_have_words_ngrams_ids(
        q,
        &synonyms,
        &toponyms,
        &stopwords,
        &tr_map,
        ParseMode::Index,
        vec![1, 0],
        vec!["emacs", "bind", "buffer", "mode", "key"],
        vec![
            ("emacs key", vec![0, 4]),
            ("buffer emacs", vec![0, 2]),
            ("bind emacs", vec![0, 1]),
            ("bind buffer", vec![1, 2]),
            ("emacs mode", vec![0, 3]),
            ("buffer mode", vec![2, 3]),
            ("buffer key", vec![2, 4]),
            ("key mode", vec![3, 4]),
            ("bind buffer emacs", vec![0, 2, 1]),
            ("bind mode", vec![1, 3]),
            ("bind key", vec![1, 4]),
            ("emacs", vec![0]),
        ],
    );

    let q = "disneyland paris ticket download";
    assert_must_have_words_ngrams_ids(
        q,
        &synonyms,
        &toponyms,
        &stopwords,
        &tr_map,
        ParseMode::Index,
        vec![1, 0],
        vec!["disneyland", "paris", "ticket", "download"],
        vec![
            ("disneyland paris", vec![0, 1]),
            ("paris ticket", vec![1, 2]),
            ("download ticket", vec![2, 3]),
            ("disneyland download", vec![0, 3]),
            ("disneyland", vec![0]),
            ("disneyland paris ticket", vec![0, 1, 2]),
            ("disneyland ticket", vec![0, 2]),
            ("download paris", vec![1, 3]),
        ],
    );

    let q = "cisco 4500e power supply configuration manager";
    assert_must_have_words_ngrams_ids(
        q,
        &synonyms,
        &toponyms,
        &stopwords,
        &tr_map,
        ParseMode::Index,
        vec![1, 0],
        vec!["cisco", "4500", "power", "supply", "configuration", "manager"],
        vec![
            ("power supply", vec![2, 3]),
            ("manager power", vec![2, 5]),
            ("4500 manager", vec![1, 5]),
            ("manager supply", vec![3, 5]),
            ("configuration power", vec![2, 4]),
            ("configuration supply", vec![3, 4]),
            ("configuration manager", vec![4, 5]),
            ("cisco configuration", vec![0, 4]),
            ("cisco manager", vec![0, 5]),
            ("cisco power", vec![0, 2]),
            ("cisco supply", vec![0, 3]),
            ("4500 cisco supply", vec![0, 1, 3]),
            ("4500 configuration", vec![1, 4]),
            ("4500 cisco", vec![0, 1]),
            ("4500 supply", vec![1, 3]),
            ("4500 power", vec![1, 2]),
            ("4500", vec![1]),
        ],
    );

    let q = "tuhh thesis scholarship";
    assert_must_have_words_ngrams_ids(
        q,
        &synonyms,
        &toponyms,
        &stopwords,
        &tr_map,
        ParseMode::Index,
        vec![0],
        vec!["tuhh", "thesis", "scholarship"],
        vec![
            ("thesis tuhh", vec![0, 1]),
            ("scholarship thesis", vec![1, 2]),
            ("scholarship tuhh", vec![0, 2]),
            ("tuhh", vec![0]),
        ],
    );

    let q = "welche 30 unternehmen sind im dax";
    assert_must_have_words_ngrams_ids(
        q,
        &synonyms,
        &toponyms,
        &stopwords,
        &tr_map,
        ParseMode::Index,
        vec![1, 5],
        vec!["welche", "30", "unternehmen", "sind", "im", "dax"],
        vec![
            ("unternehmen welche", vec![2, 0]),
            ("30 welche unternehmen", vec![0, 1, 2]),
            ("30 dax", vec![5, 1]),
            ("30 welche dax im sind", vec![0, 1, 3, 4, 5]),
            ("dax im sind", vec![3, 4, 5]),
            ("dax unternehmen", vec![5, 2]),
            ("30 unternehmen", vec![2, 1]),
            ("30 dax unternehmen", vec![5, 2, 1]),
            ("dax im sind unternehmen", vec![2, 3, 4, 5]),
            ("dax", vec![5]),
        ],
    );

    let q = "nidda in alter zeit";
    assert_must_have_words_ngrams_ids(
        q,
        &synonyms,
        &toponyms,
        &stopwords,
        &tr_map,
        ParseMode::Index,
        vec![0],
        vec!["nidda", "in", "alter", "zeit"],
        vec![
            ("alter zeit", vec![3, 2]),
            ("in zeit", vec![3, 1]),
            ("alter nidda", vec![0, 2]),
            ("nidda zeit", vec![0, 3]),
            ("alter in nidda", vec![0, 1, 2]),
            ("nidda", vec![0]),
            ("alter nidda zeit", vec![0, 3, 2]),
            ("alter in zeit", vec![1, 2, 3]),
        ],
    );

    let q = "fsck inode has imagic flag set";
    assert_must_have_words_ngrams_ids(
        q,
        &synonyms,
        &toponyms,
        &stopwords,
        &tr_map,
        ParseMode::Index,
        vec![4],
        vec!["fsck", "inode", "has", "imagic", "flag", "set"],
        vec![
            ("fsck inode", vec![0, 1]),
            ("flag fsck", vec![0, 4]),
            ("has imagic", vec![2, 3]),
            ("flag has imagic", vec![2, 3, 4]),
            ("flag set", vec![4, 5]),
            ("fsck has imagic", vec![0, 2, 3]),
            ("fsck imagic inode", vec![3, 1, 0]),
            ("has imagic set", vec![2, 3, 5]),
            ("has imagic inode", vec![1, 2, 3]),
            ("has inode", vec![1, 2]),
            ("imagic inode", vec![3, 1]),
            ("flag inode", vec![1, 4]),
            ("inode set", vec![1, 5]),
            ("fsck imagic", vec![3, 0]),
        ],
    );

    let q = "python programming to iota";
    assert_must_have_words_ngrams_ids(
        q,
        &synonyms,
        &toponyms,
        &stopwords,
        &tr_map,
        ParseMode::Index,
        vec![3],
        vec!["python", "programming", "to", "iota"],
        vec![
            ("iota to programming", vec![1, 2, 3]),
            ("python to", vec![0, 2]),
            ("iota to python", vec![0, 2, 3]),
            ("iota to", vec![2, 3]),
            ("iota python", vec![3, 0]),
            ("iota programming python", vec![3, 0, 1]),
            ("programming python", vec![0, 1]),
            ("iota programming", vec![3, 1]),
            ("iota", vec![3]),
        ],
    );

    let q = "dinkel vollkorn toasties rezept";
    assert_must_have_words_ngrams_ids(
        q,
        &synonyms,
        &toponyms,
        &stopwords,
        &tr_map,
        ParseMode::Index,
        vec![0, 2],
        vec!["dinkel", "vollkorn", "toasties", "rezept"],
        vec![
            ("toasties vollkorn", vec![1, 2]),
            ("rezept toasties", vec![2, 3]),
            ("rezept vollkorn", vec![1, 3]),
            ("dinkel toasties vollkorn", vec![2, 0, 1]),
            ("dinkel rezept", vec![0, 3]),
            ("dinkel vollkorn", vec![0, 1]),
            ("dinkel toasties", vec![0, 2]),
        ],
    );

    let q = "laravel has many order by";
    assert_must_have_words_ngrams_ids(
        q,
        &synonyms,
        &toponyms,
        &stopwords,
        &tr_map,
        ParseMode::Index,
        vec![0, 2],
        vec!["laravel", "has", "many", "order", "by"],
        vec![
            ("by order has many", vec![1, 2, 3, 4]),
            ("has many laravel", vec![0, 1, 2]),
            ("by order laravel", vec![0, 3, 4]),
            ("laravel order", vec![0, 3]),
            ("many order", vec![3, 2]),
            ("laravel many order", vec![0, 3, 2]),
            ("laravel many", vec![0, 2]),
            ("laravel", vec![0]),
            ("has order", vec![3, 1]),
        ],
    );

    let q = "samsung tv skype 2017";
    assert_must_have_words_ngrams_ids(
        q,
        &synonyms,
        &toponyms,
        &stopwords,
        &tr_map,
        ParseMode::Index,
        vec![0, 3, 2],
        vec!["samsung", "tv", "skype", "2017"],
        vec![
            ("samsung tv", vec![0, 1]),
            ("2017 samsung", vec![0, 3]),
            ("2017 tv", vec![1, 3]),
            ("2017 skype", vec![2, 3]),
            ("samsung skype tv", vec![2, 0, 1]),
            ("samsung skype", vec![0, 2]),
            ("skype tv", vec![1, 2]),
        ],
    );

    let q = "positionierte stl datei exportieren catia";
    assert_must_have_words_ngrams_ids(
        q,
        &synonyms,
        &toponyms,
        &stopwords,
        &tr_map,
        ParseMode::Index,
        vec![4],
        vec!["positionierte", "stl", "datei", "exportieren", "catia"],
        vec![
            ("positionierte stl", vec![0, 1]),
            ("catia positionierte", vec![0, 4]),
            ("exportieren stl", vec![1, 3]),
            ("datei exportieren", vec![2, 3]),
            ("catia exportieren", vec![3, 4]),
            ("datei stl", vec![1, 2]),
            ("datei positionierte", vec![0, 2]),
            ("catia positionierte stl", vec![4, 0, 1]),
            ("exportieren positionierte", vec![0, 3]),
            ("catia stl", vec![1, 4]),
            ("catia datei", vec![2, 4]),
        ],
    );

    let q = "caddy14 d ersatzteile";
    assert_must_have_words_ngrams_ids(
        q,
        &synonyms,
        &toponyms,
        &stopwords,
        &tr_map,
        ParseMode::Index,
        vec![1, 0],
        vec!["caddy", "14", "ersatzteile"],
        vec![
            ("caddy ersatzteile", vec![0, 2]),
            ("14 ersatzteile", vec![1, 2]),
            ("14 caddy", vec![0, 1]),
            ("caddy", vec![0]),
        ],
    );

    let q = "caddy14 d ersatzteile";
    assert_must_have_words_ngrams_ids(
        q,
        &synonyms,
        &toponyms,
        &stopwords,
        &tr_map,
        ParseMode::Search,
        vec![1],
        vec!["caddy", "14", "ersatzteile"],
        vec![
            ("caddy", vec![0]),
            ("14d caddy", vec![1, 0]),
            ("14d", vec![1]),
            ("14", vec![1]),
            ("14 caddy", vec![0, 1]),
            ("caddy ersatzteile", vec![0, 2]),
            ("14d ersatzteile", vec![1, 2]),
            ("14 ersatzteile", vec![1, 2]),
        ],
    );

    let q = "pokemon best vs rock";
    assert_must_have_words_ngrams_ids(
        q,
        &synonyms,
        &toponyms,
        &stopwords,
        &tr_map,
        ParseMode::Search,
        vec![0, 3],
        vec!["pokemon", "best", "vs", "rock"],
        vec![
            ("best rock", vec![1, 3]),
            ("against rock", vec![2, 3]),
            ("best pokemon", vec![0, 1]),
            ("best vs", vec![1, 2]),
            ("against best", vec![2, 1]),
            ("rock", vec![3]),
            ("pokemon rock vs", vec![0, 3, 2]),
            ("rock vs", vec![2, 3]),
            ("against pokemon", vec![2, 0]),
            ("pokemon rock", vec![0, 3]),
            ("pokemon vs", vec![0, 2]),
            ("pokemon", vec![0]),
        ],
    );

    let q = "friends s01 e01 stream";
    assert_must_have_words_ngrams_ids(
        q,
        &synonyms,
        &toponyms,
        &stopwords,
        &tr_map,
        ParseMode::Search,
        vec![0, 3, 2],
        vec!["friends", "s01", "e01", "stream"],
        vec![
            ("friends streaming", vec![3, 0]),
            ("s01 streaming", vec![3, 1]),
            ("e01 streaming", vec![3, 2]),
            ("s01 stream", vec![1, 3]),
            ("friends", vec![0]),
            ("friends s01", vec![0, 1]),
            ("e01 s01", vec![1, 2]),
            ("friends stream", vec![0, 3]),
            ("e01 friends", vec![0, 2]),
            ("e01 stream", vec![2, 3]),
            ("e01 friends s01", vec![2, 1, 0]),
            ("s01", vec![1]),
        ],
    );

    let q = "calypso k5177";
    assert_must_have_words_ngrams_ids(
        q,
        &synonyms,
        &toponyms,
        &stopwords,
        &tr_map,
        ParseMode::Search,
        vec![1, 0],
        vec!["calypso", "k5177"],
        vec![
            ("calypso k5177", vec![0, 1]),
            ("k5177", vec![1]),
        ],
    );

    let q = "kenzan flowers size";
    assert_must_have_words_ngrams_ids(
        q,
        &synonyms,
        &toponyms,
        &stopwords,
        &tr_map,
        ParseMode::Search,
        vec![1, 0],
        vec!["kenzan", "flowers", "size"],
        vec![
            ("kenzan size", vec![0, 2]),
            ("flowers size", vec![1, 2]),
            ("kenzan", vec![0]),
            ("flowers kenzan", vec![0, 1]),
        ],
    );
    // assert equal outcomes for different parsing modes
    let s = parse(q, &synonyms, &toponyms, &stopwords, &tr_map, ParseMode::Index);
    let i = parse(q, &synonyms, &toponyms, &stopwords, &tr_map, ParseMode::Search);
    assert_eq!(s.ngrams_ids, i.ngrams_ids);
    assert_eq!(s.words, i.words);
    assert_eq!(sorted(&s.must_have), sorted(&i.must_have), "query: {}", q);

    let q = "what size kenzan";
    assert_must_have_words_ngrams_ids(
        q,
        &synonyms,
        &toponyms,
        &stopwords,
        &tr_map,
        ParseMode::Search,
        vec![2],
        vec!["what", "size", "kenzan"],
        vec![
            ("kenzan size what", vec![0, 1, 2]),
            ("kenzan size", vec![2, 1]),
            ("kenzan", vec![2]),
        ],
    );
    // assert equal outcomes for different parsing modes
    let s = parse(q, &None, &None, &stopwords, &tr_map, ParseMode::Index);
    let i = parse(q, &None, &None, &stopwords, &tr_map, ParseMode::Search);
    assert_eq!(s.ngrams_ids, i.ngrams_ids, "query: {}", q);
    assert_eq!(s.words, i.words);
    assert_eq!(sorted(&s.must_have), sorted(&i.must_have), "query: {}", q);

    let q = "ormlite callintransaction and h2";
    assert_must_have_words_ngrams_ids(
        q,
        &synonyms,
        &toponyms,
        &stopwords,
        &tr_map,
        ParseMode::Search,
        vec![0, 3],
        vec!["ormlite", "callintransaction", "and", "h2"],
        vec![
            ("and callintransaction h2", vec![1, 2, 3]),
            ("and callintransaction ormlite", vec![0, 1, 2]),
            ("callintransaction h2", vec![1, 3]),
            ("callintransaction ormlite", vec![0, 1]),
            ("and callintransaction", vec![1, 2]),
            ("h2 ormlite", vec![0, 3]),
            ("ormlite", vec![0]),
            ("callintransaction h2 ormlite", vec![0, 1, 3]),
        ],
    );
    // assert (not) equal outcomes for different parsing modes [ormlite missing on indexing part]
    let s = parse(q, &None, &None, &stopwords, &tr_map, ParseMode::Search);
    let i = parse(q, &None, &None, &stopwords, &tr_map, ParseMode::Index);
    assert_ne!(s.ngrams_ids, i.ngrams_ids, "query: {}", q);
    assert_eq!(s.words, i.words);
    assert_eq!(sorted(&s.must_have), sorted(&i.must_have), "query: {}", q);

    let q = "who was the first to invent bicycle";
    assert_must_have_words_ngrams_ids(
        q,
        &synonyms,
        &toponyms,
        &stopwords,
        &tr_map,
        ParseMode::Index,
        vec![6],
        vec!["who", "was", "the", "first", "to", "invent", "bicycle"],
        vec![
            ("first invent", vec![5, 3]),
            ("bicycle first invent", vec![6, 5, 3]),
            ("bicycle invent to", vec![4, 5, 6]),
            ("first the was who", vec![0, 1, 2, 3]),
            ("invent to the was who", vec![0, 1, 2, 4, 5]),
            ("first invent to", vec![3, 4, 5]),
            ("invent to", vec![4, 5]),
            ("invent", vec![5]),
            ("bicycle first", vec![3, 6]),
            ("bicycle the was who", vec![0, 1, 2, 6]),
            ("bicycle invent", vec![6, 5]),
        ],
    );

    let q = "who was the first to invent bicycle";
    assert_must_have_words_ngrams_ids(
        q,
        &synonyms,
        &toponyms,
        &stopwords,
        &tr_map,
        ParseMode::Search,
        vec![6],
        vec!["who", "was", "the", "first", "to", "invent", "bicycle"],
        vec![
            ("first invent", vec![5, 3]),
            ("bicycle first invent", vec![6, 5, 3]),
            ("bike first invent", vec![6, 5, 3]),
            ("bicycle invent to", vec![4, 5, 6]),
            ("bike invent to", vec![6, 4, 5]),
            ("first the was who", vec![0, 1, 2, 3]),
            ("invent to the was who", vec![0, 1, 2, 4, 5]),
            ("first invent to", vec![3, 4, 5]),
            ("invent to", vec![4, 5]),
            ("invent", vec![5]),
            ("bicycle first", vec![3, 6]),
            ("bike first", vec![6, 3]),
            ("bicycle the was who", vec![0, 1, 2, 6]),
            ("bike the was who", vec![6, 0, 1, 2]),
            ("bicycle invent", vec![6, 5]),
            ("bike invent", vec![6, 5]),
        ],
    );

    let q = "youngest person to walk on the moon";
    assert_must_have_words_ngrams_ids(
        q,
        &synonyms,
        &toponyms,
        &stopwords,
        &tr_map,
        ParseMode::Search,
        vec![6],
        vec!["youngest", "person", "to", "walk", "on", "the", "moon"],
        vec![
            ("moon on the", vec![4, 5, 6]),
            ("moon walk youngest", vec![6, 3, 0]),
            ("moon on the to walk", vec![2, 3, 4, 5, 6]),
            ("person youngest", vec![0, 1]),
            ("to walk", vec![2, 3]),
            ("to walk youngest", vec![0, 2, 3]),
            ("moon on the person", vec![1, 4, 5, 6]),
            ("moon on the youngest", vec![0, 4, 5, 6]),
            ("person to walk", vec![1, 2, 3]),
            ("on walk", vec![3, 4]),
            ("walk youngest", vec![3, 0]),
            ("moon walk", vec![6, 3]),
            ("moon youngest", vec![6, 0]),
        ],
    );

    let q = "youngest person on the moon";
    assert_must_have_words_ngrams_ids(
        q,
        &synonyms,
        &toponyms,
        &stopwords,
        &tr_map,
        ParseMode::Search,
        vec![4],
        vec!["youngest", "person", "on", "the", "moon"],
        vec![
            ("moon person youngest", vec![4, 0, 1]),
            ("moon on the", vec![2, 3, 4]),
            ("moon youngest", vec![4, 0]),
            ("person youngest", vec![0, 1]),
            ("on youngest", vec![0, 2]),
            ("moon on the person", vec![1, 2, 3, 4]),
            ("moon on the youngest", vec![0, 2, 3, 4]),
            ("moon person", vec![4, 1]),
        ],
    );

    let q = "blutdruck 95 zu 56 puls 113";
    assert_must_have_words_ngrams_ids(
        q,
        &synonyms,
        &toponyms,
        &stopwords,
        &tr_map,
        ParseMode::Search,
        vec![5, 4, 0],
        vec!["blutdruck", "95", "zu", "56", "puls", "113"],
        vec![
            ("56 zu 95", vec![1, 2, 3]),
            ("95 blutdruck", vec![0, 1]),
            ("56 zu blutdruck", vec![0, 2, 3]),
            ("113 blutdruck", vec![0, 5]),
            ("95 puls", vec![1, 4]),
            ("blutdruck puls", vec![0, 4]),
            ("56 zu puls", vec![2, 3, 4]),
            ("113 puls", vec![4, 5]),
            ("113", vec![5]),
            ("113 blutdruck puls", vec![0, 5, 4]),
            ("113 95", vec![1, 5]),
            ("113 zu", vec![5, 2]),
            ("113 56 zu", vec![2, 3, 5]),
        ],
    );
}
