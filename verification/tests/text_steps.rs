use qpick::chars::{
    char_is_ascii_letter, char_is_number, char_is_space, chars_of, contains_number,
    is_all_numbers, string_of, to_lower,
};
use qpick::text::{normalize, separate_digits, trim, u8_find_and_replace, u8_normalize_umlauts};

#[test]
fn punctuation_is_dropped_or_becomes_a_space() {
    assert_eq!(u8_find_and_replace("a!b,c?d:e'f"), "abcdef");
    assert_eq!(u8_find_and_replace("a#b@c(d)e;f.g/h+i-j_k"), "a b c d e f g h i j k");
    assert_eq!(u8_find_and_replace("plain text"), "plain text");
    assert_eq!(u8_find_and_replace("Keeps CASE & <others>"), "Keeps CASE & <others>");
    assert_eq!(u8_find_and_replace(""), "");
}

#[test]
fn umlauts_are_written_out() {
    assert_eq!(u8_normalize_umlauts("ßäöü"), "ssaeoeue");
    assert_eq!(u8_normalize_umlauts("straße"), "strasse");
    assert_eq!(u8_normalize_umlauts("ÄÖÜ stay"), "ÄÖÜ stay");
    assert_eq!(u8_normalize_umlauts("no umlauts"), "no umlauts");
}

#[test]
fn digit_runs_are_set_apart() {
    assert_eq!(separate_digits("ab12cd"), "ab 12 cd");
    assert_eq!(separate_digits("12"), " 12 ");
    assert_eq!(separate_digits("a12"), "a12");
    assert_eq!(separate_digits("ab1"), "ab1");
    assert_eq!(separate_digits("x 34y"), "x  34 y");
}

#[test]
fn trim_takes_unicode_whitespace_off_both_ends() {
    assert_eq!(trim("  a b  "), "a b");
    assert_eq!(trim("\t\n x \u{a0}\u{2003}"), "x");
    assert_eq!(trim("   "), "");
    assert_eq!(trim(""), "");
    assert_eq!(trim("x"), "x");
}

#[test]
fn normalize_lowers_case() {
    assert_eq!(normalize("ABC Def"), "abc def");
    assert_eq!(normalize("ÄÖÜ"), "aeoeue");
    assert_eq!(normalize("  Hello, World!  "), "hello world");
}

#[test]
fn normalize_twice_is_normalize_once_without_digit_runs() {
    for q in ["München Gödel", "'Here's@#An ##example!", "peer2peer", "a b  c"] {
        let once = normalize(q);
        assert_eq!(normalize(&once), once);
    }
}

#[test]
fn normalize_twice_widens_the_gap_before_a_digit_run() {
    assert_eq!(normalize("a 12"), "a  12");
    assert_eq!(normalize("a  12"), "a   12");
    assert_eq!(normalize("123 movies"), "123  movies");
}

#[test]
fn characters_and_strings_convert_both_ways() {
    let cs = chars_of("aß日");
    assert_eq!(cs, vec!['a', 'ß', '日']);
    assert_eq!(string_of(&cs, 0, 3), "aß日");
    assert_eq!(string_of(&cs, 1, 2), "ß");
    assert_eq!(string_of(&cs, 2, 2), "");
}

#[test]
fn numbers_in_words() {
    assert!(contains_number("s01"));
    assert!(contains_number("x²"));
    assert!(!contains_number("abc"));
    assert!(!contains_number(""));
    assert!(is_all_numbers("2017"));
    assert!(is_all_numbers("٣٤"));
    assert!(is_all_numbers(""));
    assert!(!is_all_numbers("s01"));
}

#[test]
fn whitespace_is_what_the_standard_library_takes_for_it() {
    for code in 0..=0x10ffffu32 {
        if let Some(c) = char::from_u32(code) {
            assert_eq!(char_is_space(c), c.is_whitespace(), "U+{:04X}", code);
        }
    }
}

#[test]
fn numbers_are_what_the_standard_library_takes_for_them() {
    for code in 0..=0x10ffffu32 {
        if let Some(c) = char::from_u32(code) {
            assert_eq!(char_is_number(c), c.is_numeric(), "U+{:04X}", code);
        }
    }
}

#[test]
fn ascii_letters_are_the_alphabetic_ascii_characters() {
    for code in 0..128u8 {
        let c = code as char;
        assert_eq!(char_is_ascii_letter(c), c.is_alphabetic(), "U+{:04X}", code);
    }
    assert!(!char_is_ascii_letter('é'));
}

#[test]
fn lower_case_is_that_of_the_standard_library() {
    for code in 0..128u8 {
        let s = (code as char).to_string();
        assert_eq!(to_lower(&s), s.to_lowercase());
    }
    for s in ["", "Hello World 42!", "ÄÖÜ Straße", "ΟΔΟΣ", "İstanbul", "MiXeD_case-Text"] {
        assert_eq!(to_lower(s), s.to_lowercase());
    }
    assert_eq!(to_lower("ABC xyz [\\]^_`{|}~@"), "abc xyz [\\]^_`{|}~@");
}

// A small generator of texts over the characters that matter to the rule.
fn texts(count: usize) -> Vec<String> {
    let alphabet: Vec<char> = "ab12 \t3xZ9é_0\u{a0}7".chars().collect();
    let mut state: u64 = 0x2545f4914f6cdd1d;
    let mut out = Vec::new();
    for _ in 0..count {
        let mut s = String::new();
        state = state.wrapping_mul(6364136223846793005).wrapping_add(1442695040888963407);
        let len = (state >> 33) % 10;
        for _ in 0..len {
            state = state.wrapping_mul(6364136223846793005).wrapping_add(1442695040888963407);
            s.push(alphabet[((state >> 33) % alphabet.len() as u64) as usize]);
        }
        out.push(s);
    }
    out
}

#[test]
fn digit_runs_are_set_apart_as_by_the_pattern() {
    let re = regex::Regex::new(r"(?P<b>[[:alpha:]]{2,}|\s|^)(?P<d>\d{2,})").unwrap();
    for s in texts(20000) {
        assert_eq!(separate_digits(&s), re.replace_all(&s, "$b $d $e"), "text: {:?}", s);
    }
    for s in ["peer22peer", "123movies123free", "a 12", "22", "ab1", "x1y22", "AB12cd", "12 34"] {
        assert_eq!(separate_digits(s), re.replace_all(s, "$b $d $e"), "text: {:?}", s);
    }
}

#[test]
fn digit_runs_by_example() {
    assert_eq!(separate_digits("peer22peer"), "peer 22 peer");
    assert_eq!(separate_digits("22"), " 22 ");
    assert_eq!(separate_digits("a22"), "a22");
    assert_eq!(separate_digits("é\u{a0}22x"), "é\u{a0} 22 x");
    assert_eq!(separate_digits("12 345"), " 12   345 ");
    assert_eq!(separate_digits("ab1234cd5"), "ab 1234 cd5");
    assert_eq!(separate_digits(""), "");
}

#[test]
fn normalize_twice_sets_the_digit_runs_apart_once_more() {
    for q in ["peer22peer", "a 12", "22", "x 34y", "Ab12Cd", "no digits", "1 2 3", "ab1"] {
        let once = normalize(q);
        assert_eq!(normalize(&once), trim(&separate_digits(&once)), "query: {}", q);
    }
    // a run at both ends of the text stays as it is
    assert_eq!(normalize("22"), "22");
    assert_eq!(normalize(&normalize("22")), "22");
    assert_eq!(normalize(&normalize("peer22peer")), "peer  22  peer");
}
