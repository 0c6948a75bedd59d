use crate::chars::{
    byte_len, char_is_ascii_letter, chars_of, is_ascii_digit, is_ascii_letter, push_char, texts,
};
use crate::lookup::{
    dict_get, opt_dict, overlay_get, overlay_insert, overlay_map, overlay_new, set_contains,
    word_set,
};
use crate::matcher::word_set_of;
use crate::model::{ParseMode, WORDS_PER_QUERY};
use crate::text::{normalize, normalized, trim, trimmed};
use fnv::FnvHashMap;
use vstd::prelude::*;
use vstd::string::*;

verus! {

/// The fields of a text between its separators; a text without a separator
/// is one field.
pub open spec fn fields(s: Seq<char>, sep: char) -> Seq<Seq<char>>
    decreases s.len(),
{
    if s.len() == 0 {
        seq![Seq::empty()]
    } else {
        let p = fields(s.drop_last(), sep);
        if s.last() == sep {
            p.push(Seq::empty())
        } else {
            p.update(p.len() - 1, p.last().push(s.last()))
        }
    }
}

/// The pieces of a text between its single spaces.
pub open spec fn pieces(s: Seq<char>) -> Seq<Seq<char>> {
    fields(s, ' ')
}

/// What sifting the pieces of a query leaves: the pieces kept as tokens, and
/// the single letters that were dropped, each with the index of the token
/// kept before it.
pub struct Sift {
    pub kept: Seq<Seq<char>>,
    pub letters: Seq<(usize, Seq<char>)>,
}

/// The first `n` pieces sifted. A piece of two bytes or more, not counting
/// whitespace around it, is kept; one of a single byte is kept if it is the
/// first piece or a digit, is recorded as a letter behind the token before it
/// if it is a letter, and is dropped otherwise; an empty one is dropped.
pub open spec fn sifted(ps: Seq<Seq<char>>, n: int) -> Sift
    decreases n,
{
    if n <= 0 {
        Sift { kept: Seq::empty(), letters: Seq::empty() }
    } else {
        let s = sifted(ps, n - 1);
        let piece = ps[n - 1];
        let t = trimmed(piece);
        if byte_len(t) > 1 {
            Sift { kept: s.kept.push(piece), letters: s.letters }
        } else if t.len() > 0 {
            if n - 1 == 0 || is_ascii_digit(t[0]) {
                Sift { kept: s.kept.push(piece), letters: s.letters }
            } else if is_ascii_letter(t[0]) && s.kept.len() > 0 {
                Sift { kept: s.kept, letters: s.letters.push(((s.kept.len() - 1) as usize, t)) }
            } else {
                s
            }
        } else {
            s
        }
    }
}

/// The letters with their texts.
pub open spec fn letter_texts(v: Seq<(usize, String)>) -> Seq<(usize, Seq<char>)> {
    Seq::new(v.len(), |i: int| (v[i].0, v[i].1@))
}

/// The word with those of the first `n` letters behind it that were recorded
/// for the index `i`.
pub open spec fn suffixed(
    word: Seq<char>,
    i: int,
    letters: Seq<(usize, Seq<char>)>,
    n: int,
) -> Seq<char>
    decreases n,
{
    if n <= 0 {
        word
    } else {
        let w = suffixed(word, i, letters, n - 1);
        if letters[n - 1].0 == i {
            w + letters[n - 1].1
        } else {
            w
        }
    }
}

/// Each token with the letters recorded for it.
pub open spec fn suffixed_all(tokens: Seq<Seq<char>>, letters: Seq<(usize, Seq<char>)>) -> Seq<
    Seq<char>,
> {
    Seq::new(tokens.len(), |i: int| suffixed(tokens[i], i, letters, letters.len() as int))
}

/// The first `n` words written as one.
pub open spec fn joined_upto(ws: Seq<Seq<char>>, n: int) -> Seq<char>
    decreases n,
{
    if n <= 0 {
        Seq::empty()
    } else {
        joined_upto(ws, n - 1) + ws[n - 1]
    }
}

/// No word is longer than four bytes.
pub open spec fn all_short(ws: Seq<Seq<char>>) -> bool {
    forall|i: int| 0 <= i < ws.len() ==> byte_len(#[trigger] ws[i]) <= 4
}

/// The tokens with their letters; if more than one is left and none is longer
/// than four bytes, all written as one token.
pub open spec fn sparse_joined(tokens: Seq<Seq<char>>, letters: Seq<(usize, Seq<char>)>) -> Seq<
    Seq<char>,
> {
    let sw = suffixed_all(tokens, letters);
    if sw.len() > 1 && all_short(sw) {
        seq![joined_upto(sw, sw.len() as int)]
    } else {
        sw
    }
}

/// The overlay after each of the first `n` tokens that has letters behind it
/// got the token with its letters as alternate.
pub open spec fn with_suffix_synonyms(
    ov: Map<usize, Seq<char>>,
    tokens: Seq<Seq<char>>,
    letters: Seq<(usize, Seq<char>)>,
    n: int,
) -> Map<usize, Seq<char>>
    decreases n,
{
    if n <= 0 {
        ov
    } else {
        let m = with_suffix_synonyms(ov, tokens, letters, n - 1);
        let syn = suffixed(tokens[n - 1], n - 1, letters, letters.len() as int);
        if syn != tokens[n - 1] {
            m.insert((n - 1) as usize, syn)
        } else {
            m
        }
    }
}

/// The overlay after each of the first `n` tokens that has no alternate yet
/// got the one that the dictionary gives for it, unless that is a token of
/// the query.
pub open spec fn with_word_synonyms(
    ov: Map<usize, Seq<char>>,
    tokens: Seq<Seq<char>>,
    dict: Option<Map<Seq<char>, Seq<char>>>,
    n: int,
) -> Map<usize, Seq<char>>
    decreases n,
{
    if n <= 0 {
        ov
    } else {
        let m = with_word_synonyms(ov, tokens, dict, n - 1);
        let i = (n - 1) as usize;
        match dict {
            Some(d) => if !m.contains_key(i) && d.contains_key(tokens[n - 1]) && !tokens.contains(
                d[tokens[n - 1]],
            ) {
                m.insert(i, d[tokens[n - 1]])
            } else {
                m
            },
            None => m,
        }
    }
}

/// The tokens that are kept of the sifted pieces: the first fifteen.
pub open spec fn first_tokens(kept: Seq<Seq<char>>) -> Seq<Seq<char>> {
    if kept.len() > WORDS_PER_QUERY {
        kept.take(WORDS_PER_QUERY as int)
    } else {
        kept
    }
}

/// The tokens are sparse: there are more than two or a letter was dropped,
/// and none is longer than four bytes.
pub open spec fn is_sparse(tokens: Seq<Seq<char>>, letters: Seq<(usize, Seq<char>)>) -> bool {
    (tokens.len() > 2 || letters.len() > 0) && all_short(tokens)
}

/// The tokens of a text in normal form.
pub open spec fn tokens_of(text: Seq<char>) -> Seq<Seq<char>> {
    let s = sifted(pieces(text), pieces(text).len() as int);
    let toks = first_tokens(s.kept);
    if toks.len() > 0 && is_sparse(toks, s.letters) {
        sparse_joined(toks, s.letters)
    } else {
        toks
    }
}

/// The alternates of the tokens of a text in normal form: none when
/// indexing, and none where the tokens were sparse.
pub open spec fn overlay_of(
    text: Seq<char>,
    dict: Option<Map<Seq<char>, Seq<char>>>,
    mode: ParseMode,
) -> Map<usize, Seq<char>> {
    let s = sifted(pieces(text), pieces(text).len() as int);
    let toks = first_tokens(s.kept);
    if toks.len() > 0 && !is_sparse(toks, s.letters) && mode == ParseMode::Search {
        with_word_synonyms(
            with_suffix_synonyms(Map::empty(), toks, s.letters, toks.len() as int),
            toks,
            dict,
            toks.len() as int,
        )
    } else {
        Map::empty()
    }
}

/// The fields of a text between its separators.
pub fn split_on(s: &str, sep: char) -> (r: Vec<String>)
    ensures
        texts(r@) == fields(s@, sep),
        r.len() >= 1,
{
    let cs = chars_of(s);
    let mut done: Vec<String> = Vec::new();
    let mut cur = String::new();
    let mut i: usize = 0;
    while i < cs.len()
        invariant
            i <= cs.len(),
            cs@ == s@,
            texts(done@).push(cur@) == fields(s@.take(i as int), sep),
        decreases cs.len() - i,
    {
        let c = cs[i];
        assert(s@.take(i + 1).drop_last() =~= s@.take(i as int));
        if c == sep {
            done.push(cur);
            cur = String::new();
        } else {
            push_char(&mut cur, c);
        }
        i += 1;
    }
    assert(s@.take(cs.len() as int) =~= s@);
    done.push(cur);
    done
}

/// The pieces of a text between its single spaces.
pub fn split_spaces(s: &str) -> (r: Vec<String>)
    ensures
        texts(r@) == pieces(s@),
        r.len() >= 1,
{
    split_on(s, ' ')
}

fn sift(ps: &Vec<String>) -> (r: (Vec<String>, Vec<(usize, String)>))
    ensures
        texts(r.0@) == sifted(texts(ps@), ps.len() as int).kept,
        letter_texts(r.1@) == sifted(texts(ps@), ps.len() as int).letters,
{
    let mut kept: Vec<String> = Vec::new();
    let mut letters: Vec<(usize, String)> = Vec::new();
    let mut n: usize = 0;
    while n < ps.len()
        invariant
            n <= ps.len(),
            texts(kept@) == sifted(texts(ps@), n as int).kept,
            letter_texts(letters@) == sifted(texts(ps@), n as int).letters,
        decreases ps.len() - n,
    {
        let piece = &ps[n];
        let t = trim(piece.as_str());
        if t.as_str().len() > 1 {
            kept.push(piece.clone());
        } else {
            let tc = chars_of(t.as_str());
            if tc.len() > 0 {
                let c = tc[0];
                if n == 0 || (c >= '0' && c <= '9') {
                    kept.push(piece.clone());
                } else if char_is_ascii_letter(c) && kept.len() > 0 {
                    letters.push((kept.len() - 1, t));
                }
            }
        }
        n += 1;
    }
    (kept, letters)
}

/// Whether no word is longer than four bytes.
pub fn are_all_short(words: &Vec<String>) -> (r: bool)
    ensures
        r == all_short(texts(words@)),
{
    let mut i: usize = 0;
    while i < words.len()
        invariant
            i <= words.len(),
            forall|q: int| 0 <= q < i ==> byte_len(#[trigger] texts(words@)[q]) <= 4,
        decreases words.len() - i,
    {
        assert(words@[i as int]@ == texts(words@)[i as int]);
        if words[i].as_str().len() > 4 {
            return false;
        }
        i += 1;
    }
    true
}

fn suffixed_word(word: &String, i: usize, suffix_letters: &Vec<(usize, String)>) -> (r: String)
    ensures
        r@ == suffixed(
            word@,
            i as int,
            letter_texts(suffix_letters@),
            suffix_letters.len() as int,
        ),
{
    let ghost letters = letter_texts(suffix_letters@);
    let mut r = word.clone();
    let mut n: usize = 0;
    while n < suffix_letters.len()
        invariant
            n <= suffix_letters.len(),
            letters == letter_texts(suffix_letters@),
            r@ == suffixed(word@, i as int, letters, n as int),
        decreases suffix_letters.len() - n,
    {
        if suffix_letters[n].0 == i {
            r.append(suffix_letters[n].1.as_str());
        }
        n += 1;
    }
    r
}

/// Puts the recorded letters behind their tokens; if more than one token is
/// left and none is longer than four bytes, writes all as one token.
pub fn suffix_words(words: &Vec<String>, suffix_letters: &Vec<(usize, String)>) -> (r: Vec<String>)
    ensures
        texts(r@) == sparse_joined(texts(words@), letter_texts(suffix_letters@)),
        r.len() <= words.len() || r.len() == 1,
{
    let ghost tokens = texts(words@);
    let ghost letters = letter_texts(suffix_letters@);
    let mut suffixed_words: Vec<String> = Vec::new();
    let mut i: usize = 0;
    while i < words.len()
        invariant
            i <= words.len(),
            tokens == texts(words@),
            letters == letter_texts(suffix_letters@),
            suffixed_words.len() == i,
            forall|q: int|
                0 <= q < i ==> (#[trigger] suffixed_words@[q])@ == suffixed(
                    tokens[q],
                    q,
                    letters,
                    letters.len() as int,
                ),
        decreases words.len() - i,
    {
        let sw = suffixed_word(&words[i], i, suffix_letters);
        suffixed_words.push(sw);
        i += 1;
    }
    assert(texts(suffixed_words@) =~= suffixed_all(tokens, letters));
    if suffixed_words.len() > 1 && are_all_short(&suffixed_words) {
        let mut one = String::new();
        let mut n: usize = 0;
        while n < suffixed_words.len()
            invariant
                n <= suffixed_words.len(),
                one@ == joined_upto(texts(suffixed_words@), n as int),
            decreases suffixed_words.len() - n,
        {
            one.append(suffixed_words[n].as_str());
            n += 1;
        }
        let r = vec![one];
        r
    } else {
        suffixed_words
    }
}

/// Gives each token that has letters behind it the token with its letters as
/// alternate.
pub fn suffix_synonyms(
    words: &Vec<String>,
    suffix_letters: &Vec<(usize, String)>,
    synonyms: &mut FnvHashMap<usize, String>,
)
    ensures
        overlay_map(*final(synonyms)) == with_suffix_synonyms(
            overlay_map(*old(synonyms)),
            texts(words@),
            letter_texts(suffix_letters@),
            words.len() as int,
        ),
{
    let ghost start = overlay_map(*synonyms);
    let ghost tokens = texts(words@);
    let ghost letters = letter_texts(suffix_letters@);
    let mut i: usize = 0;
    while i < words.len()
        invariant
            i <= words.len(),
            tokens == texts(words@),
            letters == letter_texts(suffix_letters@),
            overlay_map(*synonyms) == with_suffix_synonyms(start, tokens, letters, i as int),
        decreases words.len() - i,
    {
        let syn = suffixed_word(&words[i], i, suffix_letters);
        if syn != words[i] {
            overlay_insert(synonyms, i, syn);
        }
        i += 1;
    }
}

/// Gives each token without an alternate the one that the dictionary has for
/// it, unless that is a token of the query.
pub fn word_synonyms(
    words: &Vec<String>,
    synonyms: &mut FnvHashMap<usize, String>,
    synonyms_dict: &Option<FnvHashMap<String, String>>,
)
    ensures
        overlay_map(*final(synonyms)) == with_word_synonyms(
            overlay_map(*old(synonyms)),
            texts(words@),
            opt_dict(*synonyms_dict),
            words.len() as int,
        ),
{
    let ghost start = overlay_map(*synonyms);
    let ghost tokens = texts(words@);
    let ghost dict = opt_dict(*synonyms_dict);
    let words_set = word_set_of(words);
    assert(forall|w: Seq<char>| word_set(words_set).contains(w) <==> tokens.contains(w));
    let mut i: usize = 0;
    while i < words.len()
        invariant
            i <= words.len(),
            tokens == texts(words@),
            dict == opt_dict(*synonyms_dict),
            forall|w: Seq<char>| word_set(words_set).contains(w) <==> tokens.contains(w),
            overlay_map(*synonyms) == with_word_synonyms(start, tokens, dict, i as int),
        decreases words.len() - i,
    {
        match synonyms_dict {
            Some(d) => {
                if overlay_get(synonyms, i).is_none() {
                    match dict_get(d, words[i].as_str()) {
                        Some(syn) => {
                            if !set_contains(&words_set, syn.as_str()) {
                                overlay_insert(synonyms, i, syn);
                            }
                        },
                        None => {},
                    }
                }
            },
            None => {},
        }
        i += 1;
    }
}

/// The tokens of a query and, when searching, their alternates.
pub fn get_norm_query_vec(
    query: &str,
    synonyms_dict: &Option<FnvHashMap<String, String>>,
    mode: ParseMode,
) -> (r: (Vec<String>, FnvHashMap<usize, String>))
    ensures
        texts(r.0@) == tokens_of(normalized(query@)),
        overlay_map(r.1) == overlay_of(normalized(query@), opt_dict(*synonyms_dict), mode),
        r.0.len() <= WORDS_PER_QUERY,
{
    let text = normalize(query);
    let ps = split_spaces(text.as_str());
    let (mut words, suffix_letters) = sift(&ps);
    let ghost kept = texts(words@);
    if words.len() > WORDS_PER_QUERY {
        words.truncate(WORDS_PER_QUERY);
        assert(texts(words@) =~= kept.take(WORDS_PER_QUERY as int));
    }
    let mut synonyms = overlay_new();
    assert(overlay_map(synonyms) =~= Map::empty());
    if words.len() == 0 {
        return (words, synonyms);
    }
    if (words.len() > 2 || suffix_letters.len() > 0) && are_all_short(&words) {
        let joined = suffix_words(&words, &suffix_letters);
        return (joined, synonyms);
    }
    if mode == ParseMode::Search {
        suffix_synonyms(&words, &suffix_letters, &mut synonyms);
        word_synonyms(&words, &mut synonyms, synonyms_dict);
    }
    (words, synonyms)
}

/// The first `n` fields written one after the other with the separator
/// between each two.
pub open spec fn rejoined(fs: Seq<Seq<char>>, sep: char, n: int) -> Seq<char>
    decreases n,
{
    if n <= 0 {
        Seq::empty()
    } else if n == 1 {
        fs[0]
    } else {
        rejoined(fs, sep, n - 1).push(sep) + fs[n - 1]
    }
}

/// Lists that agree in their first `n` fields are rejoined alike.
pub proof fn lemma_rejoined_of_same_fields(a: Seq<Seq<char>>, b: Seq<Seq<char>>, sep: char, n: int)
    requires
        n <= a.len(),
        n <= b.len(),
        forall|i: int| 0 <= i < n ==> a[i] == b[i],
    ensures
        rejoined(a, sep, n) == rejoined(b, sep, n),
    decreases n,
{
    if n > 1 {
        lemma_rejoined_of_same_fields(a, b, sep, n - 1);
    }
}

/// A text has at least one field, no field holds the separator, and the
/// fields with the separator between them are the text.
pub proof fn lemma_fields_rejoin(s: Seq<char>, sep: char)
    ensures
        fields(s, sep).len() >= 1,
        forall|i: int, j: int|
            0 <= i < fields(s, sep).len() && 0 <= j < fields(s, sep)[i].len() ==> fields(
                s,
                sep,
            )[i][j] != sep,
        rejoined(fields(s, sep), sep, fields(s, sep).len() as int) == s,
    decreases s.len(),
{
    if s.len() > 0 {
        let rest = s.drop_last();
        let p = fields(rest, sep);
        let n = p.len() as int;
        lemma_fields_rejoin(rest, sep);
        if s.last() == sep {
            lemma_rejoined_of_same_fields(p, p.push(Seq::empty()), sep, n);
            assert(rejoined(p.push(Seq::empty()), sep, n + 1) =~= rest.push(sep));
        } else {
            let q = p.update(n - 1, p.last().push(s.last()));
            lemma_rejoined_of_same_fields(p, q, sep, n - 1);
            assert(rejoined(q, sep, n) =~= rejoined(p, sep, n).push(s.last()));
        }
        assert(rest.push(s.last()) =~= s);
    }
}

} // verus!
