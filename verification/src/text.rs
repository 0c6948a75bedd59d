use crate::chars::{
    ascii_lower, char_is_ascii_letter, char_is_space, chars_of, is_ascii_digit, is_ascii_letter,
    is_space, lowercase, push_char, string_of, to_lower,
};
use vstd::prelude::*;

verus! {

/// The punctuation that is taken out of a query.
pub open spec fn is_dropped(c: char) -> bool {
    c == '!' || c == ',' || c == '?' || c == ':' || c == '\''
}

/// The punctuation that becomes a space.
pub open spec fn is_breaking(c: char) -> bool {
    c == '#' || c == '@' || c == '(' || c == ')' || c == ';' || c == '.' || c == '/' || c == '+'
        || c == '-' || c == '_'
}

/// The text without `! , ? : '` and with a space for each of
/// `# @ ( ) ; . / + - _`.
pub open spec fn fold_punct(s: Seq<char>) -> Seq<char>
    decreases s.len(),
{
    if s.len() == 0 {
        s
    } else if is_dropped(s.last()) {
        fold_punct(s.drop_last())
    } else if is_breaking(s.last()) {
        fold_punct(s.drop_last()).push(' ')
    } else {
        fold_punct(s.drop_last()).push(s.last())
    }
}

/// What stands for a character once umlauts are written out.
pub open spec fn plain(c: char) -> Seq<char> {
    if c == 'ß' {
        seq!['s', 's']
    } else if c == 'ä' {
        seq!['a', 'e']
    } else if c == 'ö' {
        seq!['o', 'e']
    } else if c == 'ü' {
        seq!['u', 'e']
    } else {
        seq![c]
    }
}

/// The text with `ß ä ö ü` written as `ss ae oe ue`.
pub open spec fn translit(s: Seq<char>) -> Seq<char>
    decreases s.len(),
{
    if s.len() == 0 {
        s
    } else {
        translit(s.drop_last()) + plain(s.last())
    }
}

/// The text without the whitespace at its end.
pub open spec fn trim_end(s: Seq<char>) -> Seq<char>
    decreases s.len(),
{
    if s.len() > 0 && is_space(s.last()) {
        trim_end(s.drop_last())
    } else {
        s
    }
}

/// The text without the whitespace at its start.
pub open spec fn trim_start(s: Seq<char>) -> Seq<char>
    decreases s.len(),
{
    if s.len() > 0 && is_space(s[0]) {
        trim_start(s.drop_first())
    } else {
        s
    }
}

/// The text without the whitespace around it.
pub open spec fn trimmed(s: Seq<char>) -> Seq<char> {
    trim_start(trim_end(s))
}

/// A run of digits that is set apart starts at `d`: two digits stand there,
/// at the start of the text, behind whitespace or behind two letters.
pub open spec fn starts_apart(s: Seq<char>, d: int) -> bool {
    &&& 0 <= d
    &&& d + 1 < s.len()
    &&& is_ascii_digit(s[d])
    &&& is_ascii_digit(s[d + 1])
    &&& (d == 0 || is_space(s[d - 1]) || (d >= 2 && is_ascii_letter(s[d - 1]) && is_ascii_letter(
        s[d - 2],
    )))
}

/// The digit at `i` lies in a run that is set apart.
pub open spec fn lies_apart(s: Seq<char>, i: int) -> bool
    decreases i,
{
    if i < 0 || i >= s.len() || !is_ascii_digit(s[i]) {
        false
    } else if starts_apart(s, i) {
        true
    } else if i == 0 {
        false
    } else {
        lies_apart(s, i - 1)
    }
}

/// A run of digits that is set apart ends at `i`.
pub open spec fn ends_apart(s: Seq<char>, i: int) -> bool {
    lies_apart(s, i) && (i + 1 == s.len() || !is_ascii_digit(s[i + 1]))
}

/// The first `n` characters of the text with its digit runs set apart.
pub open spec fn apart_upto(s: Seq<char>, n: int) -> Seq<char>
    decreases n,
{
    if n <= 0 {
        Seq::empty()
    } else {
        let before = apart_upto(s, n - 1);
        let opened = if starts_apart(s, n - 1) {
            before.push(' ')
        } else {
            before
        };
        if ends_apart(s, n - 1) {
            opened.push(s[n - 1]).push(' ')
        } else {
            opened.push(s[n - 1])
        }
    }
}

/// Each run of two or more digits that stands at the start, behind whitespace
/// or behind two or more ASCII letters gets a space before and after it.
pub open spec fn digits_apart(s: Seq<char>) -> Seq<char> {
    apart_upto(s, s.len() as int)
}

/// The normal form of a query: punctuation folded, lower case, umlauts
/// written out, digit runs set apart, no whitespace around it.
pub open spec fn normalized(q: Seq<char>) -> Seq<char> {
    trimmed(digits_apart(translit(lowercase(fold_punct(q)))))
}

/// Takes `! , ? : '` out of the text and puts a space for each of
/// `# @ ( ) ; . / + - _`.
pub fn u8_find_and_replace(input: &str) -> (r: String)
    ensures
        r@ == fold_punct(input@),
{
    let cs = chars_of(input);
    let mut out = String::new();
    let mut i: usize = 0;
    while i < cs.len()
        invariant
            i <= cs.len(),
            cs@ == input@,
            out@ == fold_punct(input@.take(i as int)),
        decreases cs.len() - i,
    {
        let c = cs[i];
        assert(input@.take(i + 1).drop_last() =~= input@.take(i as int));
        if c == '#' || c == '@' || c == '(' || c == ')' || c == ';' || c == '.' || c == '/'
            || c == '+' || c == '-' || c == '_' {
            push_char(&mut out, ' ');
        } else if !(c == '!' || c == ',' || c == '?' || c == ':' || c == '\'') {
            push_char(&mut out, c);
        }
        i += 1;
    }
    assert(input@.take(cs.len() as int) =~= input@);
    out
}

/// Writes `ß ä ö ü` as `ss ae oe ue`.
pub fn u8_normalize_umlauts(input: &str) -> (r: String)
    ensures
        r@ == translit(input@),
{
    let cs = chars_of(input);
    let mut out = String::new();
    let mut i: usize = 0;
    while i < cs.len()
        invariant
            i <= cs.len(),
            cs@ == input@,
            out@ == translit(input@.take(i as int)),
        decreases cs.len() - i,
    {
        let c = cs[i];
        assert(input@.take(i + 1).drop_last() =~= input@.take(i as int));
        if c == 'ß' {
            push_char(&mut out, 's');
            push_char(&mut out, 's');
        } else if c == 'ä' {
            push_char(&mut out, 'a');
            push_char(&mut out, 'e');
        } else if c == 'ö' {
            push_char(&mut out, 'o');
            push_char(&mut out, 'e');
        } else if c == 'ü' {
            push_char(&mut out, 'u');
            push_char(&mut out, 'e');
        } else {
            push_char(&mut out, c);
        }
        i += 1;
    }
    assert(input@.take(cs.len() as int) =~= input@);
    out
}

/// Sets each run of two or more digits apart by a space before and after it,
/// where the run stands at the start, behind whitespace or behind two or more
/// ASCII letters.
pub fn separate_digits(input: &str) -> (r: String)
    ensures
        r@ == digits_apart(input@),
{
    let cs = chars_of(input);
    let mut out = String::new();
    let mut in_run = false;
    let mut i: usize = 0;
    while i < cs.len()
        invariant
            i <= cs.len(),
            cs@ == input@,
            out@ == apart_upto(input@, i as int),
            in_run == lies_apart(input@, i - 1),
        decreases cs.len() - i,
    {
        let c = cs[i];
        let digit = '0' <= c && c <= '9';
        let starts = digit && i + 1 < cs.len() && '0' <= cs[i + 1] && cs[i + 1] <= '9' && (i == 0
            || char_is_space(cs[i - 1]) || (i >= 2 && char_is_ascii_letter(cs[i - 1])
            && char_is_ascii_letter(cs[i - 2])));
        assert(starts == starts_apart(input@, i as int));
        in_run = digit && (starts || in_run);
        assert(in_run == lies_apart(input@, i as int));
        if starts {
            push_char(&mut out, ' ');
        }
        push_char(&mut out, c);
        if in_run && (i + 1 == cs.len() || !('0' <= cs[i + 1] && cs[i + 1] <= '9')) {
            push_char(&mut out, ' ');
        }
        i += 1;
    }
    out
}

/// The text without the whitespace around it.
pub fn trim(input: &str) -> (r: String)
    ensures
        r@ == trimmed(input@),
{
    let cs = chars_of(input);
    let mut e: usize = cs.len();
    assert(input@.take(e as int) =~= input@);
    while e > 0 && char_is_space(cs[e - 1])
        invariant
            e <= cs.len(),
            cs@ == input@,
            trim_end(input@) == trim_end(input@.take(e as int)),
        decreases e,
    {
        assert(input@.take(e as int).drop_last() =~= input@.take(e - 1));
        e -= 1;
    }
    let mut b: usize = 0;
    while b < e && char_is_space(cs[b])
        invariant
            b <= e <= cs.len(),
            cs@ == input@,
            trimmed(input@) == trim_start(input@.subrange(b as int, e as int)),
        decreases e - b,
    {
        assert(input@.subrange(b as int, e as int).drop_first() =~= input@.subrange(
            b + 1,
            e as int,
        ));
        b += 1;
    }
    string_of(&cs, b, e)
}

/// The normal form of a query.
pub fn normalize(query: &str) -> (r: String)
    ensures
        r@ == normalized(query@),
{
    let folded = u8_find_and_replace(query);
    let lower = to_lower(folded.as_str());
    let plain = u8_normalize_umlauts(lower.as_str());
    let apart = separate_digits(plain.as_str());
    trim(apart.as_str())
}

/// No character of the text is punctuation that folding takes out or turns
/// into a space.
pub open spec fn is_folded(s: Seq<char>) -> bool {
    forall|i: int| 0 <= i < s.len() ==> !is_dropped(#[trigger] s[i]) && !is_breaking(s[i])
}

/// No character of the text is one that is written out.
pub open spec fn is_plain(s: Seq<char>) -> bool {
    forall|i: int| 0 <= i < s.len() ==> plain(#[trigger] s[i]) == seq![s[i]]
}

/// Folding leaves no punctuation that it acts on.
pub proof fn lemma_fold_is_folded(s: Seq<char>)
    ensures
        is_folded(fold_punct(s)),
    decreases s.len(),
{
    if s.len() > 0 {
        lemma_fold_is_folded(s.drop_last());
    }
}

/// Folding leaves a text without such punctuation as it is.
pub proof fn lemma_fold_of_folded(s: Seq<char>)
    requires
        is_folded(s),
    ensures
        fold_punct(s) == s,
    decreases s.len(),
{
    if s.len() > 0 {
        lemma_fold_of_folded(s.drop_last());
    }
}

/// Folding twice is folding once.
pub proof fn lemma_fold_idempotent(s: Seq<char>)
    ensures
        fold_punct(fold_punct(s)) == fold_punct(s),
{
    lemma_fold_is_folded(s);
    lemma_fold_of_folded(fold_punct(s));
}

/// Writing umlauts out leaves none.
pub proof fn lemma_translit_is_plain(s: Seq<char>)
    ensures
        is_plain(translit(s)),
    decreases s.len(),
{
    if s.len() > 0 {
        lemma_translit_is_plain(s.drop_last());
    }
}

/// Writing umlauts out leaves a text without them as it is.
pub proof fn lemma_translit_of_plain(s: Seq<char>)
    requires
        is_plain(s),
    ensures
        translit(s) == s,
    decreases s.len(),
{
    if s.len() > 0 {
        lemma_translit_of_plain(s.drop_last());
    }
}

/// Writing umlauts out twice is writing them out once.
pub proof fn lemma_translit_idempotent(s: Seq<char>)
    ensures
        translit(translit(s)) == translit(s),
{
    lemma_translit_is_plain(s);
    lemma_translit_of_plain(translit(s));
}

/// What is left of a text without the whitespace at its end does not end in
/// whitespace.
pub proof fn lemma_trim_end_ends_clean(s: Seq<char>)
    ensures
        trim_end(s).len() == 0 || !is_space(trim_end(s).last()),
    decreases s.len(),
{
    if s.len() > 0 && is_space(s.last()) {
        lemma_trim_end_ends_clean(s.drop_last());
    }
}

/// What is left of a text without the whitespace at its start does not start
/// with whitespace, and ends as the text ends.
pub proof fn lemma_trim_start_keeps_end(s: Seq<char>)
    ensures
        trim_start(s).len() == 0 || (!is_space(trim_start(s)[0]) && s.len() > 0 && trim_start(
            s,
        ).last() == s.last()),
    decreases s.len(),
{
    if s.len() > 0 && is_space(s[0]) {
        lemma_trim_start_keeps_end(s.drop_first());
    }
}

/// Trimming twice is trimming once.
pub proof fn lemma_trimmed_idempotent(s: Seq<char>)
    ensures
        trimmed(trimmed(s)) == trimmed(s),
{
    lemma_trim_end_ends_clean(s);
    lemma_trim_start_keeps_end(trim_end(s));
}

/// Where no run of digits is set apart, the text stays as it is.
pub proof fn lemma_apart_upto_without_runs(s: Seq<char>, n: int)
    requires
        forall|d: int| !starts_apart(s, d),
        0 <= n <= s.len(),
    ensures
        apart_upto(s, n) == s.take(n),
        forall|i: int| i < n ==> !lies_apart(s, i),
    decreases n,
{
    if n > 0 {
        lemma_apart_upto_without_runs(s, n - 1);
        assert(!starts_apart(s, n - 1));
        assert(!lies_apart(s, n - 2));
        assert(s.take(n) =~= s.take(n - 1).push(s[n - 1]));
        assert forall|i: int| i < n implies !lies_apart(s, i) by {
            if i == n - 1 {
                assert(!starts_apart(s, i));
            }
        }
    } else {
        assert(s.take(0) =~= Seq::<char>::empty());
    }
}

/// Setting digit runs apart leaves a text without a run that is set apart as
/// it is.
pub proof fn lemma_digits_apart_without_runs(s: Seq<char>)
    requires
        forall|d: int| !starts_apart(s, d),
    ensures
        digits_apart(s) == s,
{
    lemma_apart_upto_without_runs(s, s.len() as int);
    assert(s.take(s.len() as int) =~= s);
}

/// A character that no step of the normal form but digit separation and
/// trimming changes: ASCII, no capital, none of the punctuation that is
/// folded.
pub open spec fn is_settled_char(c: char) -> bool {
    '\0' <= c && c <= '\u{7f}' && !is_dropped(c) && !is_breaking(c) && !('A' <= c && c <= 'Z')
}

/// A text of settled characters.
pub open spec fn is_settled(s: Seq<char>) -> bool {
    forall|i: int| 0 <= i < s.len() ==> is_settled_char(#[trigger] s[i])
}

/// Folding an ASCII text gives an ASCII text without the punctuation that
/// is folded.
pub proof fn lemma_fold_of_ascii(s: Seq<char>)
    requires
        vstd::utf8::is_ascii_chars(s),
    ensures
        vstd::utf8::is_ascii_chars(fold_punct(s)),
        is_folded(fold_punct(s)),
    decreases s.len(),
{
    if s.len() > 0 {
        assert(vstd::utf8::is_ascii_chars(s.drop_last())) by {
            assert forall|i: int| 0 <= i < s.drop_last().len() implies '\0' <= #[trigger] s.drop_last()[i]
                <= '\u{7f}' by {
                assert(s.drop_last()[i] == s[i]);
            }
        }
        lemma_fold_of_ascii(s.drop_last());
        assert('\0' <= s[s.len() - 1] <= '\u{7f}');
    }
}

/// The lower-case form of a folded ASCII text is settled.
pub proof fn lemma_lowercase_of_folded_ascii(s: Seq<char>)
    requires
        vstd::utf8::is_ascii_chars(s),
        is_folded(s),
    ensures
        is_settled(lowercase(s)),
{
    let low = lowercase(s);
    assert forall|i: int| 0 <= i < low.len() implies is_settled_char(#[trigger] low[i]) by {
        let c = s[i];
        assert('\0' <= c <= '\u{7f}');
        assert(!is_dropped(c) && !is_breaking(c));
        lemma_ascii_lower_is_small(c);
    }
}

/// The lower-case form of an ASCII capital is the small letter, which is no
/// capital and no punctuation.
pub proof fn lemma_ascii_lower_is_small(c: char)
    requires
        '\0' <= c,
        c <= '\u{7f}',
    ensures
        '\0' <= ascii_lower(c),
        ascii_lower(c) <= '\u{7f}',
        !('A' <= ascii_lower(c) && ascii_lower(c) <= 'Z'),
        !('A' <= c && c <= 'Z') ==> ascii_lower(c) == c,
        'A' <= c && c <= 'Z' ==> 'a' <= ascii_lower(c) && ascii_lower(c) <= 'z',
{
}

/// A settled text stays as it is when it is folded, put in lower case and its
/// umlauts are written out.
pub proof fn lemma_settled_stays(s: Seq<char>)
    requires
        is_settled(s),
    ensures
        fold_punct(s) == s,
        lowercase(s) == s,
        translit(s) == s,
{
    lemma_fold_of_folded(s);
    assert forall|i: int| 0 <= i < s.len() implies '\0' <= #[trigger] s[i] <= '\u{7f}' by {
        assert(is_settled_char(s[i]));
    }
    assert(vstd::utf8::is_ascii_chars(s));
    assert(lowercase(s) =~= s);
    assert(is_plain(s));
    lemma_translit_of_plain(s);
}

/// Setting digit runs apart keeps a settled text settled.
pub proof fn lemma_apart_upto_settled(s: Seq<char>, n: int)
    requires
        is_settled(s),
        0 <= n <= s.len(),
    ensures
        is_settled(apart_upto(s, n)),
    decreases n,
{
    if n > 0 {
        lemma_apart_upto_settled(s, n - 1);
        assert(is_settled_char(s[n - 1]));
    }
}

/// Trimming the end gives the first characters of the text.
pub proof fn lemma_trim_end_is_prefix(s: Seq<char>)
    ensures
        trim_end(s).len() <= s.len(),
        trim_end(s) == s.take(trim_end(s).len() as int),
    decreases s.len(),
{
    if s.len() > 0 && is_space(s.last()) {
        lemma_trim_end_is_prefix(s.drop_last());
        assert(s.drop_last().take(trim_end(s).len() as int) =~= s.take(trim_end(s).len() as int));
    } else {
        assert(s.take(s.len() as int) =~= s);
    }
}

/// Trimming the start gives the last characters of the text.
pub proof fn lemma_trim_start_is_suffix(s: Seq<char>)
    ensures
        trim_start(s).len() <= s.len(),
        trim_start(s) == s.skip(s.len() - trim_start(s).len()),
    decreases s.len(),
{
    if s.len() > 0 && is_space(s[0]) {
        lemma_trim_start_is_suffix(s.drop_first());
        let k = s.len() - trim_start(s).len();
        assert(s.drop_first().skip(k - 1) =~= s.skip(k));
    } else {
        assert(s.skip(0) =~= s);
    }
}

/// Trimming keeps a settled text settled.
pub proof fn lemma_trimmed_settled(s: Seq<char>)
    requires
        is_settled(s),
    ensures
        is_settled(trimmed(s)),
{
    lemma_trim_end_is_prefix(s);
    let e = trim_end(s);
    lemma_trim_start_is_suffix(e);
    let t = trimmed(s);
    assert forall|i: int| 0 <= i < t.len() implies is_settled_char(#[trigger] t[i]) by {
        let k = e.len() - t.len();
        assert(t[i] == e[i + k]);
        assert(e[i + k] == s[i + k]);
        assert(is_settled_char(s[i + k]));
    }
}

/// The normal form of an ASCII text is settled.
pub proof fn lemma_ascii_normal_form_is_settled(q: Seq<char>)
    requires
        vstd::utf8::is_ascii_chars(q),
    ensures
        is_settled(normalized(q)),
{
    lemma_fold_of_ascii(q);
    let low = lowercase(fold_punct(q));
    lemma_lowercase_of_folded_ascii(fold_punct(q));
    lemma_settled_stays(low);
    lemma_apart_upto_settled(low, low.len() as int);
    lemma_trimmed_settled(digits_apart(low));
}

/// The normal form of a settled normal form is that form with its digit runs
/// set apart once more and trimmed: nothing else changes it.
pub proof fn lemma_normal_form_of_settled(t: Seq<char>)
    requires
        is_settled(t),
    ensures
        normalized(t) == trimmed(digits_apart(t)),
{
    lemma_settled_stays(t);
}

/// The normal form of the normal form of an ASCII text is the normal form
/// with its digit runs set apart once more and trimmed. So the normal form of
/// an ASCII text is its own normal form exactly where that leaves it as it is.
pub proof fn lemma_normalize_twice(q: Seq<char>)
    requires
        vstd::utf8::is_ascii_chars(q),
    ensures
        normalized(normalized(q)) == trimmed(digits_apart(normalized(q))),
{
    lemma_ascii_normal_form_is_settled(q);
    lemma_normal_form_of_settled(normalized(q));
}

/// The normal form of an ASCII text without a run of digits that is set
/// apart is its own normal form.
pub proof fn lemma_normalize_idempotent_without_digit_runs(q: Seq<char>)
    requires
        vstd::utf8::is_ascii_chars(q),
        forall|d: int| !starts_apart(normalized(q), d),
    ensures
        normalized(normalized(q)) == normalized(q),
{
    lemma_normalize_twice(q);
    lemma_digits_apart_without_runs(normalized(q));
    lemma_trimmed_idempotent(digits_apart(translit(lowercase(fold_punct(q)))));
}

} // verus!
