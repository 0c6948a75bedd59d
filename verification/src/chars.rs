use vstd::prelude::*;
use vstd::std_specs::iter::IteratorSpec;
use vstd::string::*;
use vstd::utf8::encode_utf8;

verus! {

/// The texts of a sequence of strings.
pub open spec fn texts(v: Seq<String>) -> Seq<Seq<char>> {
    Seq::new(v.len(), |i: int| v[i]@)
}

/// Length of a text in bytes of its UTF-8 encoding, as `str::len` gives it.
pub open spec fn byte_len(w: Seq<char>) -> usize {
    encode_utf8(w).len() as usize
}

/// An ASCII decimal digit.
pub open spec fn is_ascii_digit(c: char) -> bool {
    '0' <= c && c <= '9'
}

/// Whitespace: the characters with the Unicode property White_Space.
pub open spec fn is_space(c: char) -> bool {
    ('\u{9}' <= c && c <= '\u{d}') || c == ' ' || c == '\u{85}' || c == '\u{a0}' || c
        == '\u{1680}' || ('\u{2000}' <= c && c <= '\u{200a}') || c == '\u{2028}' || c
        == '\u{2029}' || c == '\u{202f}' || c == '\u{205f}' || c == '\u{3000}'
}

/// An ASCII letter.
pub open spec fn is_ascii_letter(c: char) -> bool {
    ('a' <= c && c <= 'z') || ('A' <= c && c <= 'Z')
}

/// Whether `char::is_numeric` holds of a character.
pub uninterp spec fn is_numeric(c: char) -> bool;

/// A number: among the ASCII characters the digits, beyond them what
/// `char::is_numeric` takes for one.
pub open spec fn is_number(c: char) -> bool {
    if c <= '\u{7f}' {
        is_ascii_digit(c)
    } else {
        is_numeric(c)
    }
}

/// What `str::to_lowercase` returns for a text.
pub uninterp spec fn unicode_lowercase(s: Seq<char>) -> Seq<char>;

/// The lower-case form of an ASCII character.
pub open spec fn ascii_lower(c: char) -> char {
    if 'A' <= c && c <= 'Z' {
        ((c as u8 + 32) as u8) as char
    } else {
        c
    }
}

/// The lower-case form of a text: of an ASCII text each character in lower
/// case, of any other text what `str::to_lowercase` returns.
pub open spec fn lowercase(s: Seq<char>) -> Seq<char> {
    if vstd::utf8::is_ascii_chars(s) {
        Seq::new(s.len(), |i: int| ascii_lower(s[i]))
    } else {
        unicode_lowercase(s)
    }
}

/// Whether a character is whitespace.
pub fn char_is_space(c: char) -> (r: bool)
    ensures
        r == is_space(c),
{
    ('\u{9}' <= c && c <= '\u{d}') || c == ' ' || c == '\u{85}' || c == '\u{a0}' || c
        == '\u{1680}' || ('\u{2000}' <= c && c <= '\u{200a}') || c == '\u{2028}' || c
        == '\u{2029}' || c == '\u{202f}' || c == '\u{205f}' || c == '\u{3000}'
}

/// Whether a character is an ASCII letter.
pub fn char_is_ascii_letter(c: char) -> (r: bool)
    ensures
        r == is_ascii_letter(c),
{
    ('a' <= c && c <= 'z') || ('A' <= c && c <= 'Z')
}

/// `char::is_numeric`: membership in the Unicode general categories for
/// numbers. The result is named by `is_numeric`; nothing else is claimed of it.
#[verifier::external_body]
pub(crate) fn char_is_numeric(c: char) -> (r: bool)
    ensures
        r == is_numeric(c),
{
    c.is_numeric()
}

/// Whether a character is a number.
pub fn char_is_number(c: char) -> (r: bool)
    ensures
        r == is_number(c),
{
    if c <= '\u{7f}' {
        '0' <= c && c <= '9'
    } else {
        char_is_numeric(c)
    }
}

/// `str::to_lowercase`: the Unicode lowercase form of a string.
/// The result is named by `unicode_lowercase`; nothing else is claimed of it.
#[verifier::external_body]
pub(crate) fn to_unicode_lower(s: &str) -> (r: String)
    ensures
        r@ == unicode_lowercase(s@),
{
    s.to_lowercase()
}

/// The lower-case form of a string.
pub fn to_lower(s: &str) -> (r: String)
    ensures
        r@ == lowercase(s@),
{
    if s.is_ascii() {
        let cs = chars_of(s);
        let mut out = String::new();
        let mut i: usize = 0;
        while i < cs.len()
            invariant
                i <= cs.len(),
                cs@ == s@,
                vstd::utf8::is_ascii_chars(s@),
                out@ == Seq::new(i as nat, |k: int| ascii_lower(s@[k])),
            decreases cs.len() - i,
        {
            let c = cs[i];
            let ghost before = out@;
            let low = if 'A' <= c && c <= 'Z' {
                ((c as u8) + 32) as char
            } else {
                c
            };
            push_char(&mut out, low);
            assert(out@ =~= Seq::new((i + 1) as nat, |k: int| ascii_lower(s@[k])));
            i += 1;
        }
        out
    } else {
        to_unicode_lower(s)
    }
}

/// `String::push`: appends one character.
#[verifier::external_body]
pub(crate) fn push_char(s: &mut String, c: char)
    ensures
        final(s)@ == old(s)@.push(c),
{
    s.push(c)
}

/// The characters of a string slice, in order.
pub fn chars_of(s: &str) -> (v: Vec<char>)
    ensures
        v@ == s@,
{
    broadcast use vstd::string::group_string_axioms;

    let mut v: Vec<char> = Vec::new();
    let mut it = s.chars();
    loop
        invariant_except_break
            v@ + it.remaining() == s@,
            it.obeys_prophetic_iter_laws(),
            it.decrease() is Some,
        ensures
            v@ == s@,
        decreases it.decrease()->0,
    {
        match it.next() {
            Some(c) => {
                v.push(c);
            },
            None => {
                break ;
            },
        }
    }
    v
}

/// The string made of `v[from..to]`.
pub fn string_of(v: &Vec<char>, from: usize, to: usize) -> (s: String)
    requires
        from <= to <= v.len(),
    ensures
        s@ == v@.subrange(from as int, to as int),
{
    let mut s = String::new();
    let mut i: usize = from;
    while i < to
        invariant
            from <= i <= to <= v.len(),
            s@ == v@.subrange(from as int, i as int),
        decreases to - i,
    {
        push_char(&mut s, v[i]);
        i += 1;
    }
    s
}

/// A copy of a list of strings.
pub fn clone_words(v: &Vec<String>) -> (r: Vec<String>)
    ensures
        r@ == v@,
{
    let mut r: Vec<String> = Vec::new();
    let mut i: usize = 0;
    while i < v.len()
        invariant
            i <= v.len(),
            r@ == v@.take(i as int),
        decreases v.len() - i,
    {
        r.push(v[i].clone());
        i += 1;
    }
    r
}

/// A copy of a list of indices.
pub fn clone_indices(v: &Vec<usize>) -> (r: Vec<usize>)
    ensures
        r@ == v@,
{
    let mut r: Vec<usize> = Vec::new();
    let mut i: usize = 0;
    while i < v.len()
        invariant
            i <= v.len(),
            r@ == v@.take(i as int),
        decreases v.len() - i,
    {
        r.push(v[i]);
        i += 1;
    }
    r
}

/// Every character of the text is a number.
pub open spec fn all_numbers(w: Seq<char>) -> bool {
    forall|p: int| 0 <= p < w.len() ==> is_number(#[trigger] w[p])
}

/// Some character of the text is a number.
pub open spec fn has_number(w: Seq<char>) -> bool {
    exists|p: int| 0 <= p < w.len() && is_number(#[trigger] w[p])
}

/// Whether every character of the word is a number.
pub fn is_all_numbers(w: &str) -> (r: bool)
    ensures
        r == all_numbers(w@),
{
    let cs = chars_of(w);
    let mut p: usize = 0;
    while p < cs.len()
        invariant
            p <= cs.len(),
            cs@ == w@,
            forall|q: int| 0 <= q < p ==> is_number(#[trigger] w@[q]),
        decreases cs.len() - p,
    {
        if !char_is_number(cs[p]) {
            return false;
        }
        p += 1;
    }
    true
}

/// Whether some character of the word is a number.
pub fn contains_number(w: &str) -> (r: bool)
    ensures
        r == has_number(w@),
{
    let cs = chars_of(w);
    let mut p: usize = 0;
    while p < cs.len()
        invariant
            p <= cs.len(),
            cs@ == w@,
            forall|q: int| 0 <= q < p ==> !is_number(#[trigger] w@[q]),
        decreases cs.len() - p,
    {
        if char_is_number(cs[p]) {
            return true;
        }
        p += 1;
    }
    false
}

/// What a sequence holds after one more item was added.
pub proof fn lemma_push_contains<T>(s: Seq<T>, a: T, v: T)
    ensures
        s.push(a).contains(v) <==> (s.contains(v) || v == a),
{
    if s.push(a).contains(v) {
        let i = choose|i: int| 0 <= i < s.push(a).len() && s.push(a)[i] == v;
        assert(i < s.len() ==> s[i] == v);
    }
    if s.contains(v) {
        let i = choose|i: int| 0 <= i < s.len() && s[i] == v;
        assert(s.push(a)[i] == v);
    }
    if v == a {
        assert(s.push(a)[s.len() as int] == v);
    }
}

} // verus!
