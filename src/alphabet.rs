//! The 26-symbol alphabet, text cleaning, and the conversions between
//! strings and character vectors that the rest of the library works on.
use vstd::prelude::*;

verus! {

/// Number of symbols in the alphabet.
pub const ALPHABET_LEN: usize = 26;

/// The placeholder for an unknown symbol in the comparison scores.
pub const UNKNOWN: char = '_';

pub open spec fn is_upper(c: char) -> bool {
    'A' <= c && c <= 'Z'
}

pub open spec fn is_lower(c: char) -> bool {
    'a' <= c && c <= 'z'
}

pub open spec fn is_letter(c: char) -> bool {
    is_upper(c) || is_lower(c)
}

/// Upper-case form of an ASCII letter; any other symbol is unchanged.
pub open spec fn upper(c: char) -> char {
    if is_lower(c) {
        ((c as u32 - 32) as u8) as char
    } else {
        c
    }
}

/// Alphabet position of a symbol ('A' is 0).
pub open spec fn ord(c: char) -> int {
    c as int - 65
}

/// The letter at alphabet position `i`, for `0 <= i < 26`.
pub open spec fn letter(i: int) -> char {
    ((65 + i) as u8) as char
}

/// The alphabet in its natural order.
pub open spec fn alpha() -> Seq<char> {
    Seq::new(26, |i: int| letter(i))
}

pub open spec fn all_upper(s: Seq<char>) -> bool {
    forall|i: int| 0 <= i < s.len() ==> is_upper(#[trigger] s[i])
}

/// The alphabetic symbols of `s`, upper-cased, in their order.
pub open spec fn clean(s: Seq<char>) -> Seq<char>
    decreases s.len(),
{
    if s.len() == 0 {
        Seq::empty()
    } else {
        let r = clean(s.drop_last());
        if is_letter(s.last()) {
            r.push(upper(s.last()))
        } else {
            r
        }
    }
}

pub proof fn lemma_letter_ord(c: char)
    requires
        is_upper(c),
    ensures
        letter(ord(c)) == c,
        0 <= ord(c) < 26,
{
}

pub proof fn lemma_ord_letter(i: int)
    requires
        0 <= i < 26,
    ensures
        ord(letter(i)) == i,
        is_upper(letter(i)),
{
}

pub proof fn lemma_alpha_contains(c: char)
    ensures
        alpha().contains(c) <==> is_upper(c),
{
    if is_upper(c) {
        lemma_letter_ord(c);
        assert(alpha()[ord(c)] == c);
    }
    if alpha().contains(c) {
        let i = choose|i: int| 0 <= i < 26 && alpha()[i] == c;
        lemma_ord_letter(i);
    }
}

pub proof fn lemma_clean(s: Seq<char>)
    ensures
        all_upper(clean(s)),
        clean(s).len() <= s.len(),
        all_upper(s) ==> clean(s) == s,
    decreases s.len(),
{
    if s.len() > 0 {
        lemma_clean(s.drop_last());
        if all_upper(s) {
            assert(all_upper(s.drop_last()));
            assert(s.drop_last().push(s.last()) =~= s);
        }
    }
}

pub fn upper_char(c: char) -> (r: char)
    ensures
        r == upper(c),
{
    if 'a' <= c && c <= 'z' {
        ((c as u32 - 32) as u8) as char
    } else {
        c
    }
}

pub fn is_letter_char(c: char) -> (r: bool)
    ensures
        r == is_letter(c),
{
    ('A' <= c && c <= 'Z') || ('a' <= c && c <= 'z')
}

/// Alphabet position of an upper-case letter.
pub fn ord_of(c: char) -> (r: usize)
    requires
        is_upper(c),
    ensures
        r == ord(c),
        r < 26,
{
    (c as u32 - 65) as usize
}

/// The letter at alphabet position `i`.
pub fn letter_at(i: usize) -> (r: char)
    requires
        i < 26,
    ensures
        r == letter(i as int),
        is_upper(r),
        ord(r) == i,
{
    ((65 + i) as u8) as char
}

/// The alphabetic symbols of `s`, upper-cased; everything else is dropped.
pub fn clean_text(s: &Vec<char>) -> (r: Vec<char>)
    ensures
        r@ == clean(s@),
{
    let mut r: Vec<char> = Vec::new();
    let mut i: usize = 0;
    while i < s.len()
        invariant
            i <= s.len(),
            r@ == clean(s@.subrange(0, i as int)),
        decreases s.len() - i,
    {
        assert(s@.subrange(0, i + 1).drop_last() =~= s@.subrange(0, i as int));
        let c = s[i];
        if is_letter_char(c) {
            r.push(upper_char(c));
        }
        i += 1;
    }
    assert(s@.subrange(0, s.len() as int) =~= s@);
    r
}

/// Relies on `str::chars` collected into a `Vec`: the characters of `s`, in order.
#[verifier::external_body]
pub(crate) fn chars_of(s: &str) -> (r: Vec<char>)
    ensures
        r@ == s@,
{
    s.chars().collect()
}

/// Relies on `String`'s `FromIterator<char>`: the string of the characters of `v`, in order.
#[verifier::external_body]
pub(crate) fn string_of(v: &Vec<char>) -> (r: String)
    ensures
        r@ == v@,
{
    v.iter().collect()
}

/// Whether `v` holds `c`.
pub fn holds(v: &Vec<char>, c: char) -> (r: bool)
    ensures
        r == v@.contains(c),
{
    let mut i: usize = 0;
    while i < v.len()
        invariant
            i <= v.len(),
            forall|j: int| 0 <= j < i ==> v@[j] != c,
        decreases v.len() - i,
    {
        if v[i] == c {
            return true;
        }
        i += 1;
    }
    false
}

} // verus!
