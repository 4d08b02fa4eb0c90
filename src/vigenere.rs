//! The classic case-preserving Vigenère cipher, and decoding through a given table.
use vstd::prelude::*;
use crate::alphabet::{
    all_upper, chars_of, clean, clean_text, is_letter, is_lower, lemma_clean, ord, string_of,
    is_letter_char, ord_of,
};
use crate::analysis::MAX_TEXT;
use crate::search::{search_spec, Measure};
use crate::table::{decode_with, rows_view, rows_wf, table_decode};
use crate::toolkit::{search_with, ROUNDS};

pub use crate::decipher::vig1table;
pub use crate::toolkit::vig2table;

verus! {

/// Decodes the letters of `encrypted` (upper-cased; other symbols dropped)
/// through `table`: the `p`-th letter is found in keyed row `p mod (rows - 1) + 1`
/// and replaced by the symbol in the same column of row 0.
pub fn vdecode(encrypted: &str, table: &[Vec<char>]) -> (r: String)
    requires
        rows_wf(rows_view(table@)),
    ensures
        r@ == table_decode(rows_view(table@), clean(encrypted@)),
{
    let text = clean_text(&chars_of(encrypted));
    proof {
        lemma_clean(encrypted@);
    }
    string_of(&decode_with(table, &text))
}

/// `c` shifted forward by `d` places within its own case.
pub open spec fn shift_case(c: char, d: int) -> char {
    if is_lower(c) {
        ((97 + (c as int - 97 + d) % 26) as u8) as char
    } else {
        ((65 + (c as int - 65 + d) % 26) as u8) as char
    }
}

/// The classic Vigenère cipher: each letter of `s` is shifted by the key
/// letter at (the number of letters before it) modulo the key length, keeping
/// its case; other symbols stay as they are.
pub open spec fn vigenere_spec(s: Seq<char>, k: Seq<char>) -> Seq<char> {
    Seq::new(
        s.len(),
        |i: int|
            if is_letter(s[i]) {
                shift_case(s[i], ord(k[(clean(s.subrange(0, i)).len() as int) % (k.len() as int)]))
            } else {
                s[i]
            },
    )
}

/// Encrypts `plain_text` with the classic Vigenère cipher under the letters
/// of `key` (in either case); a key without letters leaves the text unchanged.
pub fn vigenere(plain_text: &str, key: &str) -> (r: String)
    ensures
        clean(key@).len() == 0 ==> r@ == plain_text@,
        clean(key@).len() > 0 ==> r@ == vigenere_spec(plain_text@, clean(key@)),
{
    let k = clean_text(&chars_of(key));
    let s = chars_of(plain_text);
    proof {
        lemma_clean(key@);
    }
    if k.len() == 0 {
        return string_of(&s);
    }
    let mut r: Vec<char> = Vec::new();
    let mut idx: usize = 0;
    let mut i: usize = 0;
    while i < s.len()
        invariant
            i <= s.len(),
            k.len() > 0,
            all_upper(k@),
            idx == clean(s@.subrange(0, i as int)).len(),
            idx <= i,
            r@ =~= vigenere_spec(s@, k@).subrange(0, i as int),
        decreases s.len() - i,
    {
        assert(s@.subrange(0, i + 1).drop_last() =~= s@.subrange(0, i as int));
        proof {
            lemma_clean(s@.subrange(0, i as int));
        }
        let c = s[i];
        if is_letter_char(c) {
            let d = ord_of(k[idx % k.len()]) as u32;
            let out = if 'a' <= c && c <= 'z' {
                ((97 + (c as u32 - 97 + d) % 26) as u8) as char
            } else {
                ((65 + (c as u32 - 65 + d) % 26) as u8) as char
            };
            r.push(out);
            idx += 1;
        } else {
            r.push(c);
        }
        i += 1;
    }
    string_of(&r)
}

/// Searches for a second keyword of `key_length` letters by the exact match
/// percentage of the decoding against `comparison`; returns the keyword.
pub fn kryptos(keyword1: &str, encrypted: &str, comparison: &str, key_length: usize) -> (r: String)
    requires
        encrypted@.len() <= MAX_TEXT || comparison@.len() <= MAX_TEXT,
    ensures
        r@ == search_spec(
            Measure::Match,
            clean(keyword1@),
            clean(encrypted@),
            comparison@,
            key_length as int,
            ROUNDS as int,
        ).keyword,
{
    search_with(Measure::Match, &chars_of(keyword1), &chars_of(encrypted), &chars_of(comparison), key_length).keyword2
}

} // verus!
