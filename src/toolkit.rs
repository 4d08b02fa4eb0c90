//! Encryption and decryption with one or two keywords, the Atbash mirror, and
//! the coordinate-ascent searches for a second keyword.
use vstd::prelude::*;
use crate::alphabet::{
    all_upper, alpha, chars_of, clean, clean_text, is_lower, is_upper, lemma_clean,
    lemma_ord_letter, letter, letter_at, ord, ord_of, string_of,
};
use crate::analysis::MAX_TEXT;
use crate::score::Score;
use crate::search::{consistent, search, search_spec, Measure, SearchState};
use itertools::Itertools;
use crate::table::{
    build_table, decode_with, encode_with, lemma_table_of_perm, lemma_table_round_trip,
    table_decode, table_encode, table_of, rows_view,
};

pub use crate::table::generate_vigenere_table;

verus! {

/// The key actually used: the letters of `k`, upper-cased, or the whole
/// alphabet when `k` has none.
pub open spec fn key_stream(k: Seq<char>) -> Seq<char> {
    if clean(k).len() == 0 {
        alpha()
    } else {
        clean(k)
    }
}

/// Additive encoding: the `p`-th symbol is shifted forward by the key symbol
/// at `p` modulo the key length.
pub open spec fn shift_encode(k: Seq<char>, s: Seq<char>) -> Seq<char> {
    Seq::new(s.len(), |p: int| letter((ord(s[p]) + ord(k[p % (k.len() as int)])) % 26))
}

/// Additive decoding: the inverse shift.
pub open spec fn shift_decode(k: Seq<char>, s: Seq<char>) -> Seq<char> {
    Seq::new(s.len(), |p: int| letter((ord(s[p]) - ord(k[p % (k.len() as int)]) + 26) % 26))
}

pub open spec fn key_view(k: Option<&str>) -> Option<Seq<char>> {
    match k {
        Some(x) => Some(x@),
        None => None,
    }
}

/// What encryption produces: through the table of `key1` and `key2` when a
/// second keyword is given, else by additive shifts with `key1`. Only the
/// letters of `text` are encoded, upper-cased; other symbols are dropped.
pub open spec fn encrypt_spec(text: Seq<char>, key1: Seq<char>, key2: Option<Seq<char>>) -> Seq<
    char,
> {
    match key2 {
        Some(k2) => table_encode(table_of(clean(key1), key_stream(k2)), clean(text)),
        None => shift_encode(key_stream(key1), clean(text)),
    }
}

/// What decryption produces, under the same conventions as [`encrypt_spec`].
pub open spec fn decrypt_spec(text: Seq<char>, key1: Seq<char>, key2: Option<Seq<char>>) -> Seq<
    char,
> {
    match key2 {
        Some(k2) => table_decode(table_of(clean(key1), key_stream(k2)), clean(text)),
        None => shift_decode(key_stream(key1), clean(text)),
    }
}

/// The Atbash mirror of one symbol: A and Z trade places, B and Y, and so on,
/// in each case; other symbols are unchanged.
pub open spec fn mirror(c: char) -> char {
    if is_lower(c) {
        ((122 - (c as int - 97)) as u8) as char
    } else if is_upper(c) {
        ((90 - (c as int - 65)) as u8) as char
    } else {
        c
    }
}

pub proof fn lemma_key_stream(k: Seq<char>)
    ensures
        key_stream(k).len() > 0,
        all_upper(key_stream(k)),
{
    lemma_clean(k);
    if clean(k).len() == 0 {
        assert forall|i: int| 0 <= i < 26 implies is_upper(#[trigger] alpha()[i]) by {
            lemma_ord_letter(i);
        }
    }
}

proof fn lemma_shift_round_trip(k: Seq<char>, s: Seq<char>)
    requires
        k.len() > 0,
        all_upper(k),
        all_upper(s),
    ensures
        shift_decode(k, shift_encode(k, s)) == s,
        all_upper(shift_encode(k, s)),
{
    let e = shift_encode(k, s);
    assert forall|p: int| 0 <= p < s.len() implies shift_decode(k, e)[p] == s[p] && is_upper(
        e[p],
    ) by {
        let a = ord(s[p]);
        let b = ord(k[p % (k.len() as int)]);
        lemma_ord_letter((a + b) % 26);
        lemma_ord_letter(a);
        assert(((a + b) % 26 - b + 26) % 26 == a);
    }
    assert(shift_decode(k, e) =~= s);
}

/// Decryption undoes encryption: for any keys, decrypting the encryption of
/// a text gives back its letters, upper-cased.
pub proof fn lemma_round_trip(text: Seq<char>, key1: Seq<char>, key2: Option<Seq<char>>)
    ensures
        decrypt_spec(encrypt_spec(text, key1, key2), key1, key2) == clean(text),
{
    lemma_clean(text);
    lemma_clean(key1);
    match key2 {
        Some(k2) => {
            lemma_key_stream(k2);
            lemma_table_of_perm(clean(key1), key_stream(k2));
            let t = table_of(clean(key1), key_stream(k2));
            lemma_table_round_trip(t, clean(text));
            lemma_clean(table_encode(t, clean(text)));
        },
        None => {
            lemma_key_stream(key1);
            lemma_shift_round_trip(key_stream(key1), clean(text));
            lemma_clean(shift_encode(key_stream(key1), clean(text)));
        },
    }
}

/// `key` when it is not empty, else `default`.
pub fn generate_key(key: &str, default: &str) -> (r: String)
    ensures
        r@ == (if key@.len() == 0 {
            default@
        } else {
            key@
        }),
{
    if key.is_empty() {
        default.to_owned()
    } else {
        key.to_owned()
    }
}

/// The alphabet in natural order.
pub fn alphabet_vec() -> (r: Vec<char>)
    ensures
        r@ == alpha(),
{
    let mut r: Vec<char> = Vec::new();
    let mut i: usize = 0;
    while i < 26
        invariant
            i <= 26,
            r@ =~= alpha().subrange(0, i as int),
        decreases 26 - i,
    {
        r.push(letter_at(i));
        i += 1;
    }
    r
}

/// The key stream of `k`.
pub fn stream_of(k: &Vec<char>) -> (r: Vec<char>)
    ensures
        r@ == key_stream(k@),
{
    let c = clean_text(k);
    if c.len() == 0 {
        alphabet_vec()
    } else {
        c
    }
}

/// Additive encoding (or decoding, when `forward` is false) of the
/// upper-case text `s` with the key `k`.
pub fn shift_with(k: &Vec<char>, s: &Vec<char>, forward: bool) -> (r: Vec<char>)
    requires
        k.len() > 0,
        all_upper(k@),
        all_upper(s@),
    ensures
        forward ==> r@ == shift_encode(k@, s@),
        !forward ==> r@ == shift_decode(k@, s@),
{
    let mut r: Vec<char> = Vec::new();
    let mut p: usize = 0;
    while p < s.len()
        invariant
            k.len() > 0,
            all_upper(k@),
            all_upper(s@),
            p <= s.len(),
            forward ==> r@ =~= shift_encode(k@, s@).subrange(0, p as int),
            !forward ==> r@ =~= shift_decode(k@, s@).subrange(0, p as int),
        decreases s.len() - p,
    {
        let a = ord_of(s[p]);
        let b = ord_of(k[p % k.len()]);
        let c = if forward {
            letter_at((a + b) % 26)
        } else {
            letter_at((a + 26 - b) % 26)
        };
        r.push(c);
        p += 1;
    }
    r
}

/// Encrypts `plaintext`: through the table of `key1` and `key2` when a second
/// keyword is given, else by additive shifts with `key1`. A key with no letters
/// stands for the whole alphabet.
pub fn vigenere_encrypt(plaintext: &str, key1: &str, key2: Option<&str>) -> (r: String)
    ensures
        r@ == encrypt_spec(plaintext@, key1@, key_view(key2)),
{
    let text = clean_text(&chars_of(plaintext));
    let k1 = chars_of(key1);
    proof {
        lemma_clean(plaintext@);
        lemma_key_stream(key1@);
    }
    match key2 {
        Some(key2) => {
            let k2 = stream_of(&chars_of(key2));
            let c1 = clean_text(&k1);
            proof {
                lemma_clean(key1@);
                lemma_key_stream(key2@);
                lemma_table_of_perm(c1@, k2@);
            }
            let t = build_table(&c1, &k2);
            string_of(&encode_with(&t, &text))
        },
        None => {
            let k = stream_of(&k1);
            string_of(&shift_with(&k, &text, true))
        },
    }
}

/// Decrypts `ciphertext` under the same conventions as [`vigenere_encrypt`].
pub fn vigenere_decrypt(ciphertext: &str, key1: &str, key2: Option<&str>) -> (r: String)
    ensures
        r@ == decrypt_spec(ciphertext@, key1@, key_view(key2)),
{
    let text = clean_text(&chars_of(ciphertext));
    let k1 = chars_of(key1);
    proof {
        lemma_clean(ciphertext@);
        lemma_key_stream(key1@);
    }
    match key2 {
        Some(key2) => {
            let k2 = stream_of(&chars_of(key2));
            let c1 = clean_text(&k1);
            proof {
                lemma_clean(key1@);
                lemma_key_stream(key2@);
                lemma_table_of_perm(c1@, k2@);
            }
            let t = build_table(&c1, &k2);
            string_of(&decode_with(&t, &text))
        },
        None => {
            let k = stream_of(&k1);
            string_of(&shift_with(&k, &text, false))
        },
    }
}

/// Same table as [`generate_vigenere_table`].
pub fn vig2table(keyword1: &str, keyword2: &str) -> (t: Vec<Vec<char>>)
    ensures
        rows_view(t@) == crate::table::table_rows(keyword1@, keyword2@),
        t.len() == clean(keyword2@).len() + 1,
{
    generate_vigenere_table(keyword1, keyword2)
}

/// Mirrors every letter of `s` (Atbash); other symbols are kept.
pub fn atbash_vec(s: &Vec<char>) -> (r: Vec<char>)
    ensures
        r@ == s@.map_values(|c: char| mirror(c)),
{
    let mut r: Vec<char> = Vec::new();
    let mut i: usize = 0;
    while i < s.len()
        invariant
            i <= s.len(),
            r@ =~= s@.map_values(|c: char| mirror(c)).subrange(0, i as int),
        decreases s.len() - i,
    {
        let c = s[i];
        let m = if 'a' <= c && c <= 'z' {
            ((122 - (c as u32 - 97)) as u8) as char
        } else if 'A' <= c && c <= 'Z' {
            ((90 - (c as u32 - 65)) as u8) as char
        } else {
            c
        };
        r.push(m);
        i += 1;
    }
    r
}

/// The Atbash mirror of `text`.
pub fn atbash_transform(text: &str) -> (r: String)
    ensures
        r@ == text@.map_values(|c: char| mirror(c)),
{
    string_of(&atbash_vec(&chars_of(text)))
}

/// The Atbash mirror is its own inverse.
pub proof fn lemma_mirror_involution(s: Seq<char>)
    ensures
        s.map_values(|c: char| mirror(c)).map_values(|c: char| mirror(c)) == s,
{
    assert(s.map_values(|c: char| mirror(c)).map_values(|c: char| mirror(c)) =~= s);
}

/// The outcome of a search for a second keyword.
pub struct SearchResult {
    /// The keyword found.
    pub keyword2: String,
    /// The best score seen.
    pub score: Score,
    /// The decoding that reached that score (empty when no trial scored above 0).
    pub decrypted: String,
}

/// The rounds of coordinate ascent in a search for a second keyword.
pub const ROUNDS: usize = 2;

/// Searches for a second keyword of `key_length` letters under which
/// `encrypted_text` decrypts (with `keyword1`) closest to `plaintext` by the
/// aster score; returns the keyword and its score.
pub fn remora_vigenere(keyword1: &str, encrypted_text: &str, plaintext: &str, key_length: usize) -> (r: (
    String,
    Score,
))
    requires
        encrypted_text@.len() <= MAX_TEXT || plaintext@.len() <= MAX_TEXT,
    ensures
        ({
            let st = search_spec(
                Measure::Aster,
                clean(keyword1@),
                clean(encrypted_text@),
                plaintext@,
                key_length as int,
                ROUNDS as int,
            );
            r.0@ == st.keyword && r.1 == st.best
        }),
{
    let r = bullshark_vigenere(keyword1, encrypted_text, plaintext, key_length);
    (r.keyword2, r.score)
}

/// As [`remora_vigenere`], returning also the best decoding.
pub fn bullshark_vigenere(keyword1: &str, encrypted_text: &str, plaintext: &str, key_length: usize) -> (r: SearchResult)
    requires
        encrypted_text@.len() <= MAX_TEXT || plaintext@.len() <= MAX_TEXT,
    ensures
        ({
            let st = search_spec(
                Measure::Aster,
                clean(keyword1@),
                clean(encrypted_text@),
                plaintext@,
                key_length as int,
                ROUNDS as int,
            );
            r.keyword2@ == st.keyword && r.score == st.best && r.decrypted@ == st.decoded
        }),
        consistent(
            Measure::Aster,
            clean(keyword1@),
            clean(encrypted_text@),
            plaintext@,
            SearchState { keyword: r.keyword2@, best: r.score, decoded: r.decrypted@ },
        ),
{
    search_with(Measure::Aster, &chars_of(keyword1), &chars_of(encrypted_text), &chars_of(plaintext), key_length)
}

/// The search on character sequences, with the given measure.
pub fn search_with(m: Measure, keyword1: &Vec<char>, encrypted: &Vec<char>, plain: &Vec<char>, key_length: usize) -> (r: SearchResult)
    requires
        encrypted@.len() <= MAX_TEXT || plain@.len() <= MAX_TEXT,
    ensures
        ({
            let st = search_spec(
                m,
                clean(keyword1@),
                clean(encrypted@),
                plain@,
                key_length as int,
                ROUNDS as int,
            );
            r.keyword2@ == st.keyword && r.score == st.best && r.decrypted@ == st.decoded
        }),
        r.keyword2@.len() == key_length,
        all_upper(r.keyword2@),
        consistent(
            m,
            clean(keyword1@),
            clean(encrypted@),
            plain@,
            SearchState { keyword: r.keyword2@, best: r.score, decoded: r.decrypted@ },
        ),
{
    let k1 = clean_text(keyword1);
    let text = clean_text(encrypted);
    proof {
        lemma_clean(keyword1@);
        lemma_clean(encrypted@);
    }
    // the lengths of both vectors fit in a usize, as the scores require
    let _ = (text.len(), plain.len());
    let (kw, score, dec) = search(m, &k1, &text, plain, key_length, ROUNDS);
    SearchResult { keyword2: string_of(&kw), score, decrypted: string_of(&dec) }
}

/// The same search for a Beaufort cipher: the ciphertext and `keyword1` are
/// mirrored (Atbash) first, and the keyword found is mirrored back.
pub fn bullshark_beaufort(keyword1: &str, encrypted_text: &str, plaintext: &str, key_length: usize) -> (r: SearchResult)
    requires
        encrypted_text@.len() <= MAX_TEXT || plaintext@.len() <= MAX_TEXT,
    ensures
        ({
            let st = search_spec(
                Measure::Aster,
                clean(keyword1@.map_values(|c: char| mirror(c))),
                clean(encrypted_text@.map_values(|c: char| mirror(c))),
                plaintext@,
                key_length as int,
                ROUNDS as int,
            );
            r.keyword2@ == st.keyword.map_values(|c: char| mirror(c)) && r.score == st.best
                && r.decrypted@ == st.decoded
        }),
{
    let text = atbash_vec(&chars_of(encrypted_text));
    let k1 = atbash_vec(&chars_of(keyword1));
    let found = search_with(Measure::Aster, &k1, &text, &chars_of(plaintext), key_length);
    let kw = atbash_vec(&chars_of(found.keyword2.as_str()));
    SearchResult { keyword2: string_of(&kw), score: found.score, decrypted: found.decrypted }
}

/// The orderings of `s` that itertools' `permutations` lists, in its order.
pub uninterp spec fn permutations_of(s: Seq<char>) -> Seq<Seq<char>>;

/// Relies on itertools' `Itertools::permutations` taken over the full length:
/// every ordering of the positions of `v`, the given order first.
#[verifier::external_body]
fn permutations(v: &Vec<char>) -> (r: Vec<Vec<char>>)
    ensures
        rows_view(r@) == permutations_of(v@),
        r.len() >= 1,
        r@[0]@ == v@,
        forall|i: int| 0 <= i < r.len() ==> (#[trigger] r@[i])@.to_multiset() == v@.to_multiset(),
{
    v.iter().copied().permutations(v.len()).collect()
}

/// The outer search over the first keyword: its current value, the best
/// score seen, and the keyword pair that reached it.
pub struct OuterState {
    pub keyword1: Seq<char>,
    pub best: Score,
    pub best_keyword1: Seq<char>,
    pub best_keyword2: Seq<char>,
}

/// The inner search for a second keyword of `len2` letters under `k1`.
pub open spec fn inner(text: Seq<char>, plain: Seq<char>, k1: Seq<char>, len2: int) -> crate::search::SearchState {
    search_spec(Measure::Aster, k1, text, plain, len2, ROUNDS as int)
}

/// The letters tried for the first keyword, Z first.
pub open spec fn reverse_letter(j: int) -> char {
    letter(25 - j)
}

/// The first `n` letters of the reversed alphabet tried at position `i`.
pub open spec fn outer_scan(text: Seq<char>, plain: Seq<char>, len2: int, st: OuterState, i: int, n: int) -> (
    Score,
    char,
    Seq<char>,
    Seq<char>,
)
    decreases n,
{
    if n <= 0 {
        (st.best, st.keyword1[i], st.best_keyword1, st.best_keyword2)
    } else {
        let (b, c, k1, k2) = outer_scan(text, plain, len2, st, i, n - 1);
        let trial = st.keyword1.update(i, reverse_letter(n - 1));
        let o = inner(text, plain, trial, len2);
        if o.best.beats(b) {
            (o.best, reverse_letter(n - 1), trial, o.keyword)
        } else {
            (b, c, k1, k2)
        }
    }
}

/// Positions `0..n` of one round of the outer search.
pub open spec fn outer_sweep(text: Seq<char>, plain: Seq<char>, len2: int, st: OuterState, n: int) -> OuterState
    decreases n,
{
    if n <= 0 {
        st
    } else {
        let s1 = outer_sweep(text, plain, len2, st, n - 1);
        let (b, c, k1, k2) = outer_scan(text, plain, len2, s1, n - 1, 26);
        OuterState { keyword1: s1.keyword1.update(n - 1, c), best: b, best_keyword1: k1, best_keyword2: k2 }
    }
}

/// `rounds` rounds of the outer search.
pub open spec fn outer_ascent(text: Seq<char>, plain: Seq<char>, len2: int, st: OuterState, rounds: int) -> OuterState
    decreases rounds,
{
    if rounds <= 0 {
        st
    } else {
        let s1 = outer_ascent(text, plain, len2, st, rounds - 1);
        outer_sweep(text, plain, len2, s1, s1.keyword1.len() as int)
    }
}

/// The first `n` orderings of the best first keyword, each searched in turn.
pub open spec fn perm_scan(
    perms: Seq<Seq<char>>,
    text: Seq<char>,
    plain: Seq<char>,
    len2: int,
    start: (Score, Seq<char>, Seq<char>),
    n: int,
) -> (Score, Seq<char>, Seq<char>)
    decreases n,
{
    if n <= 0 {
        start
    } else {
        let (b, k1, k2) = perm_scan(perms, text, plain, len2, start, n - 1);
        let o = inner(text, plain, perms[n - 1], len2);
        if o.best.beats(b) {
            (o.best, perms[n - 1], o.keyword)
        } else {
            (b, k1, k2)
        }
    }
}

/// The rounds of the outer search over the first keyword.
pub const OUTER_ROUNDS: usize = 5;

/// The whole two-level search: the outer search from the reversed alphabet,
/// then every ordering of the best first keyword.
pub open spec fn tigershark_spec(text: Seq<char>, plain: Seq<char>, len1: int, len2: int) -> (Score, Seq<char>, Seq<char>) {
    let start = OuterState {
        keyword1: Seq::new(len1 as nat, |i: int| reverse_letter(i)),
        best: Score { num: 0, den: 1 },
        best_keyword1: Seq::empty(),
        best_keyword2: Seq::empty(),
    };
    let o = outer_ascent(text, plain, len2, start, OUTER_ROUNDS as int);
    let perms = permutations_of(o.best_keyword1);
    perm_scan(perms, text, plain, len2, (o.best, o.best_keyword1, o.best_keyword2), perms.len() as int)
}

proof fn lemma_outer_scan(text: Seq<char>, plain: Seq<char>, len2: int, st: OuterState, i: int, n: int)
    requires
        0 <= i < st.keyword1.len(),
        0 <= n <= 26,
        all_upper(st.keyword1),
        all_upper(st.best_keyword1),
        st.best.wf(),
    ensures
        is_upper(outer_scan(text, plain, len2, st, i, n).1),
        all_upper(outer_scan(text, plain, len2, st, i, n).2),
    decreases n,
{
    if n > 0 {
        lemma_outer_scan(text, plain, len2, st, i, n - 1);
        lemma_ord_letter(25 - (n - 1));
        let trial = st.keyword1.update(i, reverse_letter(n - 1));
        assert forall|q: int| 0 <= q < trial.len() implies is_upper(#[trigger] trial[q]) by {
            if q != i {
                assert(trial[q] == st.keyword1[q]);
            }
        }
    }
}

/// One inner search on vectors: the second keyword found and its score.
fn inner_search(k1: &Vec<char>, text: &Vec<char>, plain: &Vec<char>, len2: usize) -> (r: (Vec<char>, Score))
    requires
        all_upper(k1@),
        all_upper(text@),
        crate::search::scorable(text@, plain@),
    ensures
        r.0@ == inner(text@, plain@, k1@, len2 as int).keyword,
        r.1 == inner(text@, plain@, k1@, len2 as int).best,
        r.1.wf(),
{
    let (kw, best, _dec) = search(Measure::Aster, k1, text, plain, len2, ROUNDS);
    (kw, best)
}

/// Searches for both keywords: a coordinate ascent over the first keyword
/// (from the reversed alphabet, letters tried Z to A), each trial scored by a
/// full search for the second; then every ordering of the best first keyword
/// is searched again. Returns the best first keyword, second keyword, and score.
pub fn tigershark(key_length1: usize, key_length2: usize, encrypted_text: &str, plaintext: &str) -> (r: (
    String,
    String,
    Score,
))
    requires
        key_length1 <= 26,
        encrypted_text@.len() <= MAX_TEXT || plaintext@.len() <= MAX_TEXT,
    ensures
        ({
            let (b, k1, k2) = tigershark_spec(clean(encrypted_text@), plaintext@, key_length1 as int, key_length2 as int);
            r.0@ == k1 && r.1@ == k2 && r.2 == b
        }),
{
    let text = clean_text(&chars_of(encrypted_text));
    let plain = chars_of(plaintext);
    proof {
        lemma_clean(encrypted_text@);
    }
    // the lengths of both vectors fit in a usize, as the scores require
    let _ = (text.len(), plain.len());
    let ghost tv = text@;
    let ghost pv = plain@;
    let mut kw1: Vec<char> = Vec::new();
    while kw1.len() < key_length1
        invariant
            kw1.len() <= key_length1,
            key_length1 <= 26,
            kw1@ =~= Seq::new(kw1.len() as nat, |i: int| reverse_letter(i)),
        decreases key_length1 - kw1.len(),
    {
        kw1.push(letter_at(25 - kw1.len()));
    }
    let ghost start = OuterState {
        keyword1: kw1@,
        best: Score { num: 0, den: 1 },
        best_keyword1: Seq::empty(),
        best_keyword2: Seq::empty(),
    };
    proof {
        assert forall|q: int| 0 <= q < kw1@.len() implies is_upper(#[trigger] kw1@[q]) by {
            lemma_ord_letter(25 - q);
        }
    }
    let mut best = Score::zero();
    let mut best_k1: Vec<char> = Vec::new();
    let mut best_k2: Vec<char> = Vec::new();
    let mut round: usize = 0;
    while round < OUTER_ROUNDS
        invariant
            round <= OUTER_ROUNDS,
            tv == text@,
            pv == plain@,
            all_upper(tv),
            crate::search::scorable(tv, pv),
            kw1.len() == key_length1,
            all_upper(kw1@),
            all_upper(best_k1@),
            best.wf(),
            start.keyword1 =~= Seq::new(key_length1 as nat, |i: int| reverse_letter(i)),
            start.best == Score::zero_spec(),
            start.best_keyword1 == Seq::<char>::empty(),
            start.best_keyword2 == Seq::<char>::empty(),
            (OuterState { keyword1: kw1@, best, best_keyword1: best_k1@, best_keyword2: best_k2@ })
                == outer_ascent(tv, pv, key_length2 as int, start, round as int),
        decreases OUTER_ROUNDS - round,
    {
        let ghost rs = OuterState { keyword1: kw1@, best, best_keyword1: best_k1@, best_keyword2: best_k2@ };
        let mut i: usize = 0;
        while i < key_length1
            invariant
                i <= key_length1,
                tv == text@,
                pv == plain@,
                all_upper(tv),
                crate::search::scorable(tv, pv),
                kw1.len() == key_length1,
                rs.keyword1.len() == key_length1,
                all_upper(kw1@),
                all_upper(best_k1@),
                best.wf(),
                (OuterState { keyword1: kw1@, best, best_keyword1: best_k1@, best_keyword2: best_k2@ })
                    == outer_sweep(tv, pv, key_length2 as int, rs, i as int),
            decreases key_length1 - i,
        {
            let ghost cur = OuterState { keyword1: kw1@, best, best_keyword1: best_k1@, best_keyword2: best_k2@ };
            let mut pick = kw1[i];
            let mut j: usize = 0;
            while j < 26
                invariant
                    j <= 26,
                    i < key_length1,
                    tv == text@,
                    pv == plain@,
                    all_upper(tv),
                    crate::search::scorable(tv, pv),
                    kw1.len() == key_length1,
                    cur.keyword1.len() == key_length1,
                    all_upper(cur.keyword1),
                    all_upper(cur.best_keyword1),
                    cur.best.wf(),
                    kw1@ == cur.keyword1.update(i as int, kw1@[i as int]),
                    is_upper(kw1@[i as int]),
                    all_upper(best_k1@),
                    best.wf(),
                    (best, pick, best_k1@, best_k2@) == outer_scan(tv, pv, key_length2 as int, cur, i as int, j as int),
                decreases 26 - j,
            {
                let c = letter_at(25 - j);
                kw1.set(i, c);
                assert(kw1@ =~= cur.keyword1.update(i as int, reverse_letter(j as int)));
                proof {
                    assert forall|q: int| 0 <= q < kw1@.len() implies is_upper(#[trigger] kw1@[q]) by {
                        if q != i {
                            assert(kw1@[q] == cur.keyword1[q]);
                        }
                    }
                }
                let (k2, s) = inner_search(&kw1, &text, &plain, key_length2);
                if s.better_than(&best) {
                    best = s;
                    pick = c;
                    best_k1 = copy_chars(&kw1);
                    best_k2 = k2;
                }
                j += 1;
            }
            proof {
                lemma_outer_scan(tv, pv, key_length2 as int, cur, i as int, 26);
            }
            kw1.set(i, pick);
            assert(kw1@ =~= cur.keyword1.update(i as int, pick));
            proof {
                assert forall|q: int| 0 <= q < kw1@.len() implies is_upper(#[trigger] kw1@[q]) by {
                    if q != i {
                        assert(kw1@[q] == cur.keyword1[q]);
                    }
                }
            }
            i += 1;
        }
        round += 1;
    }
    let perms = permutations(&best_k1);
    let ghost pv_perms = rows_view(perms@);
    let mut pbest = best;
    let mut pk1 = copy_chars(&best_k1);
    let mut pk2 = best_k2;
    let ghost pstart = (best, best_k1@, pk2@);
    let mut n: usize = 0;
    while n < perms.len()
        invariant
            n <= perms.len(),
            tv == text@,
            pv == plain@,
            all_upper(tv),
            crate::search::scorable(tv, pv),
            pv_perms == rows_view(perms@),
            all_upper(best_k1@),
            forall|q: int| 0 <= q < perms.len() ==> (#[trigger] perms@[q])@.to_multiset() == best_k1@.to_multiset(),
            (pbest, pk1@, pk2@) == perm_scan(pv_perms, tv, pv, key_length2 as int, pstart, n as int),
        decreases perms.len() - n,
    {
        proof {
            lemma_multiset_upper(best_k1@, perms@[n as int]@);
        }
        let (k2, s) = inner_search(&perms[n], &text, &plain, key_length2);
        if s.better_than(&pbest) {
            pbest = s;
            pk1 = copy_chars(&perms[n]);
            pk2 = k2;
        }
        n += 1;
    }
    (string_of(&pk1), string_of(&pk2), pbest)
}

/// A copy of `v`.
fn copy_chars(v: &Vec<char>) -> (r: Vec<char>)
    ensures
        r@ == v@,
{
    let mut r: Vec<char> = Vec::new();
    let mut i: usize = 0;
    while i < v.len()
        invariant
            i <= v.len(),
            r@ =~= v@.subrange(0, i as int),
        decreases v.len() - i,
    {
        r.push(v[i]);
        i += 1;
    }
    r
}

/// A rearrangement of upper-case letters holds only upper-case letters.
proof fn lemma_multiset_upper(a: Seq<char>, b: Seq<char>)
    requires
        all_upper(a),
        b.to_multiset() == a.to_multiset(),
    ensures
        all_upper(b),
{
    assert forall|q: int| 0 <= q < b.len() implies is_upper(#[trigger] b[q]) by {
        b.to_multiset_ensures();
        a.to_multiset_ensures();
        assert(b.to_multiset().count(b[q]) > 0);
        assert(a.contains(b[q]));
    }
}

} // verus!
