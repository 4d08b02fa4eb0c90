//! The tabula recta: a plaintext alphabet row built from one keyword and one
//! rotated row for each symbol of a second keyword.
use vstd::prelude::*;
use crate::alphabet::{
    all_upper, alpha, clean, is_upper, lemma_alpha_contains, lemma_clean, lemma_ord_letter,
    letter_at, holds, clean_text, chars_of,
};

verus! {

/// `s` with every repeated symbol after its first occurrence removed.
pub open spec fn dedup(s: Seq<char>) -> Seq<char>
    decreases s.len(),
{
    if s.len() == 0 {
        Seq::empty()
    } else {
        let r = dedup(s.drop_last());
        if r.contains(s.last()) {
            r
        } else {
            r.push(s.last())
        }
    }
}

/// Row 0 of the table for `keyword1`: its letters (upper-cased, first
/// occurrences) followed by the remaining letters in natural order.
pub open spec fn row0(keyword1: Seq<char>) -> Seq<char> {
    first_row(clean(keyword1))
}

/// Row 0 for a keyword already cleaned.
pub open spec fn first_row(k: Seq<char>) -> Seq<char> {
    dedup(k + alpha())
}

/// `s` is an ordering of the 26 letters: each occurs exactly once.
pub open spec fn perm26(s: Seq<char>) -> bool {
    &&& s.len() == 26
    &&& s.no_duplicates()
    &&& forall|c: char| s.contains(c) <==> is_upper(c)
}

/// The column at which `c` stands in `s`.
pub open spec fn col(s: Seq<char>, c: char) -> int {
    choose|j: int| 0 <= j < s.len() && s[j] == c
}

/// `r` rotated so that it begins at the column of `c`.
pub open spec fn rotate(r: Seq<char>, c: char) -> Seq<char> {
    Seq::new(26, |j: int| r[(col(r, c) + j) % 26])
}

/// The whole table: row 0, then one rotation of it per letter of `keyword2`.
pub open spec fn table_rows(keyword1: Seq<char>, keyword2: Seq<char>) -> Seq<Seq<char>> {
    table_of(clean(keyword1), clean(keyword2))
}

/// The table for keywords already cleaned.
pub open spec fn table_of(k1: Seq<char>, k2: Seq<char>) -> Seq<Seq<char>> {
    seq![first_row(k1)] + k2.map_values(|c: char| rotate(first_row(k1), c))
}

/// The rows of `t` as sequences.
pub open spec fn rows_view(t: Seq<Vec<char>>) -> Seq<Seq<char>> {
    t.map_values(|r: Vec<char>| r@)
}

/// A usable table: row 0 and at least one keyed row, each an ordering of the alphabet.
pub open spec fn rows_wf(t: Seq<Seq<char>>) -> bool {
    &&& t.len() >= 2
    &&& forall|i: int| 0 <= i < t.len() ==> perm26(#[trigger] t[i])
}

/// The keyed row that serves the `p`-th symbol.
pub open spec fn row_for(t: Seq<Seq<char>>, p: int) -> Seq<char> {
    t[(p % (t.len() - 1)) + 1]
}

/// Encoding through a table: the `p`-th symbol is looked up in row 0 and
/// replaced by the symbol in the same column of its keyed row.
pub open spec fn table_encode(t: Seq<Seq<char>>, s: Seq<char>) -> Seq<char> {
    Seq::new(s.len(), |p: int| row_for(t, p)[col(t[0], s[p])])
}

/// Decoding through a table: the `p`-th symbol is looked up in its keyed row
/// and replaced by the symbol in the same column of row 0.
pub open spec fn table_decode(t: Seq<Seq<char>>, s: Seq<char>) -> Seq<char> {
    Seq::new(s.len(), |p: int| t[0][col(row_for(t, p), s[p])])
}

pub proof fn lemma_dedup(s: Seq<char>)
    ensures
        dedup(s).no_duplicates(),
        forall|c: char| dedup(s).contains(c) <==> s.contains(c),
    decreases s.len(),
{
    if s.len() > 0 {
        let p = s.drop_last();
        lemma_dedup(p);
        assert forall|c: char| s.contains(c) <==> (p.contains(c) || c == s.last()) by {
            if s.contains(c) {
                let i = choose|i: int| 0 <= i < s.len() && s[i] == c;
                if i < p.len() {
                    assert(p[i] == c);
                }
            }
            if p.contains(c) {
                let i = choose|i: int| 0 <= i < p.len() && p[i] == c;
                assert(s[i] == c);
            }
            if c == s.last() {
                assert(s[s.len() - 1] == c);
            }
        }
        let r = dedup(p);
        if !r.contains(s.last()) {
            assert forall|c: char| r.push(s.last()).contains(c) <==> (r.contains(c) || c
                == s.last()) by {
                if r.push(s.last()).contains(c) {
                    let i = choose|i: int| 0 <= i < r.len() + 1 && r.push(s.last())[i] == c;
                    if i < r.len() {
                        assert(r[i] == c);
                    }
                }
                if r.contains(c) {
                    let i = choose|i: int| 0 <= i < r.len() && r[i] == c;
                    assert(r.push(s.last())[i] == c);
                }
                if c == s.last() {
                    assert(r.push(s.last())[r.len() as int] == c);
                }
            }
        }
    }
}

pub proof fn lemma_alpha_perm()
    ensures
        perm26(alpha()),
{
    assert forall|i: int, j: int| 0 <= i < 26 && 0 <= j < 26 && i != j implies alpha()[i]
        != alpha()[j] by {
        lemma_ord_letter(i);
        lemma_ord_letter(j);
    }
    assert forall|c: char| alpha().contains(c) <==> is_upper(c) by {
        lemma_alpha_contains(c);
    }
}

/// A duplicate-free sequence holding exactly the 26 letters has length 26.
pub proof fn lemma_letters_len(s: Seq<char>)
    requires
        s.no_duplicates(),
        forall|c: char| s.contains(c) <==> is_upper(c),
    ensures
        perm26(s),
{
    lemma_alpha_perm();
    assert forall|c: char| s.to_set().contains(c) <==> alpha().to_set().contains(c) by {
        assert(alpha().contains(c) <==> is_upper(c));
    }
    assert(s.to_set() =~= alpha().to_set());
    s.unique_seq_to_set();
    alpha().unique_seq_to_set();
}

/// Row 0 is an ordering of the alphabet, whatever the keyword.
pub proof fn lemma_row0_perm(keyword1: Seq<char>)
    ensures
        perm26(row0(keyword1)),
{
    lemma_clean(keyword1);
    lemma_first_row_perm(clean(keyword1));
}

pub proof fn lemma_first_row_perm(k: Seq<char>)
    requires
        all_upper(k),
    ensures
        perm26(first_row(k)),
{
    let s = k + alpha();
    lemma_dedup(s);
    assert forall|c: char| s.contains(c) <==> is_upper(c) by {
        lemma_alpha_contains(c);
        if s.contains(c) {
            let i = choose|i: int| 0 <= i < s.len() && s[i] == c;
            if i >= k.len() {
                assert(alpha()[i - k.len()] == c);
            }
        }
        if is_upper(c) {
            let j = choose|j: int| 0 <= j < 26 && alpha()[j] == c;
            assert(s[k.len() + j] == c);
        }
    }
    lemma_letters_len(first_row(k));
}

pub proof fn lemma_col(s: Seq<char>, c: char, j: int)
    requires
        s.no_duplicates(),
        0 <= j < s.len(),
        s[j] == c,
    ensures
        col(s, c) == j,
{
}

pub proof fn lemma_col_range(s: Seq<char>, c: char)
    requires
        perm26(s),
        is_upper(c),
    ensures
        0 <= col(s, c) < 26,
        s[col(s, c)] == c,
{
    assert(s.contains(c));
}

/// A rotation of an ordering of the alphabet is again one.
pub proof fn lemma_rotate_perm(r: Seq<char>, c: char)
    requires
        perm26(r),
        is_upper(c),
    ensures
        perm26(rotate(r, c)),
        forall|j: int| 0 <= j < 26 ==> #[trigger] rotate(r, c)[j] == r[(col(r, c) + j) % 26],
{
    lemma_col_range(r, c);
    let p = col(r, c);
    let t = rotate(r, c);
    assert forall|i: int, j: int| 0 <= i < 26 && 0 <= j < 26 && i != j implies t[i] != t[j] by {
        assert((p + i) % 26 != (p + j) % 26);
    }
    assert forall|d: char| t.contains(d) <==> is_upper(d) by {
        if t.contains(d) {
            let i = choose|i: int| 0 <= i < 26 && t[i] == d;
            assert(r.contains(d));
        }
        if is_upper(d) {
            lemma_col_range(r, d);
            let q = col(r, d);
            let j = (q - p + 26) % 26;
            assert(t[j] == d);
        }
    }
}

/// Every row of the table is an ordering of the alphabet: no symbol is
/// missing from a row and none repeats.
pub proof fn lemma_table_rows_perm(keyword1: Seq<char>, keyword2: Seq<char>)
    ensures
        table_rows(keyword1, keyword2).len() == clean(keyword2).len() + 1,
        forall|i: int|
            0 <= i < table_rows(keyword1, keyword2).len() ==> perm26(
                #[trigger] table_rows(keyword1, keyword2)[i],
            ),
{
    lemma_clean(keyword1);
    lemma_clean(keyword2);
    lemma_table_of_perm(clean(keyword1), clean(keyword2));
}

pub proof fn lemma_table_of_perm(k1: Seq<char>, k2: Seq<char>)
    requires
        all_upper(k1),
        all_upper(k2),
    ensures
        table_of(k1, k2).len() == k2.len() + 1,
        forall|i: int| 0 <= i < table_of(k1, k2).len() ==> perm26(#[trigger] table_of(k1, k2)[i]),
        k2.len() > 0 ==> rows_wf(table_of(k1, k2)),
{
    lemma_first_row_perm(k1);
    let t = table_of(k1, k2);
    assert forall|i: int| 0 <= i < t.len() implies perm26(#[trigger] t[i]) by {
        if i > 0 {
            assert(is_upper(k2[i - 1]));
            lemma_rotate_perm(first_row(k1), k2[i - 1]);
        }
    }
}

/// Decoding undoes encoding through any usable table.
pub proof fn lemma_table_round_trip(t: Seq<Seq<char>>, s: Seq<char>)
    requires
        rows_wf(t),
        all_upper(s),
    ensures
        table_decode(t, table_encode(t, s)) == s,
        all_upper(table_encode(t, s)),
{
    let e = table_encode(t, s);
    assert forall|p: int| 0 <= p < s.len() implies table_decode(t, e)[p] == s[p] && is_upper(
        e[p],
    ) by {
        let r = row_for(t, p);
        assert(perm26(t[0]));
        assert(perm26(r));
        lemma_col_range(t[0], s[p]);
        let j = col(t[0], s[p]);
        assert(r.contains(r[j]));
        lemma_col(r, r[j], j);
    }
    assert(table_decode(t, e) =~= s);
}

/// Position of `c` in `v`, which holds it.
pub fn position(v: &Vec<char>, c: char) -> (r: usize)
    requires
        v@.contains(c),
    ensures
        r < v.len(),
        v@[r as int] == c,
        forall|j: int| 0 <= j < r ==> v@[j] != c,
{
    let mut i: usize = 0;
    while i < v.len()
        invariant
            i <= v.len(),
            v@.contains(c),
            forall|j: int| 0 <= j < i ==> v@[j] != c,
        decreases v.len() - i,
    {
        if v[i] == c {
            return i;
        }
        i += 1;
    }
    i
}

/// Row 0 for the cleaned keyword `k`.
fn build_row0(k: &Vec<char>) -> (r: Vec<char>)
    ensures
        r@ == dedup(k@ + alpha()),
{
    let mut r: Vec<char> = Vec::new();
    let mut i: usize = 0;
    while i < k.len()
        invariant
            i <= k.len(),
            r@ == dedup(k@.subrange(0, i as int)),
        decreases k.len() - i,
    {
        assert(k@.subrange(0, i + 1).drop_last() =~= k@.subrange(0, i as int));
        let c = k[i];
        if !holds(&r, c) {
            r.push(c);
        }
        i += 1;
    }
    assert(k@.subrange(0, k.len() as int) =~= k@ + alpha().subrange(0, 0));
    let mut j: usize = 0;
    while j < 26
        invariant
            j <= 26,
            r@ == dedup(k@ + alpha().subrange(0, j as int)),
        decreases 26 - j,
    {
        assert((k@ + alpha().subrange(0, j + 1)).drop_last() =~= k@ + alpha().subrange(
            0,
            j as int,
        ));
        let c = letter_at(j);
        if !holds(&r, c) {
            r.push(c);
        }
        j += 1;
    }
    assert(k@ + alpha().subrange(0, 26) =~= k@ + alpha());
    r
}

/// The row of `r` rotated to begin at the column of `c`.
fn rotated(r: &Vec<char>, c: char) -> (t: Vec<char>)
    requires
        perm26(r@),
        is_upper(c),
    ensures
        t@ == rotate(r@, c),
{
    proof {
        lemma_col_range(r@, c);
    }
    let p = position(r, c);
    proof {
        lemma_col(r@, c, p as int);
    }
    let mut t: Vec<char> = Vec::new();
    let mut j: usize = 0;
    while j < 26
        invariant
            j <= 26,
            p < 26,
            r@.len() == 26,
            p == col(r@, c),
            t@ =~= rotate(r@, c).subrange(0, j as int),
        decreases 26 - j,
    {
        t.push(r[(p + j) % 26]);
        j += 1;
    }
    t
}

/// The table for cleaned keywords.
pub fn build_table(k1: &Vec<char>, k2: &Vec<char>) -> (t: Vec<Vec<char>>)
    requires
        all_upper(k1@),
        all_upper(k2@),
    ensures
        rows_view(t@) == table_of(k1@, k2@),
{
    let row = build_row0(k1);
    proof {
        lemma_first_row_perm(k1@);
    }
    let ghost rows = table_of(k1@, k2@);
    let mut t: Vec<Vec<char>> = Vec::new();
    t.push(row);
    let mut i: usize = 0;
    while i < k2.len()
        invariant
            i <= k2.len(),
            all_upper(k2@),
            rows == table_of(k1@, k2@),
            perm26(rows[0]),
            t.len() == i + 1,
            forall|m: int| 0 <= m < t.len() ==> #[trigger] t@[m]@ == rows[m],
        decreases k2.len() - i,
    {
        let r = rotated(&t[0], k2[i]);
        t.push(r);
        i += 1;
    }
    assert(rows_view(t@) =~= rows);
    t
}

/// The table for `keyword1` and `keyword2`. Only the letters of each keyword
/// count, upper-cased; repeated letters of `keyword1` keep their first place.
pub fn generate_vigenere_table(keyword1: &str, keyword2: &str) -> (t: Vec<Vec<char>>)
    ensures
        rows_view(t@) == table_rows(keyword1@, keyword2@),
        t.len() == clean(keyword2@).len() + 1,
{
    let k1 = clean_text(&chars_of(keyword1));
    let k2 = clean_text(&chars_of(keyword2));
    proof {
        lemma_clean(keyword1@);
        lemma_clean(keyword2@);
    }
    let t = build_table(&k1, &k2);
    assert(t@.len() == rows_view(t@).len());
    t
}

/// Encodes the upper-case text `s` through the table `t`.
pub fn encode_with(t: &[Vec<char>], s: &Vec<char>) -> (r: Vec<char>)
    requires
        rows_wf(rows_view(t@)),
        all_upper(s@),
    ensures
        r@ == table_encode(rows_view(t@), s@),
{
    let ghost tv = rows_view(t@);
    let n = t.len() - 1;
    let mut r: Vec<char> = Vec::new();
    let mut p: usize = 0;
    while p < s.len()
        invariant
            tv == rows_view(t@),
            rows_wf(tv),
            n == t.len() - 1,
            all_upper(s@),
            p <= s.len(),
            r@ =~= table_encode(tv, s@).subrange(0, p as int),
        decreases s.len() - p,
    {
        let c = s[p];
        proof {
            assert(perm26(tv[0]));
            lemma_col_range(tv[0], c);
        }
        let j = position(&t[0], c);
        proof {
            lemma_col(tv[0], c, j as int);
            assert(perm26(tv[(p % n) + 1]));
        }
        r.push(t[(p % n) + 1][j]);
        p += 1;
    }
    r
}

/// Decodes the upper-case text `s` through the table `t`.
pub fn decode_with(t: &[Vec<char>], s: &Vec<char>) -> (r: Vec<char>)
    requires
        rows_wf(rows_view(t@)),
        all_upper(s@),
    ensures
        r@ == table_decode(rows_view(t@), s@),
{
    let ghost tv = rows_view(t@);
    let n = t.len() - 1;
    let mut r: Vec<char> = Vec::new();
    let mut p: usize = 0;
    while p < s.len()
        invariant
            tv == rows_view(t@),
            rows_wf(tv),
            n == t.len() - 1,
            all_upper(s@),
            p <= s.len(),
            r@ =~= table_decode(tv, s@).subrange(0, p as int),
        decreases s.len() - p,
    {
        let c = s[p];
        let k = (p % n) + 1;
        proof {
            assert(perm26(tv[k as int]));
            assert(perm26(tv[0]));
            lemma_col_range(tv[k as int], c);
        }
        let j = position(&t[k], c);
        proof {
            lemma_col(tv[k as int], c, j as int);
        }
        r.push(t[0][j]);
        p += 1;
    }
    r
}

} // verus!
