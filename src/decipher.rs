//! Second-keyword search through explicit tables, single-keyword tables, and
//! column sampling.
use vstd::prelude::*;
use crate::alphabet::{alpha, chars_of, clean, clean_text, lemma_clean, string_of};
use crate::analysis::MAX_TEXT;
use crate::alphabet::{all_upper, letter, letter_at};
use crate::score::Score;
use crate::search::{scorable, search_spec, trial_score, Measure};
use crate::stats::{column, column_of};
use crate::table::{build_table, rows_view, table_of};
use crate::toolkit::{alphabet_vec, search_with, ROUNDS};

pub use crate::table::generate_vigenere_table;
pub use crate::toolkit::vig2table;

verus! {

/// The table whose row 0 is the plain alphabet, keyed by `keyword2`.
pub fn vig1table(keyword2: &str) -> (t: Vec<Vec<char>>)
    ensures
        rows_view(t@) == table_of(alpha(), clean(keyword2@)),
        t.len() == clean(keyword2@).len() + 1,
{
    let a = alphabet_vec();
    let k2 = clean_text(&chars_of(keyword2));
    proof {
        crate::toolkit::lemma_key_stream(Seq::<char>::empty());
        assert(clean(Seq::<char>::empty()) =~= Seq::<char>::empty());
        lemma_clean(keyword2@);
    }
    let t = build_table(&a, &k2);
    assert(t@.len() == rows_view(t@).len());
    t
}

/// The symbols of `s` at positions `0, n, 2n, ...`.
pub open spec fn every_nth(s: Seq<char>, n: int) -> Seq<char>
    decreases s.len(),
{
    if s.len() == 0 {
        Seq::empty()
    } else if (s.len() - 1) % n == 0 {
        every_nth(s.drop_last(), n).push(s.last())
    } else {
        every_nth(s.drop_last(), n)
    }
}

/// Every `n`-th symbol of `s`, starting with the first.
pub fn every_nth_letter(s: &str, n: usize) -> (r: String)
    requires
        n > 0,
    ensures
        r@ == every_nth(s@, n as int),
{
    let v = chars_of(s);
    let mut r: Vec<char> = Vec::new();
    let mut i: usize = 0;
    while i < v.len()
        invariant
            n > 0,
            i <= v.len(),
            r@ == every_nth(v@.subrange(0, i as int), n as int),
        decreases v.len() - i,
    {
        assert(v@.subrange(0, i + 1).drop_last() =~= v@.subrange(0, i as int));
        if i % n == 0 {
            r.push(v[i]);
        }
        i += 1;
    }
    assert(v@.subrange(0, v.len() as int) =~= v@);
    string_of(&r)
}

/// Searches for a second keyword of `key_length` letters by the aster score
/// of the decoding against `comparison`; returns the keyword.
pub fn kryptos(keyword1: &str, encrypted: &str, comparison: &str, key_length: usize) -> (r: String)
    requires
        encrypted@.len() <= MAX_TEXT || comparison@.len() <= MAX_TEXT,
    ensures
        r@ == search_spec(
            Measure::Aster,
            clean(keyword1@),
            clean(encrypted@),
            comparison@,
            key_length as int,
            ROUNDS as int,
        ).keyword,
{
    search_with(Measure::Aster, &chars_of(keyword1), &chars_of(encrypted), &chars_of(comparison), key_length).keyword2
}

/// The keyword pair of trial `t` of the grid search: position `i` of the
/// first keyword and `j` of the second take letters `a` and `b`; positions
/// already swept hold 'Z', the others 'A'.
pub open spec fn grid_trial(len1: int, len2: int, t: int) -> (Seq<char>, Seq<char>) {
    let per = len2 * 676;
    let i = t / per;
    let rem = t % per;
    let j = rem / 676;
    let a = (rem % 676) / 26;
    let b = rem % 26;
    (
        Seq::new(
            len1 as nat,
            |p: int|
                if p < i {
                    'Z'
                } else if p == i {
                    letter(a)
                } else {
                    'A'
                },
        ),
        Seq::new(
            len2 as nat,
            |q: int|
                if q == j {
                    letter(b)
                } else if q < j || i > 0 {
                    'Z'
                } else {
                    'A'
                },
        ),
    )
}

/// The best of the first `n` grid trials, by the aster score of the
/// decoding against `plain`; a trial is kept only when strictly better.
pub open spec fn grid_best(text: Seq<char>, plain: Seq<char>, len1: int, len2: int, n: int) -> (
    Score,
    Seq<char>,
    Seq<char>,
)
    decreases n,
{
    if n <= 0 {
        (Score { num: 0, den: 1 }, Seq::empty(), Seq::empty())
    } else {
        let (b, k1, k2) = grid_best(text, plain, len1, len2, n - 1);
        let (t1, t2) = grid_trial(len1, len2, n - 1);
        let s = trial_score(Measure::Aster, t1, text, plain, t2);
        if s.beats(b) {
            (s, t1, t2)
        } else {
            (b, k1, k2)
        }
    }
}

/// The keyword pair of one grid trial.
fn grid_keys(len1: usize, len2: usize, t: usize) -> (r: (Vec<char>, Vec<char>))
    requires
        len2 > 0,
        t < len1 * len2 * 676,
        len1 * len2 * 676 <= usize::MAX,
    ensures
        r.0@ == grid_trial(len1 as int, len2 as int, t as int).0,
        r.1@ == grid_trial(len1 as int, len2 as int, t as int).1,
        all_upper(r.0@),
        all_upper(r.1@),
        r.1.len() > 0,
{
    proof {
        assert(len2 * 676 <= len1 * len2 * 676) by (nonlinear_arith)
            requires
                t < len1 * len2 * 676,
                len2 > 0,
        ;
    }
    let per = len2 * 676;
    let i = t / per;
    let rem = t % per;
    let j = rem / 676;
    let a = (rem % 676) / 26;
    let b = rem % 26;
    let ghost want = grid_trial(len1 as int, len2 as int, t as int);
    let mut k1: Vec<char> = Vec::new();
    let mut p: usize = 0;
    while p < len1
        invariant
            p <= len1,
            a < 26,
            want == grid_trial(len1 as int, len2 as int, t as int),
            i == (t as int) / (len2 as int * 676),
            a == ((t as int) % (len2 as int * 676) % 676) / 26,
            k1@ =~= want.0.subrange(0, p as int),
            all_upper(k1@),
        decreases len1 - p,
    {
        let c = if p < i {
            'Z'
        } else if p == i {
            letter_at(a)
        } else {
            'A'
        };
        k1.push(c);
        p += 1;
    }
    let mut k2: Vec<char> = Vec::new();
    let mut q: usize = 0;
    while q < len2
        invariant
            q <= len2,
            b < 26,
            want == grid_trial(len1 as int, len2 as int, t as int),
            i == (t as int) / (len2 as int * 676),
            j == ((t as int) % (len2 as int * 676)) / 676,
            b == (t as int) % (len2 as int * 676) % 26,
            k2@ =~= want.1.subrange(0, q as int),
            all_upper(k2@),
        decreases len2 - q,
    {
        let c = if q == j {
            letter_at(b)
        } else if q < j || i > 0 {
            'Z'
        } else {
            'A'
        };
        k2.push(c);
        q += 1;
    }
    (k1, k2)
}

/// Searches both keywords at once: for each position pair of the two
/// keywords, every pair of letters is tried (the other positions keep what
/// earlier trials left there); returns the pair with the best aster score of
/// the decoding against `comparison`, or two empty keywords when none scored
/// above 0.
pub fn kryptos2(encrypted: &str, comparison: &str, key1_length: usize, key2_length: usize) -> (r: (
    String,
    String,
))
    requires
        encrypted@.len() <= MAX_TEXT || comparison@.len() <= MAX_TEXT,
        key1_length * key2_length * 676 <= usize::MAX,
    ensures
        ({
            let (b, k1, k2) = grid_best(
                clean(encrypted@),
                comparison@,
                key1_length as int,
                key2_length as int,
                key1_length * key2_length * 676,
            );
            r.0@ == k1 && r.1@ == k2
        }),
{
    let text = clean_text(&chars_of(encrypted));
    let plain = chars_of(comparison);
    proof {
        lemma_clean(encrypted@);
    }
    // the lengths of both vectors fit in a usize, as the scores require
    let _ = (text.len(), plain.len());
    let total = key1_length * key2_length * 676;
    let mut best = Score::zero();
    let mut best1: Vec<char> = Vec::new();
    let mut best2: Vec<char> = Vec::new();
    let mut t: usize = 0;
    while t < total
        invariant
            t <= total,
            total == key1_length * key2_length * 676,
            all_upper(text@),
            text@ == clean(encrypted@),
            plain@ == comparison@,
            scorable(text@, plain@),
            best.wf(),
            (best, best1@, best2@) == grid_best(
                text@,
                plain@,
                key1_length as int,
                key2_length as int,
                t as int,
            ),
        decreases total - t,
    {
        proof {
            if key2_length == 0 {
                assert(key1_length * key2_length * 676 == 0) by (nonlinear_arith)
                    requires
                        key2_length == 0,
                ;
            }
        }
        let (k1, k2) = grid_keys(key1_length, key2_length, t);
        let (s, _d) = crate::search::trial_on(Measure::Aster, &k1, &text, &plain, &k2);
        if s.better_than(&best) {
            best = s;
            best1 = k1;
            best2 = k2;
        }
        t += 1;
    }
    (string_of(&best1), string_of(&best2))
}

/// The symbol that the last position of `p` below `m` holding `c` shows in
/// `e`; a space when there is none.
pub open spec fn grid_cell(e: Seq<char>, p: Seq<char>, c: char, m: int) -> char
    decreases m,
{
    if m <= 0 {
        ' '
    } else if p[m - 1] == c {
        e[m - 1]
    } else {
        grid_cell(e, p, c, m - 1)
    }
}

/// The substitution read off one pair of columns: for each letter, the
/// ciphertext symbol seen against it.
pub open spec fn grid_row(e: Seq<char>, p: Seq<char>) -> Seq<char> {
    Seq::new(26, |x: int| grid_cell(e, p, letter(x), p.len() as int))
}

/// What a keyless analysis reports: for each of the `n` interleaved columns,
/// whether the ciphertext column is a letter substitution of the plaintext
/// column, and the decipher table (row 0 the alphabet, row `j + 1` the
/// substitution read off column `j`).
pub struct KeylessReport {
    pub column_scores: Vec<Option<Score>>,
    pub table: Vec<Vec<char>>,
}

/// One row of the decipher table.
fn decipher_row(e: &Vec<char>, p: &Vec<char>) -> (r: Vec<char>)
    requires
        p.len() <= e.len(),
    ensures
        r@ == grid_row(e@, p@),
{
    let mut r: Vec<char> = Vec::new();
    let mut x: usize = 0;
    while x < 26
        invariant
            x <= 26,
            p.len() <= e.len(),
            r@ =~= grid_row(e@, p@).subrange(0, x as int),
        decreases 26 - x,
    {
        let c = letter_at(x);
        let mut cell = ' ';
        let mut pos: usize = 0;
        while pos < p.len()
            invariant
                pos <= p.len(),
                p.len() <= e.len(),
                cell == grid_cell(e@, p@, c, pos as int),
            decreases p.len() - pos,
        {
            if p[pos] == c {
                cell = e[pos];
            }
            pos += 1;
        }
        r.push(cell);
        x += 1;
    }
    r
}

/// A keyless analysis for period `max_key_length`: the ciphertext and the
/// plaintext are split into that many interleaved columns, each pair scored
/// for substitution consistency, and a decipher table is read off them.
pub fn keyless(encrypted_text: &str, plaintext: &str, max_key_length: usize) -> (r: KeylessReport)
    requires
        0 < max_key_length <= plaintext@.len() <= encrypted_text@.len(),
    ensures
        r.column_scores.len() == max_key_length,
        forall|j: int|
            0 <= j < max_key_length ==> r.column_scores@[j] == crate::analysis::subst_spec(
                column(encrypted_text@, max_key_length as int, j),
                column(plaintext@, max_key_length as int, j),
            ),
        r.table.len() == max_key_length + 1,
        r.table@[0]@ == alpha(),
        forall|j: int|
            0 <= j < max_key_length ==> (#[trigger] r.table@[j + 1])@ == grid_row(
                column(encrypted_text@, max_key_length as int, j),
                column(plaintext@, max_key_length as int, j),
            ),
{
    let e = chars_of(encrypted_text);
    let p = chars_of(plaintext);
    let n = max_key_length;
    let mut scores: Vec<Option<Score>> = Vec::new();
    let mut table: Vec<Vec<char>> = Vec::new();
    table.push(alphabet_vec());
    let mut j: usize = 0;
    while j < n
        invariant
            j <= n,
            0 < n <= p.len() <= e.len(),
            e@ == encrypted_text@,
            p@ == plaintext@,
            scores.len() == j,
            table.len() == j + 1,
            table@[0]@ == alpha(),
            forall|k: int|
                0 <= k < j ==> scores@[k] == crate::analysis::subst_spec(
                    column(e@, n as int, k),
                    column(p@, n as int, k),
                ),
            forall|k: int|
                0 <= k < j ==> (#[trigger] table@[k + 1])@ == grid_row(
                    column(e@, n as int, k),
                    column(p@, n as int, k),
                ),
        decreases n - j,
    {
        let ec = column_of(&e, n, j);
        let pc = column_of(&p, n, j);
        proof {
            lemma_column_mono(e@, p@, n as int, j as int);
        }
        scores.push(crate::analysis::subst_vec(&ec, &pc));
        table.push(decipher_row(&ec, &pc));
        j += 1;
    }
    KeylessReport { column_scores: scores, table }
}

/// A column of a longer text is at least as long.
proof fn lemma_column_mono(e: Seq<char>, p: Seq<char>, n: int, j: int)
    requires
        p.len() <= e.len(),
    ensures
        column(p, n, j).len() <= column(e, n, j).len(),
    decreases e.len(),
{
    if e.len() > p.len() {
        lemma_column_mono(e.drop_last(), p, n, j);
    } else if p.len() > 0 {
        lemma_column_mono(e.drop_last(), p.drop_last(), n, j);
    }
}

} // verus!
verus! {

/// A table whose row 0 holds the symbols of `key` and whose `n` further rows
/// are blank (spaces), as wide as `key`.
pub fn create_decipher_grid(key: &str, n: usize) -> (r: Vec<Vec<char>>)
    ensures
        r.len() == n + 1,
        r@[0]@ == key@,
        forall|i: int| 1 <= i <= n ==> (#[trigger] r@[i])@ == Seq::new(key@.len(), |j: int| ' '),
{
    let k = chars_of(key);
    let w = k.len();
    let mut r: Vec<Vec<char>> = Vec::new();
    r.push(k);
    let mut i: usize = 0;
    while i < n
        invariant
            i <= n,
            w == key@.len(),
            r.len() == i + 1,
            r@[0]@ == key@,
            forall|m: int| 1 <= m <= i ==> (#[trigger] r@[m])@ == Seq::new(w as nat, |j: int| ' '),
        decreases n - i,
    {
        let mut row: Vec<char> = Vec::new();
        while row.len() < w
            invariant
                row.len() <= w,
                row@ =~= Seq::new(row.len() as nat, |j: int| ' '),
            decreases w - row.len(),
        {
            row.push(' ');
        }
        r.push(row);
        i += 1;
    }
    r
}

/// The rows of `g`, one after the other.
pub open spec fn concat_rows(g: Seq<Seq<char>>) -> Seq<char>
    decreases g.len(),
{
    if g.len() == 0 {
        Seq::empty()
    } else {
        concat_rows(g.drop_last()) + g.last()
    }
}

/// `g` cuts `s` into rows of `n` symbols: read in order they give `s`, every
/// row but the last is full, and the last is not empty.
pub open spec fn is_grid_of(g: Seq<Seq<char>>, s: Seq<char>, n: int) -> bool {
    &&& concat_rows(g) == s
    &&& forall|k: int| 0 <= k < g.len() - 1 ==> (#[trigger] g[k]).len() == n
    &&& g.len() > 0 ==> 0 < g.last().len() <= n
}

/// Cuts `s` into rows of `n` symbols; the last row may be shorter.
pub fn string_to_grid(s: &str, n: usize) -> (r: Vec<Vec<char>>)
    requires
        n > 0,
    ensures
        is_grid_of(rows_view(r@), s@, n as int),
{
    let v = chars_of(s);
    let mut grid: Vec<Vec<char>> = Vec::new();
    let mut row: Vec<char> = Vec::new();
    let mut i: usize = 0;
    while i < v.len()
        invariant
            i <= v.len(),
            n > 0,
            v@ == s@,
            concat_rows(rows_view(grid@)) + row@ == v@.subrange(0, i as int),
            forall|k: int| 0 <= k < grid.len() ==> (#[trigger] grid@[k])@.len() == n,
            row.len() < n,
        decreases v.len() - i,
    {
        let ghost before = concat_rows(rows_view(grid@)) + row@;
        row.push(v[i]);
        assert(v@.subrange(0, i + 1) =~= v@.subrange(0, i as int).push(v@[i as int]));
        assert(concat_rows(rows_view(grid@)) + row@ =~= before.push(v@[i as int]));
        if row.len() == n {
            let ghost g0 = rows_view(grid@);
            let ghost r0 = row@;
            grid.push(row);
            proof {
                assert(rows_view(grid@).drop_last() =~= g0);
                assert(rows_view(grid@).last() == r0);
                assert(concat_rows(rows_view(grid@)) == concat_rows(g0) + r0);
            }
            row = Vec::new();
            assert(concat_rows(rows_view(grid@)) + row@ =~= v@.subrange(0, i + 1));
        }
        i += 1;
    }
    if row.len() > 0 {
        let ghost g0 = rows_view(grid@);
        let ghost r0 = row@;
        grid.push(row);
        proof {
            assert(rows_view(grid@).drop_last() =~= g0);
            assert(rows_view(grid@).last() == r0);
            assert(concat_rows(rows_view(grid@)) == concat_rows(g0) + r0);
        }
    }
    assert(v@.subrange(0, v.len() as int) =~= v@);
    assert(concat_rows(rows_view(grid@)) =~= s@);
    grid
}

/// The `j`-th symbols of the first `m` rows of `g` that are long enough.
pub open spec fn column_of_rows(g: Seq<Seq<char>>, j: int, m: int) -> Seq<char>
    decreases m,
{
    if m <= 0 {
        Seq::empty()
    } else if j < g[m - 1].len() {
        column_of_rows(g, j, m - 1).push(g[m - 1][j])
    } else {
        column_of_rows(g, j, m - 1)
    }
}

/// The columns of `grid`, as many as its first row is wide; a shorter row
/// adds to the first columns only.
pub fn transpose(grid: &Vec<Vec<char>>) -> (r: Vec<Vec<char>>)
    ensures
        grid.len() == 0 ==> r.len() == 0,
        grid.len() > 0 ==> r.len() == grid@[0].len(),
        forall|j: int|
            0 <= j < r.len() ==> (#[trigger] r@[j])@ == column_of_rows(
                rows_view(grid@),
                j,
                grid.len() as int,
            ),
{
    let mut r: Vec<Vec<char>> = Vec::new();
    if grid.len() == 0 {
        return r;
    }
    let w = grid[0].len();
    let ghost g = rows_view(grid@);
    let mut j: usize = 0;
    while j < w
        invariant
            j <= w,
            grid.len() > 0,
            w == grid@[0].len(),
            g == rows_view(grid@),
            r.len() == j,
            forall|a: int| 0 <= a < j ==> (#[trigger] r@[a])@ == column_of_rows(g, a, grid.len() as int),
        decreases w - j,
    {
        let mut col: Vec<char> = Vec::new();
        let mut m: usize = 0;
        while m < grid.len()
            invariant
                m <= grid.len(),
                g == rows_view(grid@),
                col@ == column_of_rows(g, j as int, m as int),
            decreases grid.len() - m,
        {
            if j < grid[m].len() {
                col.push(grid[m][j]);
            }
            m += 1;
        }
        r.push(col);
        j += 1;
    }
    r
}

} // verus!
