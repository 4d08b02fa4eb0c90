//! The Kullback test: the text is cut into rows of a trial width, and the
//! mean index of coincidence of the resulting columns is taken per width.
use vstd::prelude::*;
use crate::alphabet::chars_of;
use crate::analysis::MAX_TEXT;
use crate::score::Score;
use crate::stats::{count_pairs, lemma_pairs_bound, pairs};
use crate::table::rows_view;

verus! {

/// The widths the test tries are `1..KULLBACK_WIDTHS`.
pub const KULLBACK_WIDTHS: usize = 60;

/// `s` cut into full rows of `n` symbols (a shorter last row is dropped) and
/// read by columns: column `i` holds the symbols at `i, i + n, ...` of the full
/// rows. `None` when `s` is empty, `n` is 0, or no row is full.
pub open spec fn split_spec(s: Seq<char>, n: int) -> Option<Seq<Seq<char>>> {
    if s.len() == 0 || n <= 0 || (s.len() as int) / n == 0 {
        None
    } else {
        Some(Seq::new(n as nat, |i: int| Seq::new(((s.len() as int) / n) as nat, |j: int| s[j * n + i])))
    }
}

/// Sum of the equal pairs of the first `k` rows.
pub open spec fn sum_pairs(rows: Seq<Seq<char>>, k: int) -> nat
    decreases k,
{
    if k <= 0 {
        0
    } else {
        sum_pairs(rows, k - 1) + pairs(rows[k - 1])
    }
}

/// The mean index of coincidence of rows that all have the same length of at
/// least two: equal pairs over all pairs, summed over the rows. `None` when
/// there are no rows, rows are shorter than two, or lengths differ.
pub open spec fn mean_ioc(rows: Seq<Seq<char>>) -> Option<Score> {
    if rows.len() == 0 || rows[0].len() < 2 || exists|i: int|
        0 <= i < rows.len() && #[trigger] rows[i].len() != rows[0].len() {
        None
    } else {
        let l = rows[0].len() as int;
        Some(
            Score {
                num: sum_pairs(rows, rows.len() as int) as u64,
                den: (rows.len() * l * (l - 1)) as u64,
            },
        )
    }
}

/// Total number of symbols in the first `k` rows.
pub open spec fn total_len(rows: Seq<Seq<char>>, k: int) -> nat
    decreases k,
{
    if k <= 0 {
        0
    } else {
        total_len(rows, k - 1) + rows[k - 1].len()
    }
}

/// Cuts `s` into full rows of `n` symbols and reads them by columns (see
/// [`split_spec`]).
pub fn split_and_transform(s: &str, n: usize) -> (r: Option<Vec<Vec<char>>>)
    ensures
        match r {
            Some(t) => split_spec(s@, n as int) == Some(rows_view(t@)),
            None => split_spec(s@, n as int) is None,
        },
{
    let chars = chars_of(s);
    if chars.len() == 0 || n == 0 {
        return None;
    }
    let full = chars.len() / n;
    if full == 0 {
        return None;
    }
    let ghost want = split_spec(s@, n as int)->Some_0;
    let mut t: Vec<Vec<char>> = Vec::new();
    let mut i: usize = 0;
    while i < n
        invariant
            i <= n,
            n > 0,
            chars@ == s@,
            full == chars.len() / n,
            full > 0,
            want == split_spec(s@, n as int)->Some_0,
            split_spec(s@, n as int) is Some,
            t.len() == i,
            forall|a: int| 0 <= a < i ==> #[trigger] t@[a]@ == want[a],
        decreases n - i,
    {
        let mut row: Vec<char> = Vec::new();
        let mut j: usize = 0;
        while j < full
            invariant
                j <= full,
                i < n,
                chars@ == s@,
                full == chars.len() / n,
                want == split_spec(s@, n as int)->Some_0,
                split_spec(s@, n as int) is Some,
                row@ =~= want[i as int].subrange(0, j as int),
            decreases full - j,
        {
            proof {
                assert((j as int) * (n as int) + (i as int) < (full as int) * (n as int)) by (nonlinear_arith)
                    requires
                        j < full,
                        i < n,
                ;
                assert((full as int) * (n as int) <= chars.len()) by (nonlinear_arith)
                    requires
                        full == (chars.len() as int) / (n as int),
                        n > 0,
                ;
            }
            row.push(chars[j * n + i]);
            j += 1;
        }
        t.push(row);
        i += 1;
    }
    assert(rows_view(t@) =~= want);
    Some(t)
}

/// The mean index of coincidence of the rows of `input` (see [`mean_ioc`]).
pub fn kullback_ioc(input: &Vec<Vec<char>>) -> (r: Option<Score>)
    requires
        total_len(rows_view(input@), input.len() as int) <= MAX_TEXT,
    ensures
        r == mean_ioc(rows_view(input@)),
{
    let ghost rows = rows_view(input@);
    if input.len() == 0 || input[0].len() < 2 {
        return None;
    }
    let l = input[0].len();
    let mut sum: u64 = 0;
    let mut k: usize = 0;
    while k < input.len()
        invariant
            k <= input.len(),
            rows == rows_view(input@),
            l == rows[0].len(),
            l >= 2,
            total_len(rows, input.len() as int) <= MAX_TEXT,
            forall|a: int| 0 <= a < k ==> #[trigger] rows[a].len() == l,
            sum == sum_pairs(rows, k as int),
            sum <= (k as int) * l * (l - 1),
            total_len(rows, k as int) == (k as int) * l,
        decreases input.len() - k,
    {
        if input[k].len() != l {
            assert(rows[k as int].len() != rows[0].len());
            return None;
        }
        proof {
            lemma_total_len_mono(rows, k + 1, input.len() as int);
            lemma_pairs_bound(rows[k as int]);
            let kk = k as int;
            let ll = l as int;
            assert((kk + 1) * ll == kk * ll + ll) by (nonlinear_arith);
            assert((kk + 1) * ll * (ll - 1) <= 0xffff_ffff * ll) by (nonlinear_arith)
                requires
                    (kk + 1) * ll <= 0xffff_ffff,
                    ll >= 2,
            ;
            assert(0xffff_ffff * ll <= 0xffff_ffff * 0xffff_ffff) by (nonlinear_arith)
                requires
                    ll <= 0xffff_ffff,
            ;
            assert((kk + 1) * ll * (ll - 1) == kk * ll * (ll - 1) + ll * (ll - 1)) by (nonlinear_arith);
        }
        let p = count_pairs(&input[k]);
        sum += p;
        k += 1;
    }
    let n = input.len();
    proof {
        let nn = n as int;
        let ll = l as int;
        assert(nn * ll * (ll - 1) <= 0xffff_ffff * 0xffff_ffff) by (nonlinear_arith)
            requires
                nn * ll <= 0xffff_ffff,
                ll <= 0xffff_ffff,
                ll >= 2,
        ;
        assert(nn * ll * (ll - 1) > 0) by (nonlinear_arith)
            requires
                nn >= 1,
                ll >= 2,
        ;
        assert(nn * ll <= 0xffff_ffff);
    }
    let den = (n as u64) * (l as u64) * ((l - 1) as u64);
    Some(Score { num: sum, den })
}

proof fn lemma_total_len_mono(rows: Seq<Seq<char>>, a: int, b: int)
    requires
        0 <= a <= b,
    ensures
        total_len(rows, a) <= total_len(rows, b),
    decreases b - a,
{
    if a < b {
        lemma_total_len_mono(rows, a, b - 1);
    }
}

/// The Kullback sweep over `encrypted_text`: entry `w` (for `1 <= w < 60`)
/// is the mean index of coincidence of the columns for width `w`; entry 0,
/// and any width without a full row, is `None`. The key length is read off
/// the peaks of this profile; `_key_length` does not change it.
pub fn kullback(encrypted_text: &str, _key_length: usize) -> (r: Vec<Option<Score>>)
    requires
        encrypted_text@.len() <= MAX_TEXT,
    ensures
        r.len() == KULLBACK_WIDTHS,
        r@[0] is None,
        forall|w: int|
            1 <= w < KULLBACK_WIDTHS ==> r@[w] == match split_spec(encrypted_text@, w) {
                Some(rows) => mean_ioc(rows),
                None => None,
            },
{
    let mut r: Vec<Option<Score>> = Vec::new();
    r.push(None);
    let mut w: usize = 1;
    while w < KULLBACK_WIDTHS
        invariant
            1 <= w <= KULLBACK_WIDTHS,
            r.len() == w,
            r@[0] is None,
            encrypted_text@.len() <= MAX_TEXT,
            forall|v: int|
                1 <= v < w ==> r@[v] == match split_spec(encrypted_text@, v) {
                    Some(rows) => mean_ioc(rows),
                    None => None,
                },
        decreases KULLBACK_WIDTHS - w,
    {
        match split_and_transform(encrypted_text, w) {
            Some(t) => {
                proof {
                    lemma_split_total(encrypted_text@, w as int);
                    assert(rows_view(t@).len() == t@.len());
                    assert(rows_view(t@).len() == w);
                }
                r.push(kullback_ioc(&t));
            },
            None => {
                r.push(None);
            },
        }
        w += 1;
    }
    r
}

proof fn lemma_split_total(s: Seq<char>, n: int)
    requires
        split_spec(s, n) is Some,
    ensures
        total_len(split_spec(s, n)->Some_0, n) <= s.len(),
{
    let rows = split_spec(s, n)->Some_0;
    let full = (s.len() as int) / n;
    assert forall|k: int| 0 <= k <= n implies #[trigger] total_len(rows, k) == k * full by {
        lemma_total_len_rows(rows, k, full);
    }
    assert(n * full <= s.len()) by (nonlinear_arith)
        requires
            full == (s.len() as int) / n,
            n > 0,
    ;
}

proof fn lemma_total_len_rows(rows: Seq<Seq<char>>, k: int, l: int)
    requires
        0 <= k <= rows.len(),
        forall|i: int| 0 <= i < rows.len() ==> #[trigger] rows[i].len() == l,
    ensures
        total_len(rows, k) == k * l,
    decreases k,
{
    if k > 0 {
        lemma_total_len_rows(rows, k - 1, l);
        assert(rows[k - 1].len() == l);
        assert(total_len(rows, k) == total_len(rows, k - 1) + rows[k - 1].len());
        assert(k * l == (k - 1) * l + l) by (nonlinear_arith);
    } else {
        assert(k * l == 0) by (nonlinear_arith)
            requires
                k == 0,
        ;
    }
}

} // verus!
