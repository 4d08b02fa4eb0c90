//! Letter statistics: occurrence counts, the index of coincidence, and the
//! interleaved columns of a text for a trial period.
use vstd::prelude::*;
use crate::alphabet::{chars_of, clean, clean_text, is_upper, lemma_clean, letter, ord_of};
use crate::analysis::MAX_TEXT;
use crate::score::Score;

verus! {

/// Occurrences of `c` in `s`.
pub open spec fn count(s: Seq<char>, c: char) -> nat
    decreases s.len(),
{
    if s.len() == 0 {
        0
    } else {
        count(s.drop_last(), c) + if s.last() == c {
            1nat
        } else {
            0nat
        }
    }
}

/// Ordered pairs of distinct positions of `s` that hold the same symbol:
/// the sum of `f * (f - 1)` over the symbol frequencies `f`.
pub open spec fn pairs(s: Seq<char>) -> nat
    decreases s.len(),
{
    if s.len() == 0 {
        0
    } else {
        pairs(s.drop_last()) + 2 * count(s.drop_last(), s.last())
    }
}

/// The index of coincidence of a sequence: equal pairs over all pairs;
/// undefined (`None`) for fewer than two symbols.
pub open spec fn ioc_of(s: Seq<char>) -> Option<Score> {
    if s.len() < 2 {
        None
    } else {
        Some(Score { num: pairs(s) as u64, den: (s.len() * (s.len() - 1)) as u64 })
    }
}

/// Column `i` of `s` for period `k`: the symbols at positions `i, i + k, ...`.
pub open spec fn column(s: Seq<char>, k: int, i: int) -> Seq<char>
    decreases s.len(),
{
    if s.len() == 0 {
        Seq::empty()
    } else if s.len() - 1 >= i && (s.len() - 1 - i) % k == 0 {
        column(s.drop_last(), k, i).push(s.last())
    } else {
        column(s.drop_last(), k, i)
    }
}

pub proof fn lemma_column_len(s: Seq<char>, k: int, i: int)
    ensures
        column(s, k, i).len() <= s.len(),
    decreases s.len(),
{
    if s.len() > 0 {
        lemma_column_len(s.drop_last(), k, i);
    }
}

pub proof fn lemma_count_bound(s: Seq<char>, c: char)
    ensures
        count(s, c) <= s.len(),
    decreases s.len(),
{
    if s.len() > 0 {
        lemma_count_bound(s.drop_last(), c);
    }
}

pub proof fn lemma_pairs_bound(s: Seq<char>)
    ensures
        pairs(s) <= s.len() * (s.len() - 1),
    decreases s.len(),
{
    if s.len() > 0 {
        let n = s.len() as int;
        lemma_pairs_bound(s.drop_last());
        lemma_count_bound(s.drop_last(), s.last());
        assert((n - 1) * (n - 2) + 2 * (n - 1) == n * (n - 1)) by (nonlinear_arith);
    }
}

proof fn lemma_pairs_repeated(s: Seq<char>, c: char)
    requires
        forall|i: int| 0 <= i < s.len() ==> s[i] == c,
    ensures
        count(s, c) == s.len(),
        pairs(s) == s.len() * (s.len() - 1),
    decreases s.len(),
{
    if s.len() > 0 {
        let n = s.len() as int;
        lemma_pairs_repeated(s.drop_last(), c);
        assert((n - 1) * (n - 2) + 2 * (n - 1) == n * (n - 1)) by (nonlinear_arith);
    }
}

/// A text made of one letter repeated `n >= 2` times has index of
/// coincidence exactly 1.
pub proof fn lemma_ioc_repeated(s: Seq<char>, c: char)
    requires
        is_upper(c),
        s.len() >= 2,
        s.len() <= MAX_TEXT,
        forall|i: int| 0 <= i < s.len() ==> s[i] == c,
    ensures
        ioc_of(clean(s)) == Some(Score { num: (s.len() * (s.len() - 1)) as u64, den: (s.len() * (
        s.len() - 1)) as u64 }),
{
    lemma_clean(s);
    assert(crate::alphabet::all_upper(s));
    lemma_pairs_repeated(s, c);
}

proof fn lemma_pairs_distinct(s: Seq<char>)
    requires
        s.no_duplicates(),
    ensures
        pairs(s) == 0,
    decreases s.len(),
{
    if s.len() > 0 {
        let p = s.drop_last();
        assert(p.no_duplicates());
        lemma_pairs_distinct(p);
        lemma_count_absent(p, s.last());
    }
}

proof fn lemma_count_absent(s: Seq<char>, c: char)
    requires
        !s.contains(c),
    ensures
        count(s, c) == 0,
    decreases s.len(),
{
    if s.len() > 0 {
        assert(s.drop_last().contains(c) ==> s.contains(c));
        lemma_count_absent(s.drop_last(), c);
    }
}

/// A text in which no letter repeats (each letter of the alphabet at most
/// once, as in a perfectly even spread over the alphabet) has index of
/// coincidence exactly 0.
pub proof fn lemma_ioc_distinct(s: Seq<char>)
    requires
        clean(s).len() >= 2,
        clean(s).len() <= MAX_TEXT,
        clean(s).no_duplicates(),
    ensures
        ioc_of(clean(s)) matches Some(r) && r.num == 0,
{
    lemma_pairs_distinct(clean(s));
}

/// The ordered equal pairs of `s`.
pub fn count_pairs(s: &Vec<char>) -> (r: u64)
    requires
        s.len() <= MAX_TEXT,
    ensures
        r == pairs(s@),
{
    let mut total: u64 = 0;
    let mut k: usize = 0;
    while k < s.len()
        invariant
            k <= s.len(),
            s.len() <= MAX_TEXT,
            total == pairs(s@.subrange(0, k as int)),
        decreases s.len() - k,
    {
        let ghost pre = s@.subrange(0, k as int);
        assert(s@.subrange(0, k + 1).drop_last() =~= pre);
        proof {
            lemma_pairs_bound(s@.subrange(0, k + 1));
            assert((k + 1) * k <= 0xffff_ffff * 0xffff_ffff) by (nonlinear_arith)
                requires
                    k < 0xffff_ffff,
            ;
        }
        let c = s[k];
        let mut same: u64 = 0;
        let mut j: usize = 0;
        while j < k
            invariant
                j <= k,
                k < s.len(),
                same == count(s@.subrange(0, j as int), c),
                same <= j,
            decreases k - j,
        {
            assert(s@.subrange(0, j + 1).drop_last() =~= s@.subrange(0, j as int));
            if s[j] == c {
                same += 1;
            }
            j += 1;
        }
        assert(s@.subrange(0, k as int) =~= pre);
        total += 2 * same;
        k += 1;
    }
    assert(s@.subrange(0, s.len() as int) =~= s@);
    total
}

/// The index of coincidence of the sequence `s` (see [`ioc_of`]).
pub fn ioc_vec(s: &Vec<char>) -> (r: Option<Score>)
    requires
        s.len() <= MAX_TEXT,
    ensures
        r == ioc_of(s@),
{
    let n = s.len();
    if n < 2 {
        None
    } else {
        let p = count_pairs(s);
        proof {
            assert((n as int) * (n - 1) <= 0xffff_ffff * 0xffff_ffff) by (nonlinear_arith)
                requires
                    n <= 0xffff_ffff,
            ;
        }
        Some(Score { num: p, den: (n as u64) * ((n - 1) as u64) })
    }
}

/// The index of coincidence of the letters of `text` (upper-cased; other
/// symbols dropped): `sum f * (f - 1) / (N * (N - 1))` over the letter
/// frequencies `f`, `None` for fewer than two letters.
pub fn index_of_coincidence(text: &str) -> (r: Option<Score>)
    requires
        text@.len() <= MAX_TEXT,
    ensures
        r == ioc_of(clean(text@)),
{
    let t = clean_text(&chars_of(text));
    proof {
        lemma_clean(text@);
    }
    ioc_vec(&t)
}

/// Column `i` of `s` for period `k`.
pub fn column_of(s: &Vec<char>, k: usize, i: usize) -> (r: Vec<char>)
    requires
        k > 0,
    ensures
        r@ == column(s@, k as int, i as int),
{
    let mut r: Vec<char> = Vec::new();
    let mut p: usize = 0;
    while p < s.len()
        invariant
            k > 0,
            p <= s.len(),
            r@ == column(s@.subrange(0, p as int), k as int, i as int),
        decreases s.len() - p,
    {
        assert(s@.subrange(0, p + 1).drop_last() =~= s@.subrange(0, p as int));
        if p >= i && (p - i) % k == 0 {
            r.push(s[p]);
        }
        p += 1;
    }
    assert(s@.subrange(0, s.len() as int) =~= s@);
    r
}

/// The index of coincidence of each of the `period` interleaved columns of
/// the letters of `text`; the basis of the Friedman and phi tests.
pub fn column_iocs(text: &str, period: usize) -> (r: Vec<Option<Score>>)
    requires
        text@.len() <= MAX_TEXT,
        period > 0,
    ensures
        r.len() == period,
        forall|i: int| 0 <= i < period ==> r@[i] == ioc_of(column(clean(text@), period as int, i)),
{
    let t = clean_text(&chars_of(text));
    proof {
        lemma_clean(text@);
    }
    let mut r: Vec<Option<Score>> = Vec::new();
    let mut i: usize = 0;
    while i < period
        invariant
            i <= period,
            period > 0,
            t@ == clean(text@),
            t.len() <= MAX_TEXT,
            r.len() == i,
            forall|j: int| 0 <= j < i ==> r@[j] == ioc_of(column(t@, period as int, j)),
        decreases period - i,
    {
        let c = column_of(&t, period, i);
        proof {
            lemma_column_len(t@, period as int, i as int);
        }
        r.push(ioc_vec(&c));
        i += 1;
    }
    r
}

/// Occurrences of each letter among the letters of `text` (either case), by
/// alphabet position.
pub fn letter_counts(text: &str) -> (r: Vec<u64>)
    ensures
        r.len() == 26,
        forall|x: int| 0 <= x < 26 ==> r@[x] == count(clean(text@), letter(x)),
{
    let t = clean_text(&chars_of(text));
    proof {
        lemma_clean(text@);
    }
    let mut r: Vec<u64> = Vec::new();
    while r.len() < 26
        invariant
            r.len() <= 26,
            forall|x: int| 0 <= x < r.len() ==> r@[x] == 0,
        decreases 26 - r.len(),
    {
        r.push(0);
    }
    let mut k: usize = 0;
    while k < t.len()
        invariant
            k <= t.len(),
            t@ == clean(text@),
            crate::alphabet::all_upper(t@),
            r.len() == 26,
            forall|x: int| 0 <= x < 26 ==> r@[x] == count(t@.subrange(0, k as int), letter(x)),
            forall|x: int| 0 <= x < 26 ==> r@[x] <= k,
        decreases t.len() - k,
    {
        assert(t@.subrange(0, k + 1).drop_last() =~= t@.subrange(0, k as int));
        let x = ord_of(t[k]);
        proof {
            crate::alphabet::lemma_letter_ord(t@[k as int]);
            assert forall|y: int| 0 <= y < 26 && y != x implies letter(y) != t@[k as int] by {
                crate::alphabet::lemma_ord_letter(y);
            }
        }
        r.set(x, r[x] + 1);
        k += 1;
    }
    assert(t@.subrange(0, t.len() as int) =~= t@);
    r
}

} // verus!
