//! Kasiski examination: the distances between repeated substrings, and the
//! factors that most of them share.
use vstd::prelude::*;
use crate::alphabet::chars_of;

verus! {

/// Texts longer than this are not examined: every count then fits in 64 bits.
pub const KASISKI_MAX: usize = 0x4000_0000;

/// How many candidate key lengths the examination reports.
pub const TOP_FACTORS: usize = 5;

/// Number of lengths `l` in `3..=len` for which the substrings of length `l`
/// starting at `p` and at `q` are equal and inside `t`.
pub open spec fn runs(t: Seq<char>, p: int, q: int, len: int) -> nat
    decreases len,
{
    if len < 3 {
        0
    } else {
        runs(t, p, q, len - 1) + if q + len <= t.len() && t.subrange(p, p + len) == t.subrange(
            q,
            q + len,
        ) {
            1nat
        } else {
            0nat
        }
    }
}

/// Repeated substrings (of length 3 to 10) at distance `d`, over the start
/// positions below `n`.
pub open spec fn at_distance(t: Seq<char>, d: int, n: int) -> nat
    decreases n,
{
    if n <= 0 {
        0
    } else {
        at_distance(t, d, n - 1) + runs(t, n - 1, n - 1 + d, 10)
    }
}

/// Distances below `dmax` that `f` divides, each counted once per repeat.
pub open spec fn factor_hits(t: Seq<char>, f: int, dmax: int) -> nat
    decreases dmax,
{
    if dmax <= 1 {
        0
    } else {
        factor_hits(t, f, dmax - 1) + if (dmax - 1) % f == 0 {
            at_distance(t, dmax - 1, t.len() as int)
        } else {
            0nat
        }
    }
}

/// How often `f` divides the distance between two occurrences of a repeated
/// substring; 0 for `f < 2` and for the excluded factors.
pub open spec fn factor_count(t: Seq<char>, excluded: Seq<usize>, f: int) -> nat {
    if f < 2 || excluded.contains(f as usize) || f > t.len() {
        0
    } else {
        factor_hits(t, f, t.len() as int)
    }
}

/// `a` ranks above `b`: it is more frequent, or as frequent and smaller.
pub open spec fn ranks_above(t: Seq<char>, excluded: Seq<usize>, a: int, b: int) -> bool {
    factor_count(t, excluded, a) > factor_count(t, excluded, b) || (factor_count(t, excluded, a)
        == factor_count(t, excluded, b) && a < b)
}

/// `r` lists the most frequent factors, best first, at most [`TOP_FACTORS`].
pub open spec fn top_factors(t: Seq<char>, excluded: Seq<usize>, r: Seq<usize>) -> bool {
    &&& r.len() <= TOP_FACTORS
    &&& forall|i: int| 0 <= i < r.len() ==> factor_count(t, excluded, #[trigger] r[i] as int) > 0
    &&& forall|i: int, j: int|
        0 <= i < j < r.len() ==> ranks_above(t, excluded, r[i] as int, r[j] as int)
    &&& forall|f: int|
        #![trigger factor_count(t, excluded, f)]
        factor_count(t, excluded, f) > 0 && !r.contains(f as usize) ==> r.len() == TOP_FACTORS
            && forall|i: int| 0 <= i < r.len() ==> ranks_above(t, excluded, r[i] as int, f)
}

proof fn lemma_runs_bound(t: Seq<char>, p: int, q: int, len: int)
    ensures
        runs(t, p, q, len) <= if len < 3 {
            0
        } else {
            len - 2
        },
    decreases len,
{
    if len >= 3 {
        lemma_runs_bound(t, p, q, len - 1);
    }
}

proof fn lemma_at_distance_bound(t: Seq<char>, d: int, n: int)
    requires
        n >= 0,
    ensures
        at_distance(t, d, n) <= 8 * n,
    decreases n,
{
    if n > 0 {
        lemma_at_distance_bound(t, d, n - 1);
        lemma_runs_bound(t, n - 1, n - 1 + d, 10);
    }
}

proof fn lemma_factor_hits_bound(t: Seq<char>, f: int, dmax: int)
    requires
        dmax >= 0,
    ensures
        factor_hits(t, f, dmax) <= 8 * t.len() * dmax,
    decreases dmax,
{
    if dmax > 1 {
        lemma_factor_hits_bound(t, f, dmax - 1);
        lemma_at_distance_bound(t, dmax - 1, t.len() as int);
        assert(8 * t.len() * (dmax - 1) + 8 * t.len() == 8 * t.len() * dmax) by (nonlinear_arith);
    }
}

/// Whether the substrings of length `len` at `p` and `q` are equal.
fn same_run(t: &Vec<char>, p: usize, q: usize, len: usize) -> (r: bool)
    requires
        p + len <= t.len(),
        q + len <= t.len(),
    ensures
        r == (t@.subrange(p as int, p + len) == t@.subrange(q as int, q + len)),
{
    let mut k: usize = 0;
    while k < len
        invariant
            k <= len,
            p + len <= t.len(),
            q + len <= t.len(),
            t@.subrange(p as int, p + k) == t@.subrange(q as int, q + k),
        decreases len - k,
    {
        if t[p + k] != t[q + k] {
            assert(t@.subrange(p as int, p + len)[k as int] != t@.subrange(q as int, q + len)[k as int]);
            return false;
        }
        assert(t@.subrange(p as int, p + k + 1) =~= t@.subrange(p as int, p + k).push(t@[p + k]));
        assert(t@.subrange(q as int, q + k + 1) =~= t@.subrange(q as int, q + k).push(t@[q + k]));
        k += 1;
    }
    true
}

/// Repeats at each distance: entry `d` is `at_distance(t, d, t.len())`.
fn repeats_by_distance(t: &Vec<char>) -> (r: Vec<u64>)
    requires
        t.len() <= KASISKI_MAX,
    ensures
        r.len() == t.len(),
        forall|d: int| 0 <= d < r.len() ==> r@[d] == at_distance(t@, d, t.len() as int),
{
    let n = t.len();
    let mut r: Vec<u64> = Vec::new();
    let mut d: usize = 0;
    while d < n
        invariant
            d <= n,
            n == t.len(),
            n <= KASISKI_MAX,
            r.len() == d,
            forall|e: int| 0 <= e < d ==> r@[e] == at_distance(t@, e, n as int),
        decreases n - d,
    {
        let mut total: u64 = 0;
        let mut p: usize = 0;
        while p < n
            invariant
                p <= n,
                d < n,
                n == t.len(),
                n <= KASISKI_MAX,
                total == at_distance(t@, d as int, p as int),
                total <= 8 * p,
            decreases n - p,
        {
            let mut c: u64 = 0;
            let mut len: usize = 3;
            while len <= 10
                invariant
                    3 <= len <= 11,
                    p < n,
                    d < n,
                    n == t.len(),
                    n <= KASISKI_MAX,
                    c == runs(t@, p as int, (p + d) as int, len - 1),
                    c <= len - 3,
                decreases 11 - len,
            {
                if p + d + len <= n && same_run(t, p, p + d, len) {
                    c += 1;
                }
                len += 1;
            }
            total += c;
            p += 1;
        }
        r.push(total);
        d += 1;
    }
    r
}

/// Whether `v` holds `x`.
fn holds_usize(v: &[usize], x: usize) -> (r: bool)
    ensures
        r == v@.contains(x),
{
    let mut i: usize = 0;
    while i < v.len()
        invariant
            i <= v.len(),
            forall|j: int| 0 <= j < i ==> v@[j] != x,
        decreases v.len() - i,
    {
        if v[i] == x {
            return true;
        }
        i += 1;
    }
    false
}

/// Entry `f` is `factor_count(t, excluded, f)`, for `f` up to `t.len()`.
fn factor_counts(t: &Vec<char>, excluded: &[usize]) -> (r: Vec<u64>)
    requires
        t.len() <= KASISKI_MAX,
    ensures
        r.len() == t.len() + 1,
        forall|f: int| 0 <= f < r.len() ==> r@[f] == factor_count(t@, excluded@, f),
{
    let n = t.len();
    let rep = repeats_by_distance(t);
    let mut r: Vec<u64> = Vec::new();
    let mut f: usize = 0;
    while f <= n
        invariant
            f <= n + 1,
            n == t.len(),
            n <= KASISKI_MAX,
            rep.len() == n,
            forall|d: int| 0 <= d < n ==> rep@[d] == at_distance(t@, d, n as int),
            r.len() == f,
            forall|g: int| 0 <= g < f ==> r@[g] == factor_count(t@, excluded@, g),
        decreases n + 1 - f,
    {
        if f < 2 || holds_usize(excluded, f) {
            r.push(0);
        } else {
            let mut c: u64 = 0;
            let mut d: usize = 1;
            while d < n
                invariant
                    1 <= d <= n,
                    2 <= f <= n,
                    n == t.len(),
                    n <= KASISKI_MAX,
                    rep.len() == n,
                    forall|e: int| 0 <= e < n ==> rep@[e] == at_distance(t@, e, n as int),
                    c == factor_hits(t@, f as int, d as int),
                decreases n - d,
            {
                proof {
                    lemma_factor_hits_bound(t@, f as int, d + 1);
                    assert(8 * n * (d + 1) <= 8 * 0x4000_0000 * 0x4000_0000) by (nonlinear_arith)
                        requires
                            n <= 0x4000_0000,
                            d + 1 <= 0x4000_0000,
                    ;
                }
                if d % f == 0 {
                    c += rep[d];
                }
                d += 1;
            }
            r.push(c);
        }
        f += 1;
    }
    r
}

/// The candidate key lengths of `ciphertext`: the factors (from 2 up, except
/// those in `excluded_factors`) that divide most distances between repeated
/// substrings of 3 to 10 symbols, most frequent first, ties to the smaller
/// factor, at most five.
pub fn kasiski_examination(ciphertext: &str, excluded_factors: &[usize]) -> (r: Vec<usize>)
    requires
        ciphertext@.len() <= KASISKI_MAX,
    ensures
        top_factors(ciphertext@, excluded_factors@, r@),
{
    let t = chars_of(ciphertext);
    let counts = factor_counts(&t, excluded_factors);
    let ghost tv = t@;
    let ghost ex = excluded_factors@;
    let mut r: Vec<usize> = Vec::new();
    let mut done = false;
    while r.len() < TOP_FACTORS && !done
        invariant
            tv == ciphertext@,
            ex == excluded_factors@,
            counts.len() == tv.len() + 1,
            forall|f: int| 0 <= f < counts.len() ==> counts@[f] == factor_count(tv, ex, f),
            r.len() <= TOP_FACTORS,
            forall|i: int| 0 <= i < r.len() ==> factor_count(tv, ex, #[trigger] r@[i] as int) > 0,
            forall|i: int, j: int|
                0 <= i < j < r.len() ==> ranks_above(tv, ex, r@[i] as int, r@[j] as int),
            forall|f: int|
                #![trigger factor_count(tv, ex, f)]
                factor_count(tv, ex, f) > 0 && !r@.contains(f as usize) ==> !done && forall|
                    i: int,
                | 0 <= i < r.len() ==> ranks_above(tv, ex, r@[i] as int, f),
        decreases TOP_FACTORS - r.len() + if done {
            0int
        } else {
            1int
        },
    {
        // the best factor not chosen yet
        let mut best: usize = 0;
        let mut found = false;
        let mut f: usize = 0;
        while f < counts.len()
            invariant
                f <= counts.len(),
                counts.len() == tv.len() + 1,
                forall|g: int| 0 <= g < counts.len() ==> counts@[g] == factor_count(tv, ex, g),
                found ==> best < f && factor_count(tv, ex, best as int) > 0 && !r@.contains(best),
                forall|g: int|
                    #![trigger factor_count(tv, ex, g)]
                    0 <= g < f && factor_count(tv, ex, g) > 0 && !r@.contains(g as usize)
                        ==> found && (g == best || ranks_above(tv, ex, best as int, g)),
            decreases counts.len() - f,
        {
            if counts[f] > 0 && !holds_usize(r.as_slice(), f) {
                if !found || counts[f] > counts[best] {
                    proof {
                        assert forall|g: int|
                            #![trigger factor_count(tv, ex, g)]
                            0 <= g < f && factor_count(tv, ex, g) > 0 && !r@.contains(g as usize)
                                implies ranks_above(tv, ex, f as int, g) by {
                            assert(factor_count(tv, ex, f as int) == counts@[f as int]);
                        }
                    }
                    best = f;
                    found = true;
                } else {
                    proof {
                        assert(factor_count(tv, ex, f as int) == counts@[f as int]);
                        assert(factor_count(tv, ex, best as int) == counts@[best as int]);
                        assert(ranks_above(tv, ex, best as int, f as int));
                    }
                }
            }
            f += 1;
        }
        if found {
            let ghost old_r = r@;
            r.push(best);
            proof {
                assert(r@[old_r.len() as int] == best);
                assert forall|g: int|
                    #![trigger factor_count(tv, ex, g)]
                    factor_count(tv, ex, g) > 0 && !r@.contains(g as usize) implies !done && forall|
                        i: int,
                    | 0 <= i < r.len() ==> ranks_above(tv, ex, r@[i] as int, g) by {
                    assert(0 <= g <= tv.len());
                    assert(!old_r.contains(g as usize)) by {
                        if old_r.contains(g as usize) {
                            let k = choose|k: int| 0 <= k < old_r.len() && old_r[k] == g as usize;
                            assert(r@[k] == g as usize);
                        }
                    }
                    assert(g != best);
                    assert forall|i: int| 0 <= i < r.len() implies ranks_above(
                        tv,
                        ex,
                        r@[i] as int,
                        g,
                    ) by {
                        if i < old_r.len() {
                            assert(r@[i] == old_r[i]);
                        }
                    }
                }
                assert forall|i: int, j: int|
                    0 <= i < j < r.len() implies ranks_above(tv, ex, r@[i] as int, r@[j] as int) by {
                    if j == old_r.len() {
                        assert(old_r[i] == r@[i]);
                        assert(!old_r.contains(best));
                    }
                }
            }
        } else {
            proof {
                assert forall|g: int|
                    #![trigger factor_count(tv, ex, g)]
                    factor_count(tv, ex, g) > 0 && !r@.contains(g as usize) implies false by {
                    assert(0 <= g <= tv.len());
                }
            }
            done = true;
        }
    }
    proof {
        assert forall|f: int|
            #![trigger factor_count(tv, ex, f)]
            factor_count(tv, ex, f) > 0 && !r@.contains(f as usize) implies r.len() == TOP_FACTORS
                && forall|i: int| 0 <= i < r.len() ==> ranks_above(tv, ex, r@[i] as int, f) by {
        }
    }
    r
}

} // verus!
