//! Coordinate ascent over the letters of the second keyword: each position in
//! turn is set to every letter, and a trial is kept only when it scores
//! strictly higher than every earlier trial of the whole run.
use vstd::prelude::*;
use crate::alphabet::{all_upper, is_upper, letter, letter_at};
use crate::analysis::{aster_spec, aster_vec, match_spec, match_vec, MAX_TEXT};
use crate::score::Score;
use crate::table::{build_table, decode_with, lemma_table_of_perm, table_decode, table_of};

verus! {

/// How a candidate decoding is compared with the known text.
#[derive(Clone, Copy, Debug, PartialEq, Eq, Structural)]
pub enum Measure {
    /// The aster score, which gives partial credit to near misses.
    Aster,
    /// The exact match percentage.
    Match,
}

/// A keyword of `n` letters 'A'.
pub open spec fn all_a(n: int) -> Seq<char> {
    Seq::new(n as nat, |i: int| 'A')
}

/// The decoding of the cleaned `text` with cleaned first keyword `k1` and
/// second keyword `kw`.
pub open spec fn trial_decode(k1: Seq<char>, text: Seq<char>, kw: Seq<char>) -> Seq<char> {
    table_decode(table_of(k1, kw), text)
}

/// The score of one trial keyword against the known text `plain`.
pub open spec fn trial_score(
    m: Measure,
    k1: Seq<char>,
    text: Seq<char>,
    plain: Seq<char>,
    kw: Seq<char>,
) -> Score {
    match m {
        Measure::Aster => aster_spec(plain, trial_decode(k1, text, kw)),
        Measure::Match => match_spec(plain, trial_decode(k1, text, kw)),
    }
}

/// State of a search: current keyword, best score so far, and the decoding
/// that reached it.
pub struct SearchState {
    pub keyword: Seq<char>,
    pub best: Score,
    pub decoded: Seq<char>,
}

/// Letters 'A' up to the `n`-th tried at position `i` of `st.keyword`,
/// starting from the pick `pick`: the best score, the pick, and its decoding.
pub open spec fn scan(
    m: Measure,
    k1: Seq<char>,
    text: Seq<char>,
    plain: Seq<char>,
    st: SearchState,
    i: int,
    n: int,
) -> (Score, char, Seq<char>)
    decreases n,
{
    if n <= 0 {
        (st.best, st.keyword[i], st.decoded)
    } else {
        let (b, c, d) = scan(m, k1, text, plain, st, i, n - 1);
        let kw = st.keyword.update(i, letter(n - 1));
        let s = trial_score(m, k1, text, plain, kw);
        if s.beats(b) {
            (s, letter(n - 1), trial_decode(k1, text, kw))
        } else {
            (b, c, d)
        }
    }
}

/// Positions `0..n` of one round, each left at its best letter.
pub open spec fn sweep(
    m: Measure,
    k1: Seq<char>,
    text: Seq<char>,
    plain: Seq<char>,
    st: SearchState,
    n: int,
) -> SearchState
    decreases n,
{
    if n <= 0 {
        st
    } else {
        let s1 = sweep(m, k1, text, plain, st, n - 1);
        let (b, c, d) = scan(m, k1, text, plain, s1, n - 1, 26);
        SearchState { keyword: s1.keyword.update(n - 1, c), best: b, decoded: d }
    }
}

/// `rounds` full sweeps from `st`.
pub open spec fn ascent(
    m: Measure,
    k1: Seq<char>,
    text: Seq<char>,
    plain: Seq<char>,
    st: SearchState,
    rounds: int,
) -> SearchState
    decreases rounds,
{
    if rounds <= 0 {
        st
    } else {
        let s1 = ascent(m, k1, text, plain, st, rounds - 1);
        sweep(m, k1, text, plain, s1, s1.keyword.len() as int)
    }
}

/// The search for a second keyword of `len` letters: from all 'A' and score
/// 0, `rounds` sweeps.
pub open spec fn search_spec(
    m: Measure,
    k1: Seq<char>,
    text: Seq<char>,
    plain: Seq<char>,
    len: int,
    rounds: int,
) -> SearchState {
    ascent(
        m,
        k1,
        text,
        plain,
        SearchState { keyword: all_a(len), best: Score { num: 0, den: 1 }, decoded: Seq::empty() },
        rounds,
    )
}

/// The best score of a search is the score of the keyword it returns, or 0
/// when no trial scored above 0; and the decoding is that keyword's.
pub open spec fn consistent(
    m: Measure,
    k1: Seq<char>,
    text: Seq<char>,
    plain: Seq<char>,
    st: SearchState,
) -> bool {
    st.best.num == 0 || (st.best == trial_score(m, k1, text, plain, st.keyword) && st.decoded
        == trial_decode(k1, text, st.keyword))
}

/// The lengths for which scores are exact fractions of 64-bit integers.
pub open spec fn scorable(text: Seq<char>, plain: Seq<char>) -> bool {
    &&& text.len() <= MAX_TEXT || plain.len() <= MAX_TEXT
    &&& text.len() <= usize::MAX
    &&& plain.len() <= usize::MAX
}

proof fn lemma_scan(
    m: Measure,
    k1: Seq<char>,
    text: Seq<char>,
    plain: Seq<char>,
    st: SearchState,
    i: int,
    n: int,
)
    requires
        0 <= i < st.keyword.len(),
        0 <= n <= 26,
        st.best.wf(),
        all_upper(st.keyword),
        all_upper(text),
        scorable(text, plain),
    ensures
        ({
            let (b, c, d) = scan(m, k1, text, plain, st, i, n);
            &&& b.wf()
            &&& is_upper(c)
            &&& (c == st.keyword[i] && b == st.best && d == st.decoded) || (b == trial_score(
                m,
                k1,
                text,
                plain,
                st.keyword.update(i, c),
            ) && d == trial_decode(k1, text, st.keyword.update(i, c)) && b.num > 0)
        }),
    decreases n,
{
    if n > 0 {
        lemma_scan(m, k1, text, plain, st, i, n - 1);
        let kw = st.keyword.update(i, letter(n - 1));
        lemma_trial_wf(m, k1, text, plain, kw);
        crate::alphabet::lemma_ord_letter(n - 1);
        let (b, c, d) = scan(m, k1, text, plain, st, i, n - 1);
        let s = trial_score(m, k1, text, plain, kw);
        if s.beats(b) {
            let (x, y, z, w) = (s.num as int, b.den as int, b.num as int, s.den as int);
            assert(x > 0) by (nonlinear_arith)
                requires
                    x * y > z * w,
                    y > 0,
                    z >= 0,
                    w > 0,
                    x >= 0,
            ;
        }
    }
}

proof fn lemma_trial_wf(m: Measure, k1: Seq<char>, text: Seq<char>, plain: Seq<char>, kw: Seq<char>)
    requires
        all_upper(text),
        scorable(text, plain),
    ensures
        trial_score(m, k1, text, plain, kw).wf(),
        trial_decode(k1, text, kw).len() == text.len(),
{
    crate::analysis::lemma_scores_wf(plain, trial_decode(k1, text, kw));
}

/// One trial: decode with `kw` and score against the known text.
pub fn trial_on(m: Measure, k1: &Vec<char>, text: &Vec<char>, plain: &Vec<char>, kw: &Vec<char>) -> (r: (
    Score,
    Vec<char>,
))
    requires
        all_upper(k1@),
        all_upper(text@),
        all_upper(kw@),
        kw.len() > 0,
        scorable(text@, plain@),
    ensures
        r.0 == trial_score(m, k1@, text@, plain@, kw@),
        r.1@ == trial_decode(k1@, text@, kw@),
        r.0.wf(),
{
    proof {
        lemma_trial_wf(m, k1@, text@, plain@, kw@);
    }
    trial(m, k1, text, plain, kw)
}

fn trial(m: Measure, k1: &Vec<char>, text: &Vec<char>, plain: &Vec<char>, kw: &Vec<char>) -> (r: (
    Score,
    Vec<char>,
))
    requires
        all_upper(k1@),
        all_upper(text@),
        all_upper(kw@),
        kw.len() > 0,
        scorable(text@, plain@),
    ensures
        r.0 == trial_score(m, k1@, text@, plain@, kw@),
        r.1@ == trial_decode(k1@, text@, kw@),
{
    proof {
        lemma_table_of_perm(k1@, kw@);
    }
    let t = build_table(k1, kw);
    let d = decode_with(&t, text);
    let s = match m {
        Measure::Aster => aster_vec(plain, &d),
        Measure::Match => match_vec(plain, &d),
    };
    (s, d)
}

/// The coordinate-ascent search for a second keyword of `len` letters:
/// returns the keyword, the best score and the decoding that reached it.
pub fn search(
    m: Measure,
    k1: &Vec<char>,
    text: &Vec<char>,
    plain: &Vec<char>,
    len: usize,
    rounds: usize,
) -> (r: (Vec<char>, Score, Vec<char>))
    requires
        all_upper(k1@),
        all_upper(text@),
        scorable(text@, plain@),
    ensures
        ({
            let st = search_spec(m, k1@, text@, plain@, len as int, rounds as int);
            &&& r.0@ == st.keyword
            &&& r.1 == st.best
            &&& r.2@ == st.decoded
        }),
        r.0.len() == len,
        all_upper(r.0@),
        r.1.wf(),
        consistent(m, k1@, text@, plain@, SearchState { keyword: r.0@, best: r.1, decoded: r.2@ }),
{
    let mut kw: Vec<char> = Vec::new();
    while kw.len() < len
        invariant
            kw.len() <= len,
            kw@ =~= all_a(kw.len() as int),
        decreases len - kw.len(),
    {
        kw.push('A');
    }
    let mut best = Score::zero();
    let mut dec: Vec<char> = Vec::new();
    let ghost init = SearchState { keyword: kw@, best, decoded: dec@ };
    assert(consistent(m, k1@, text@, plain@, init));
    assert(kw@ =~= all_a(len as int));
    let mut round: usize = 0;
    while round < rounds
        invariant
            round <= rounds,
            all_upper(k1@),
            all_upper(text@),
            scorable(text@, plain@),
            init == (SearchState {
                keyword: all_a(len as int),
                best: Score { num: 0, den: 1 },
                decoded: Seq::empty(),
            }),
            (SearchState { keyword: kw@, best, decoded: dec@ }) == ascent(
                m,
                k1@,
                text@,
                plain@,
                init,
                round as int,
            ),
            kw.len() == len,
            all_upper(kw@),
            best.wf(),
            consistent(m, k1@, text@, plain@, SearchState { keyword: kw@, best, decoded: dec@ }),
        decreases rounds - round,
    {
        let ghost start = SearchState { keyword: kw@, best, decoded: dec@ };
        let mut i: usize = 0;
        while i < len
            invariant
                i <= len,
                kw.len() == len,
                start.keyword.len() == len,
                all_upper(k1@),
                all_upper(text@),
                scorable(text@, plain@),
                (SearchState { keyword: kw@, best, decoded: dec@ }) == sweep(
                    m,
                    k1@,
                    text@,
                    plain@,
                    start,
                    i as int,
                ),
                all_upper(kw@),
                best.wf(),
                consistent(m, k1@, text@, plain@, SearchState { keyword: kw@, best, decoded: dec@ }),
            decreases len - i,
        {
            let ghost cur = SearchState { keyword: kw@, best, decoded: dec@ };
            assert(consistent(m, k1@, text@, plain@, cur));
            let mut pick = kw[i];
            let mut j: usize = 0;
            while j < 26
                invariant
                    j <= 26,
                    i < len,
                    kw.len() == len,
                    all_upper(k1@),
                    all_upper(text@),
                    all_upper(cur.keyword),
                    cur.keyword.len() == len,
                    scorable(text@, plain@),
                    kw@ == cur.keyword.update(i as int, kw@[i as int]),
                    is_upper(kw@[i as int]),
                    (best, pick, dec@) == scan(m, k1@, text@, plain@, cur, i as int, j as int),
                    best.wf(),
                    cur.best.wf(),
                    consistent(m, k1@, text@, plain@, cur),
                decreases 26 - j,
            {
                proof {
                    lemma_scan(m, k1@, text@, plain@, cur, i as int, j as int);
                }
                let c = letter_at(j);
                kw.set(i, c);
                assert(kw@ =~= cur.keyword.update(i as int, letter(j as int)));
                proof {
                    assert forall|q: int| 0 <= q < kw@.len() implies is_upper(#[trigger] kw@[q]) by {
                        if q != i {
                            assert(kw@[q] == cur.keyword[q]);
                        }
                    }
                }
                let (s, d) = trial(m, k1, text, plain, &kw);
                proof {
                    lemma_trial_wf(m, k1@, text@, plain@, kw@);
                }
                if s.better_than(&best) {
                    best = s;
                    pick = c;
                    dec = d;
                }
                j += 1;
            }
            proof {
                lemma_scan(m, k1@, text@, plain@, cur, i as int, 26);
            }
            kw.set(i, pick);
            assert(kw@ =~= cur.keyword.update(i as int, pick));
            assert(cur.keyword.update(i as int, cur.keyword[i as int]) =~= cur.keyword);
            proof {
                assert forall|q: int| 0 <= q < kw@.len() implies is_upper(#[trigger] kw@[q]) by {
                    if q != i {
                        assert(kw@[q] == cur.keyword[q]);
                    }
                }
            }
            i += 1;
        }
        round += 1;
    }
    (kw, best, dec)
}

} // verus!
verus! {

/// `a` is at least as good as `b`.
pub open spec fn not_worse(a: Score, b: Score) -> bool {
    !b.beats(a)
}

proof fn lemma_not_worse_trans(a: Score, b: Score, c: Score)
    requires
        a.wf(),
        b.wf(),
        c.wf(),
        not_worse(a, b),
        not_worse(b, c),
    ensures
        not_worse(a, c),
{
    let (an, ad, bn, bd, cn, cd) = (
        a.num as int,
        a.den as int,
        b.num as int,
        b.den as int,
        c.num as int,
        c.den as int,
    );
    assert(an * cd >= cn * ad) by (nonlinear_arith)
        requires
            an * bd >= bn * ad,
            bn * cd >= cn * bd,
            ad > 0,
            bd > 0,
            cd > 0,
            an >= 0,
            bn >= 0,
            cn >= 0,
    {
        assert(an * bd * cd >= bn * ad * cd);
        assert(bn * cd * ad >= cn * bd * ad);
    }
}

proof fn lemma_scan_monotone(
    m: Measure,
    k1: Seq<char>,
    text: Seq<char>,
    plain: Seq<char>,
    st: SearchState,
    i: int,
    n: int,
)
    requires
        0 <= i < st.keyword.len(),
        0 <= n <= 26,
        st.best.wf(),
        all_upper(st.keyword),
        all_upper(text),
        scorable(text, plain),
    ensures
        not_worse(scan(m, k1, text, plain, st, i, n).0, st.best),
    decreases n,
{
    if n > 0 {
        lemma_scan_monotone(m, k1, text, plain, st, i, n - 1);
        lemma_scan(m, k1, text, plain, st, i, n - 1);
        let kw = st.keyword.update(i, letter(n - 1));
        lemma_trial_wf(m, k1, text, plain, kw);
        let (b, c, d) = scan(m, k1, text, plain, st, i, n - 1);
        let s = trial_score(m, k1, text, plain, kw);
        if s.beats(b) {
            let (sn, sd, bn, bd) = (s.num as int, s.den as int, b.num as int, b.den as int);
            assert(bn * sd <= sn * bd);
            lemma_not_worse_trans(s, b, st.best);
        }
    }
}

proof fn lemma_sweep_monotone(
    m: Measure,
    k1: Seq<char>,
    text: Seq<char>,
    plain: Seq<char>,
    st: SearchState,
    n: int,
)
    requires
        0 <= n <= st.keyword.len(),
        st.best.wf(),
        all_upper(st.keyword),
        all_upper(text),
        scorable(text, plain),
    ensures
        not_worse(sweep(m, k1, text, plain, st, n).best, st.best),
        sweep(m, k1, text, plain, st, n).best.wf(),
        sweep(m, k1, text, plain, st, n).keyword.len() == st.keyword.len(),
        all_upper(sweep(m, k1, text, plain, st, n).keyword),
    decreases n,
{
    if n > 0 {
        lemma_sweep_monotone(m, k1, text, plain, st, n - 1);
        let s1 = sweep(m, k1, text, plain, st, n - 1);
        lemma_scan(m, k1, text, plain, s1, n - 1, 26);
        lemma_scan_monotone(m, k1, text, plain, s1, n - 1, 26);
        let (b, c, d) = scan(m, k1, text, plain, s1, n - 1, 26);
        lemma_not_worse_trans(b, s1.best, st.best);
        let kw = s1.keyword.update(n - 1, c);
        assert forall|q: int| 0 <= q < kw.len() implies is_upper(#[trigger] kw[q]) by {
            if q != n - 1 {
                assert(kw[q] == s1.keyword[q]);
            }
        }
    } else {
        assert(not_worse(st.best, st.best)) by (nonlinear_arith)
            requires
                st.best.wf(),
        ;
    }
}

/// A search never regresses: after any number of rounds its best score is
/// at least the one it started from.
pub proof fn lemma_ascent_never_regresses(
    m: Measure,
    k1: Seq<char>,
    text: Seq<char>,
    plain: Seq<char>,
    st: SearchState,
    rounds: int,
)
    requires
        st.best.wf(),
        all_upper(st.keyword),
        all_upper(text),
        scorable(text, plain),
    ensures
        not_worse(ascent(m, k1, text, plain, st, rounds).best, st.best),
        ascent(m, k1, text, plain, st, rounds).best.wf(),
        ascent(m, k1, text, plain, st, rounds).keyword.len() == st.keyword.len(),
        all_upper(ascent(m, k1, text, plain, st, rounds).keyword),
    decreases rounds,
{
    if rounds > 0 {
        lemma_ascent_never_regresses(m, k1, text, plain, st, rounds - 1);
        let s1 = ascent(m, k1, text, plain, st, rounds - 1);
        lemma_sweep_monotone(m, k1, text, plain, s1, s1.keyword.len() as int);
        lemma_not_worse_trans(
            sweep(m, k1, text, plain, s1, s1.keyword.len() as int).best,
            s1.best,
            st.best,
        );
    } else {
        assert(not_worse(st.best, st.best)) by (nonlinear_arith)
            requires
                st.best.wf(),
        ;
    }
}

} // verus!
