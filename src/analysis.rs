//! Comparison scores between a candidate decoding and known text, text
//! statistics, and periodicity tests.
use vstd::prelude::*;
use crate::alphabet::{chars_of, is_upper, ord, string_of, UNKNOWN};
use crate::score::Score;

pub use crate::kasiski::kasiski_examination;
pub use crate::stats::index_of_coincidence;

verus! {

/// Texts longer than this are not scored: every count then fits in 64 bits
/// together with its weights.
pub const MAX_TEXT: usize = 0xffff_ffff;

/// Weight of an exact match in the aster score; a near miss at alphabet
/// distance `d` earns `ASTER_UNIT / (1 + d)`, which is exact for `d <= 13`.
pub const ASTER_UNIT: u64 = 360360;

/// `s` without its spaces.
pub open spec fn strip(s: Seq<char>) -> Seq<char>
    decreases s.len(),
{
    if s.len() == 0 {
        Seq::empty()
    } else if s.last() == ' ' {
        strip(s.drop_last())
    } else {
        strip(s.drop_last()).push(s.last())
    }
}

pub open spec fn min(a: int, b: int) -> int {
    if a <= b {
        a
    } else {
        b
    }
}

pub open spec fn max(a: int, b: int) -> int {
    if a >= b {
        a
    } else {
        b
    }
}

/// Number of positions below `n` at which `a` and `b` agree.
pub open spec fn agree(a: Seq<char>, b: Seq<char>, n: int) -> nat
    decreases n,
{
    if n <= 0 {
        0
    } else {
        agree(a, b, n - 1) + if a[n - 1] == b[n - 1] {
            1nat
        } else {
            0nat
        }
    }
}

/// The match percentage of two texts: after removing spaces, the share of
/// positions (of the longer text) at which both hold the same symbol; 0 when
/// both are empty.
pub open spec fn match_spec(a: Seq<char>, b: Seq<char>) -> Score {
    let x = strip(a);
    let y = strip(b);
    let n = max(x.len() as int, y.len() as int);
    Score {
        num: agree(x, y, min(x.len() as int, y.len() as int)) as u64,
        den: if n == 0 {
            1
        } else {
            n as u64
        },
    }
}

/// Cyclic alphabet distance between two symbols, from 0 to 13.
pub open spec fn cyclic_distance(c1: char, c2: char) -> int {
    let d1 = (c1 as int - c2 as int + 26) % 26;
    let d2 = (c2 as int - c1 as int + 26) % 26;
    if d1 <= d2 {
        d1
    } else {
        d2
    }
}

/// Credit for one aligned pair: a full unit for equal symbols, less the
/// further apart they stand in the alphabet.
pub open spec fn aster_weight(c1: char, c2: char) -> int {
    if c1 == c2 {
        ASTER_UNIT as int
    } else {
        ASTER_UNIT as int / (1 + cyclic_distance(c1, c2))
    }
}

pub open spec fn skipped(c1: char, c2: char) -> bool {
    c1 == UNKNOWN || c2 == UNKNOWN
}

/// Total credit and number of compared pairs over the first `n` positions.
pub open spec fn aster_sums(a: Seq<char>, b: Seq<char>, n: int) -> (int, int)
    decreases n,
{
    if n <= 0 {
        (0, 0)
    } else {
        let (s, c) = aster_sums(a, b, n - 1);
        if skipped(a[n - 1], b[n - 1]) {
            (s, c)
        } else {
            (s + aster_weight(a[n - 1], b[n - 1]), c + 1)
        }
    }
}

/// The aster score: the mean credit over compared pairs (positions where
/// neither text has the unknown symbol), 0 when none is compared.
pub open spec fn aster_spec(a: Seq<char>, b: Seq<char>) -> Score {
    let (s, c) = aster_sums(a, b, min(a.len() as int, b.len() as int));
    if c == 0 {
        Score { num: 0, den: 1 }
    } else {
        Score { num: s as u64, den: (ASTER_UNIT as int * c) as u64 }
    }
}

proof fn lemma_strip(s: Seq<char>)
    ensures
        strip(s).len() <= s.len(),
        (forall|i: int| 0 <= i < s.len() ==> s[i] != ' ') ==> strip(s) == s,
    decreases s.len(),
{
    if s.len() > 0 {
        lemma_strip(s.drop_last());
        if forall|i: int| 0 <= i < s.len() ==> s[i] != ' ' {
            assert(s.last() == s[s.len() - 1]);
            assert(s.drop_last().push(s.last()) =~= s);
        }
    }
}

proof fn lemma_agree_bound(a: Seq<char>, b: Seq<char>, n: int)
    requires
        n >= 0,
    ensures
        agree(a, b, n) <= n,
    decreases n,
{
    if n > 0 {
        lemma_agree_bound(a, b, n - 1);
    }
}

proof fn lemma_agree_symmetric(a: Seq<char>, b: Seq<char>, n: int)
    ensures
        agree(a, b, n) == agree(b, a, n),
    decreases n,
{
    if n > 0 {
        lemma_agree_symmetric(a, b, n - 1);
    }
}

/// The match percentage does not depend on the order of its arguments.
pub proof fn lemma_match_symmetric(a: Seq<char>, b: Seq<char>)
    ensures
        match_spec(a, b) == match_spec(b, a),
{
    let x = strip(a);
    let y = strip(b);
    lemma_agree_symmetric(x, y, min(x.len() as int, y.len() as int));
}

proof fn lemma_aster_sums(a: Seq<char>, b: Seq<char>, n: int)
    requires
        0 <= n <= a.len(),
        n <= b.len(),
    ensures
        0 <= aster_sums(a, b, n).1 <= n,
        0 <= aster_sums(a, b, n).0 <= ASTER_UNIT * aster_sums(a, b, n).1,
        (forall|i: int| 0 <= i < n ==> !skipped(a[i], b[i])) ==> aster_sums(a, b, n).1 == n
            && aster_sums(a, b, n).0 >= ASTER_UNIT * agree(a, b, n),
    decreases n,
{
    if n > 0 {
        lemma_aster_sums(a, b, n - 1);
        let w = aster_weight(a[n - 1], b[n - 1]);
        let d = cyclic_distance(a[n - 1], b[n - 1]);
        assert(0 <= w <= ASTER_UNIT) by {
            if a[n - 1] != b[n - 1] {
                assert(ASTER_UNIT as int / (1 + d) <= ASTER_UNIT) by (nonlinear_arith)
                    requires
                        d >= 0,
                ;
                assert(ASTER_UNIT as int / (1 + d) >= 0) by (nonlinear_arith)
                    requires
                        d >= 0,
                ;
            }
        }
    }
}

/// Aster credit is never below the exact match percentage: near misses only
/// add credit. This holds for texts without spaces or unknown symbols, the
/// two symbols that the scores set aside in different ways.
#[verifier::spinoff_prover]
pub proof fn lemma_aster_at_least_match(a: Seq<char>, b: Seq<char>)
    requires
        forall|i: int| 0 <= i < a.len() ==> a[i] != ' ' && a[i] != UNKNOWN,
        forall|i: int| 0 <= i < b.len() ==> b[i] != ' ' && b[i] != UNKNOWN,
        a.len() <= MAX_TEXT,
        b.len() <= MAX_TEXT,
    ensures
        !match_spec(a, b).beats(aster_spec(a, b)),
{
    lemma_strip(a);
    lemma_strip(b);
    let n = min(a.len() as int, b.len() as int);
    let mx = max(a.len() as int, b.len() as int);
    lemma_aster_sums(a, b, n);
    lemma_agree_bound(a, b, n);
    let m = agree(a, b, n) as int;
    let (s, c) = aster_sums(a, b, n);
    if c > 0 {
        let u = ASTER_UNIT as int;
        assert(u * c <= u * 0xffff_ffff) by (nonlinear_arith)
            requires
                0 < c <= 0xffff_ffff,
                u > 0,
        ;
        assert(s <= u * c) by (nonlinear_arith)
            requires
                s <= u * c,
        ;
        assert(m * (u * c) <= s * mx) by (nonlinear_arith)
            requires
                s >= u * m,
                c <= mx,
                m >= 0,
                u > 0,
                c > 0,
        ;
        assert(s <= 0xffff_ffff_ffff_ffff);
        assert(strip(a) == a && strip(b) == b);
        assert(match_spec(a, b).num == m);
        assert(match_spec(a, b).den == mx);
        assert(aster_spec(a, b).num == s);
        assert(aster_spec(a, b).den == u * c);
        let x = match_spec(a, b);
        let y = aster_spec(a, b);
        assert(x.num as int * y.den as int == m * (u * c));
        assert(y.num as int * x.den as int == s * mx);
        assert(!x.beats(y));
    } else {
        assert(strip(a) == a && strip(b) == b);
        assert(m == 0);
        let x = match_spec(a, b);
        let y = aster_spec(a, b);
        assert(x.num == 0);
        assert(y == Score { num: 0, den: 1 });
        let (xn, yd, yn, xd) = (x.num as int, y.den as int, y.num as int, x.den as int);
        assert(xn * yd <= yn * xd) by (nonlinear_arith)
            requires
                xn == 0,
                yn == 0,
        ;
        assert(!x.beats(y));
    }
}

/// Both scores are well-formed fractions.
pub proof fn lemma_scores_wf(a: Seq<char>, b: Seq<char>)
    requires
        a.len() <= MAX_TEXT || b.len() <= MAX_TEXT,
        a.len() <= usize::MAX,
        b.len() <= usize::MAX,
    ensures
        match_spec(a, b).wf(),
        aster_spec(a, b).wf(),
{
    lemma_strip(a);
    lemma_strip(b);
    let n = min(a.len() as int, b.len() as int);
    lemma_aster_sums(a, b, n);
    let c = aster_sums(a, b, n).1;
    if c > 0 {
        assert(ASTER_UNIT * c <= ASTER_UNIT * 0xffff_ffff) by (nonlinear_arith)
            requires
                0 < c <= 0xffff_ffff,
        ;
        assert((ASTER_UNIT as int * c) as u64 == ASTER_UNIT as int * c);
    }
}

/// The match percentage of `str1` and `str2` (see [`match_spec`]).
pub fn match_percentage(str1: &str, str2: &str) -> (r: Score)
    ensures
        r == match_spec(str1@, str2@),
        r.wf(),
        r.num <= r.den,
{
    match_vec(&chars_of(str1), &chars_of(str2))
}

/// The match percentage of two character sequences.
pub fn match_vec(s1: &Vec<char>, s2: &Vec<char>) -> (r: Score)
    ensures
        r == match_spec(s1@, s2@),
        r.wf(),
        r.num <= r.den,
{
    let a = strip_vec(s1);
    let b = strip_vec(s2);
    let n = if a.len() < b.len() {
        a.len()
    } else {
        b.len()
    };
    let mx = if a.len() < b.len() {
        b.len()
    } else {
        a.len()
    };
    let mut m: u64 = 0;
    let mut i: usize = 0;
    while i < n
        invariant
            i <= n,
            n <= a.len(),
            n <= b.len(),
            m == agree(a@, b@, i as int),
            m <= i,
        decreases n - i,
    {
        if a[i] == b[i] {
            m += 1;
        }
        i += 1;
    }
    proof {
        lemma_agree_bound(a@, b@, n as int);
    }
    Score { num: m, den: if mx == 0 { 1 } else { mx as u64 } }
}

/// `s` without its spaces.
pub fn strip_vec(s: &Vec<char>) -> (r: Vec<char>)
    ensures
        r@ == strip(s@),
{
    let mut r: Vec<char> = Vec::new();
    let mut i: usize = 0;
    while i < s.len()
        invariant
            i <= s.len(),
            r@ == strip(s@.subrange(0, i as int)),
        decreases s.len() - i,
    {
        assert(s@.subrange(0, i + 1).drop_last() =~= s@.subrange(0, i as int));
        if s[i] != ' ' {
            r.push(s[i]);
        }
        i += 1;
    }
    assert(s@.subrange(0, s.len() as int) =~= s@);
    r
}

/// `(x - y + 26) mod 26`.
fn fwd_dist(x: u64, y: u64) -> (r: u64)
    requires
        x <= 0x10ffff,
        y <= 0x10ffff,
    ensures
        r == (x as int - y as int + 26) % 26,
{
    if x >= y {
        (x - y) % 26
    } else {
        (26 - (y - x) % 26) % 26
    }
}

/// Credit for one aligned pair of symbols.
#[verifier::spinoff_prover]
pub fn aster_credit(c1: char, c2: char) -> (r: u64)
    ensures
        r == aster_weight(c1, c2),
{
    if c1 == c2 {
        ASTER_UNIT
    } else {
        let x = c1 as u32 as u64;
        let y = c2 as u32 as u64;
        let d1 = fwd_dist(x, y);
        let d2 = fwd_dist(y, x);
        let d = if d1 <= d2 {
            d1
        } else {
            d2
        };
        ASTER_UNIT / (1 + d)
    }
}

/// The aster score of `encrypted_text` against `plaintext` (see [`aster_spec`]).
pub fn aster_score(encrypted_text: &str, plaintext: &str) -> (r: Score)
    requires
        encrypted_text@.len() <= MAX_TEXT || plaintext@.len() <= MAX_TEXT,
    ensures
        r == aster_spec(encrypted_text@, plaintext@),
        r.wf(),
{
    aster_vec(&chars_of(encrypted_text), &chars_of(plaintext))
}

/// The aster score of two character sequences.
pub fn aster_vec(a: &Vec<char>, b: &Vec<char>) -> (r: Score)
    requires
        a@.len() <= MAX_TEXT || b@.len() <= MAX_TEXT,
    ensures
        r == aster_spec(a@, b@),
        r.wf(),
        r.num <= r.den,
{
    let n = if a.len() < b.len() {
        a.len()
    } else {
        b.len()
    };
    let mut s: u64 = 0;
    let mut c: u64 = 0;
    let mut i: usize = 0;
    while i < n
        invariant
            i <= n,
            n <= a.len(),
            n <= b.len(),
            n <= MAX_TEXT,
            s == aster_sums(a@, b@, i as int).0,
            c == aster_sums(a@, b@, i as int).1,
            c <= i,
            s <= ASTER_UNIT * c,
        decreases n - i,
    {
        proof {
            lemma_aster_sums(a@, b@, i + 1);
        }
        if a[i] != UNKNOWN && b[i] != UNKNOWN {
            s += aster_credit(a[i], b[i]);
            c += 1;
        }
        i += 1;
    }
    if c == 0 {
        Score { num: 0, den: 1 }
    } else {
        Score { num: s, den: ASTER_UNIT * c }
    }
}

} // verus!
verus! {

/// The state of the substitution test: the partial mapping (by alphabet
/// position; 26 means unmapped), which targets are taken, the positions that
/// agreed with the mapping, and the positions compared.
pub open spec fn subst_start() -> (Seq<usize>, Seq<bool>, nat, nat) {
    (Seq::new(26, |i: int| 26usize), Seq::new(26, |i: int| false), 0, 0)
}

/// One aligned pair: a mapped source agrees only with its target; an
/// unmapped source takes the target when no other source has it.
pub open spec fn subst_step(st: (Seq<usize>, Seq<bool>, nat, nat), c1: char, c2: char) -> (
    Seq<usize>,
    Seq<bool>,
    nat,
    nat,
) {
    let (m, used, hits, total) = st;
    let x = ord(c1);
    let y = ord(c2);
    if skipped(c1, c2) {
        st
    } else if m[x] < 26 {
        (m, used, if m[x] as int == y {
            hits + 1
        } else {
            hits
        }, total + 1)
    } else if !used[y] {
        (m.update(x, y as usize), used.update(y, true), hits + 1, total + 1)
    } else {
        (m, used, hits, total + 1)
    }
}

/// The state after the first `n` pairs.
pub open spec fn subst_run(a: Seq<char>, b: Seq<char>, n: int) -> (Seq<usize>, Seq<bool>, nat, nat)
    decreases n,
{
    if n <= 0 {
        subst_start()
    } else {
        subst_step(subst_run(a, b, n - 1), a[n - 1], b[n - 1])
    }
}

/// The two texts can be compared: equal lengths, and upper-case letters at
/// every position that is not skipped.
pub open spec fn subst_comparable(a: Seq<char>, b: Seq<char>) -> bool {
    &&& a.len() == b.len()
    &&& forall|i: int|
        0 <= i < a.len() && !skipped(a[i], b[i]) ==> is_upper(a[i]) && is_upper(b[i])
}

/// The substitution-consistency score: the share of compared positions
/// consistent with one growing one-to-one letter mapping; 100% when nothing
/// is compared.
pub open spec fn subst_spec(a: Seq<char>, b: Seq<char>) -> Option<Score> {
    if !subst_comparable(a, b) {
        None
    } else {
        let (m, u, hits, total) = subst_run(a, b, a.len() as int);
        if total == 0 {
            Some(Score { num: 1, den: 1 })
        } else {
            Some(Score { num: hits as u64, den: total as u64 })
        }
    }
}

proof fn lemma_subst_run(a: Seq<char>, b: Seq<char>, n: int)
    requires
        0 <= n <= a.len(),
        n <= b.len(),
        forall|i: int| 0 <= i < n && !skipped(a[i], b[i]) ==> is_upper(a[i]) && is_upper(b[i]),
    ensures
        subst_run(a, b, n).0.len() == 26,
        subst_run(a, b, n).1.len() == 26,
        forall|i: int| 0 <= i < 26 ==> subst_run(a, b, n).0[i] <= 26,
        subst_run(a, b, n).2 <= subst_run(a, b, n).3,
        subst_run(a, b, n).3 <= n,
    decreases n,
{
    if n > 0 {
        lemma_subst_run(a, b, n - 1);
    }
}

/// Whether `str1` and `str2` are consistent with one letter substitution:
/// `None` when they differ in length or hold, at a compared position,
/// anything but an upper-case letter (see [`subst_spec`]).
pub fn substitution_cipher_score(str1: &str, str2: &str) -> (r: Option<Score>)
    ensures
        r == subst_spec(str1@, str2@),
{
    subst_vec(&chars_of(str1), &chars_of(str2))
}

/// The substitution-consistency score of two character sequences.
pub fn subst_vec(a: &Vec<char>, b: &Vec<char>) -> (r: Option<Score>)
    ensures
        r == subst_spec(a@, b@),
{
    if a.len() != b.len() {
        return None;
    }
    let mut m: Vec<usize> = Vec::new();
    let mut used: Vec<bool> = Vec::new();
    while m.len() < 26
        invariant
            m.len() <= 26,
            used.len() == m.len(),
            m@ =~= Seq::new(m.len() as nat, |i: int| 26usize),
            used@ =~= Seq::new(m.len() as nat, |i: int| false),
        decreases 26 - m.len(),
    {
        m.push(26);
        used.push(false);
    }
    let mut hits: u64 = 0;
    let mut total: u64 = 0;
    let mut i: usize = 0;
    while i < a.len()
        invariant
            i <= a.len(),
            a.len() == b.len(),
            forall|j: int|
                0 <= j < i && !skipped(a@[j], b@[j]) ==> is_upper(a@[j]) && is_upper(b@[j]),
            (m@, used@, hits as nat, total as nat) == subst_run(a@, b@, i as int),
        decreases a.len() - i,
    {
        proof {
            lemma_subst_run(a@, b@, i as int);
        }
        let c1 = a[i];
        let c2 = b[i];
        if c1 != UNKNOWN && c2 != UNKNOWN {
            if !('A' <= c1 && c1 <= 'Z' && 'A' <= c2 && c2 <= 'Z') {
                assert(!skipped(a@[i as int], b@[i as int]) && !(is_upper(a@[i as int]) && is_upper(
                    b@[i as int],
                )));
                assert(!subst_comparable(a@, b@));
                return None;
            }
            let x = (c1 as u32 - 65) as usize;
            let y = (c2 as u32 - 65) as usize;
            total += 1;
            if m[x] < 26 {
                if m[x] == y {
                    hits += 1;
                }
            } else if !used[y] {
                m.set(x, y);
                used.set(y, true);
                hits += 1;
            }
        }
        i += 1;
    }
    proof {
        lemma_subst_run(a@, b@, a.len() as int);
    }
    if total == 0 {
        Some(Score { num: 1, den: 1 })
    } else {
        Some(Score { num: hits, den: total })
    }
}

} // verus!
verus! {

/// The additive difference of two letters, as a letter.
pub open spec fn letter_diff(a: char, b: char) -> char {
    crate::alphabet::letter((ord(a) - ord(b) + 26) % 26)
}

/// The shift-and-subtract signal of the upper-case text `s` for shift `n`:
/// each letter minus the letter `n` places later, without the first
/// difference; empty when `n` is not shorter than `s`.
pub open spec fn shift_subtract(s: Seq<char>, n: int) -> Seq<char> {
    if n < s.len() {
        Seq::new((s.len() - n - 1) as nat, |i: int| letter_diff(s[i + 1], s[i + 1 + n]))
    } else {
        Seq::empty()
    }
}

/// The letters of `a` minus those of `b`, the shorter padded with 'A'.
pub open spec fn subtract_spec(a: Seq<char>, b: Seq<char>) -> Seq<char> {
    Seq::new(
        max(a.len() as int, b.len() as int) as nat,
        |i: int|
            letter_diff(
                if i < a.len() {
                    a[i]
                } else {
                    'A'
                },
                if i < b.len() {
                    b[i]
                } else {
                    'A'
                },
            ),
    )
}

/// The score of shift `n`: the match percentage of the two signals divided
/// by the shorter signal's length; `None` when a signal is empty.
pub open spec fn elimination_score(ct: Seq<char>, pt: Seq<char>, n: int) -> Option<Score> {
    let x = shift_subtract(ct, n);
    let y = shift_subtract(pt, n);
    let m = match_spec(x, y);
    if x.len() == 0 || y.len() == 0 {
        None
    } else {
        Some(Score { num: m.num, den: (m.den * min(x.len() as int, y.len() as int)) as u64 })
    }
}

/// Shifts `1..=n` tried in turn: the best shift (0 when none scored above
/// 0), its score, and the first that many letters of `ct - pt`.
pub open spec fn elimination(ct: Seq<char>, pt: Seq<char>, n: int) -> (int, Score, Seq<char>)
    decreases n,
{
    if n <= 0 {
        (0, Score { num: 0, den: 1 }, Seq::empty())
    } else {
        let (k, best, seq) = elimination(ct, pt, n - 1);
        match elimination_score(ct, pt, n) {
            Some(s) => if s.beats(best) {
                (n, s, subtract_spec(ct, pt).take(n))
            } else {
                (k, best, seq)
            },
            None => (k, best, seq),
        }
    }
}

/// The shift-and-subtract signal of the upper-case `s`.
fn shift_and_subtract(s: &Vec<char>, n: usize) -> (r: Vec<char>)
    requires
        crate::alphabet::all_upper(s@),
    ensures
        r@ == shift_subtract(s@, n as int),
        crate::alphabet::all_upper(r@),
{
    let mut r: Vec<char> = Vec::new();
    if n >= s.len() {
        return r;
    }
    let mut i: usize = 1;
    while i + n < s.len()
        invariant
            1 <= i,
            n < s.len(),
            i + n <= s.len(),
            crate::alphabet::all_upper(s@),
            r@ =~= shift_subtract(s@, n as int).subrange(0, i - 1),
            crate::alphabet::all_upper(r@),
        decreases s.len() - i,
    {
        r.push(diff_letter(s[i], s[i + n]));
        i += 1;
    }
    r
}

/// `a - b` for upper-case letters.
fn diff_letter(a: char, b: char) -> (r: char)
    requires
        is_upper(a),
        is_upper(b),
    ensures
        r == letter_diff(a, b),
        is_upper(r),
{
    let x = crate::alphabet::ord_of(a);
    let y = crate::alphabet::ord_of(b);
    crate::alphabet::letter_at((x + 26 - y) % 26)
}

/// The letters of `a` minus those of `b`, the shorter padded with 'A'.
fn subtract_strings(a: &Vec<char>, b: &Vec<char>) -> (r: Vec<char>)
    requires
        crate::alphabet::all_upper(a@),
        crate::alphabet::all_upper(b@),
    ensures
        r@ == subtract_spec(a@, b@),
{
    let len = if a.len() > b.len() {
        a.len()
    } else {
        b.len()
    };
    let mut r: Vec<char> = Vec::new();
    let mut i: usize = 0;
    while i < len
        invariant
            i <= len,
            len == max(a.len() as int, b.len() as int),
            crate::alphabet::all_upper(a@),
            crate::alphabet::all_upper(b@),
            r@ =~= subtract_spec(a@, b@).subrange(0, i as int),
        decreases len - i,
    {
        let x = if i < a.len() {
            a[i]
        } else {
            'A'
        };
        let y = if i < b.len() {
            b[i]
        } else {
            'A'
        };
        r.push(diff_letter(x, y));
        i += 1;
    }
    r
}

/// The first `n` symbols of `v` (all of them when it is shorter).
fn prefix(v: &Vec<char>, n: usize) -> (r: Vec<char>)
    ensures
        r@ == (if n <= v.len() {
            v@.take(n as int)
        } else {
            v@
        }),
{
    let mut r: Vec<char> = Vec::new();
    let mut i: usize = 0;
    while i < n && i < v.len()
        invariant
            i <= v.len(),
            i <= n,
            r@ =~= v@.take(i as int),
        decreases v.len() - i,
    {
        r.push(v[i]);
        i += 1;
    }
    assert(v@.take(v.len() as int) =~= v@);
    r
}

/// Key elimination: for each shift `1..=max_key_length`, compares the
/// shift-and-subtract signals of the letters of the two texts; returns the
/// best shift as the key length, its score, and that many letters of the
/// ciphertext minus the plaintext as the key stream.
pub fn key_elimation(max_key_length: usize, encrypted_text: &str, plaintext: &str) -> (r: (
    usize,
    Score,
    String,
))
    requires
        encrypted_text@.len() <= MAX_TEXT,
        plaintext@.len() <= MAX_TEXT,
    ensures
        ({
            let (k, s, seq) = elimination(
                crate::alphabet::clean(encrypted_text@),
                crate::alphabet::clean(plaintext@),
                max_key_length as int,
            );
            r.0 == k && r.1 == s && r.2@ == seq
        }),
{
    let ct = crate::alphabet::clean_text(&chars_of(encrypted_text));
    let pt = crate::alphabet::clean_text(&chars_of(plaintext));
    proof {
        crate::alphabet::lemma_clean(encrypted_text@);
        crate::alphabet::lemma_clean(plaintext@);
    }
    let diff = subtract_strings(&ct, &pt);
    let mut best_len: usize = 0;
    let mut best = Score::zero();
    let mut best_seq: Vec<char> = Vec::new();
    let mut j: usize = 0;
    while j < max_key_length
        invariant
            j <= max_key_length,
            ct.len() <= MAX_TEXT,
            pt.len() <= MAX_TEXT,
            crate::alphabet::all_upper(ct@),
            crate::alphabet::all_upper(pt@),
            diff@ == subtract_spec(ct@, pt@),
            (best_len as int, best, best_seq@) == elimination(ct@, pt@, j as int),
            best_len <= j,
            best.wf(),
        decreases max_key_length - j,
    {
        let i = j + 1;
        let x = shift_and_subtract(&ct, i);
        let y = shift_and_subtract(&pt, i);
        if x.len() > 0 && y.len() > 0 {
            let m = match_vec(&x, &y);
            let short = if x.len() < y.len() {
                x.len()
            } else {
                y.len()
            };
            proof {
                assert(m.den <= max(x.len() as int, y.len() as int)) by {
                    lemma_strip(x@);
                    lemma_strip(y@);
                }
                assert(m.den * short <= 0xffff_ffff * 0xffff_ffffu64) by (nonlinear_arith)
                    requires
                        m.den <= 0xffff_ffff,
                        short <= 0xffff_ffff,
                ;
                assert(m.den * short > 0) by (nonlinear_arith)
                    requires
                        m.den > 0,
                        short > 0,
                ;
            }
            let s = Score { num: m.num, den: m.den * (short as u64) };
            if s.better_than(&best) {
                best = s;
                best_len = i;
                best_seq = prefix(&diff, i);
            }
        }
        j += 1;
    }
    (best_len, best, string_of(&best_seq))
}

} // verus!
verus! {

/// Lower-case form of an ASCII letter; any other symbol is unchanged.
pub open spec fn lower(c: char) -> char {
    if is_upper(c) {
        ((c as u32 + 32) as u8) as char
    } else {
        c
    }
}

/// The key search state: for each plaintext letter its ciphertext letter
/// (lower case, or '_' while unknown), and which ciphertext letters are taken;
/// `None` once the pairs contradict a one-to-one substitution.
pub open spec fn key_run(p: Seq<char>, c: Seq<char>, n: int) -> Option<(Seq<char>, Seq<bool>)>
    decreases n,
{
    if n <= 0 {
        Some((Seq::new(26, |i: int| '_'), Seq::new(26, |i: int| false)))
    } else {
        match key_run(p, c, n - 1) {
            None => None,
            Some((key, used)) => {
                let a = p[n - 1];
                let b = c[n - 1];
                if !crate::alphabet::is_letter(a) || !crate::alphabet::is_letter(b) {
                    Some((key, used))
                } else {
                    let x = ord(crate::alphabet::upper(a));
                    let y = ord(crate::alphabet::upper(b));
                    if key[x] == '_' {
                        if used[y] {
                            None
                        } else {
                            Some((key.update(x, lower(b)), used.update(y, true)))
                        }
                    } else if key[x] != lower(b) {
                        None
                    } else {
                        Some((key, used))
                    }
                }
            },
        }
    }
}

/// The substitution key that maps the letters of `p` to those of `c`
/// (position by position, case ignored), when it is one-to-one and covers
/// all 26 letters.
pub open spec fn substitution_key(p: Seq<char>, c: Seq<char>) -> Option<Seq<char>> {
    if p.len() != c.len() {
        None
    } else {
        match key_run(p, c, p.len() as int) {
            None => None,
            Some((key, used)) => if key.contains('_') {
                None
            } else {
                Some(key)
            },
        }
    }
}

/// Recovers a simple substitution key from aligned plaintext and ciphertext
/// (see [`substitution_key`]); entry `i` is the lower-case ciphertext letter
/// for the `i`-th letter of the alphabet.
pub fn find_substitution_key(plaintext: &str, ciphertext: &str) -> (r: Option<Vec<char>>)
    ensures
        match r {
            Some(k) => substitution_key(plaintext@, ciphertext@) == Some(k@),
            None => substitution_key(plaintext@, ciphertext@) is None,
        },
{
    let p = chars_of(plaintext);
    let c = chars_of(ciphertext);
    if p.len() != c.len() {
        return None;
    }
    let mut key: Vec<char> = Vec::new();
    let mut used: Vec<bool> = Vec::new();
    while key.len() < 26
        invariant
            key.len() <= 26,
            used.len() == key.len(),
            key@ =~= Seq::new(key.len() as nat, |i: int| '_'),
            used@ =~= Seq::new(key.len() as nat, |i: int| false),
        decreases 26 - key.len(),
    {
        key.push('_');
        used.push(false);
    }
    let mut i: usize = 0;
    while i < p.len()
        invariant
            i <= p.len(),
            p.len() == c.len(),
            p@ == plaintext@,
            c@ == ciphertext@,
            key_run(p@, c@, i as int) == Some((key@, used@)),
            key.len() == 26,
            used.len() == 26,
        decreases p.len() - i,
    {
        let a = p[i];
        let b = c[i];
        if crate::alphabet::is_letter_char(a) && crate::alphabet::is_letter_char(b) {
            let x = crate::alphabet::ord_of(crate::alphabet::upper_char(a));
            let y = crate::alphabet::ord_of(crate::alphabet::upper_char(b));
            let lb = if 'A' <= b && b <= 'Z' {
                ((b as u32 + 32) as u8) as char
            } else {
                b
            };
            if key[x] == '_' {
                if used[y] {
                    proof {
                        lemma_key_run_none(p@, c@, i as int + 1, p.len() as int);
                    }
                    return None;
                }
                key.set(x, lb);
                used.set(y, true);
            } else if key[x] != lb {
                proof {
                    lemma_key_run_none(p@, c@, i as int + 1, p.len() as int);
                }
                return None;
            }
        }
        i += 1;
    }
    if crate::alphabet::holds(&key, '_') {
        return None;
    }
    Some(key)
}

/// Once the pairs contradict a substitution, later pairs do not mend it.
proof fn lemma_key_run_none(p: Seq<char>, c: Seq<char>, a: int, b: int)
    requires
        0 < a <= b,
        key_run(p, c, a) is None,
    ensures
        key_run(p, c, b) is None,
    decreases b - a,
{
    if a < b {
        lemma_key_run_none(p, c, a, b - 1);
    }
}

/// `c` shifted forward by `d` places if it is an upper-case letter; any
/// other symbol is unchanged.
pub open spec fn caesar_char(c: char, d: int) -> char {
    if is_upper(c) {
        crate::alphabet::letter((ord(c) + d) % 26)
    } else {
        c
    }
}

/// Shifts every upper-case letter of `text` forward by `shift` places.
pub fn caesar_shift(text: &str, shift: i32) -> (r: String)
    requires
        shift >= 0,
    ensures
        r@ == text@.map_values(|c: char| caesar_char(c, shift as int)),
{
    let s = chars_of(text);
    let d = (shift % 26) as usize;
    let mut r: Vec<char> = Vec::new();
    let mut i: usize = 0;
    while i < s.len()
        invariant
            i <= s.len(),
            shift >= 0,
            d == shift % 26,
            r@ =~= s@.map_values(|c: char| caesar_char(c, shift as int)).subrange(0, i as int),
        decreases s.len() - i,
    {
        let c = s[i];
        if 'A' <= c && c <= 'Z' {
            let x = crate::alphabet::ord_of(c);
            proof {
                assert((x + d) % 26 == (ord(c) + shift as int) % 26);
            }
            r.push(crate::alphabet::letter_at((x + d) % 26));
        } else {
            r.push(c);
        }
        i += 1;
    }
    string_of(&r)
}

/// `c` shifted back by `shift` places within its own case.
pub open spec fn unshift_case(c: char, shift: int) -> char {
    if crate::alphabet::is_lower(c) {
        ((97 + (c as int - 97 - shift + 26) % 26) as u8) as char
    } else {
        ((65 + (c as int - 65 - shift + 26) % 26) as u8) as char
    }
}

/// Shifts the letter `ch` back by `shift` places, keeping its case.
pub fn decrypt_char(ch: char, shift: u8) -> (r: char)
    requires
        crate::alphabet::is_letter(ch),
        shift < 26,
    ensures
        r == unshift_case(ch, shift as int),
{
    if 'a' <= ch && ch <= 'z' {
        ((ch as u32 - 97 + 26 - shift as u32) % 26 + 97) as u8 as char
    } else {
        ((ch as u32 - 65 + 26 - shift as u32) % 26 + 65) as u8 as char
    }
}

/// Decrypts `encrypted_text` with the upper-case key `key`: the letter at
/// position `i` (counting every symbol) is shifted back by key letter
/// `i mod key length`; other symbols stay.
pub fn decrypt_vigenere(encrypted_text: &str, key: &str) -> (r: String)
    requires
        key@.len() > 0,
        crate::alphabet::all_upper(key@),
    ensures
        r@ == Seq::new(
            encrypted_text@.len(),
            |i: int|
                if crate::alphabet::is_letter(encrypted_text@[i]) {
                    unshift_case(encrypted_text@[i], ord(key@[i % (key@.len() as int)]))
                } else {
                    encrypted_text@[i]
                },
        ),
{
    let s = chars_of(encrypted_text);
    let k = chars_of(key);
    let mut r: Vec<char> = Vec::new();
    let mut i: usize = 0;
    while i < s.len()
        invariant
            i <= s.len(),
            s@ == encrypted_text@,
            k@ == key@,
            k.len() > 0,
            crate::alphabet::all_upper(k@),
            r.len() == i,
            forall|j: int|
                0 <= j < i ==> r@[j] == if crate::alphabet::is_letter(s@[j]) {
                    unshift_case(s@[j], ord(k@[j % (k@.len() as int)]))
                } else {
                    s@[j]
                },
        decreases s.len() - i,
    {
        let ch = s[i];
        if crate::alphabet::is_letter_char(ch) {
            let shift = crate::alphabet::ord_of(k[i % k.len()]) as u8;
            r.push(decrypt_char(ch, shift));
        } else {
            r.push(ch);
        }
        i += 1;
    }
    let ghost want = Seq::new(
        encrypted_text@.len(),
        |i: int|
            if crate::alphabet::is_letter(encrypted_text@[i]) {
                unshift_case(encrypted_text@[i], ord(key@[i % (key@.len() as int)]))
            } else {
                encrypted_text@[i]
            },
    );
    assert(r@ =~= want);
    string_of(&r)
}

/// The symbols of `s` at odd positions.
pub fn odd_indexed_string(s: &str) -> (r: String)
    ensures
        r@ == crate::stats::column(s@, 2, 1),
{
    string_of(&crate::stats::column_of(&chars_of(s), 2, 1))
}

/// The symbols of `s` at even positions.
pub fn even_indexed_string(s: &str) -> (r: String)
    ensures
        r@ == crate::stats::column(s@, 2, 0),
{
    string_of(&crate::stats::column_of(&chars_of(s), 2, 0))
}

/// `input` cut into full rows of `n` symbols and read by columns (see
/// [`crate::kullback::split_spec`]).
pub fn transpose_string(input: &str, n: usize) -> (r: Vec<Vec<char>>)
    requires
        0 < n <= input@.len(),
    ensures
        crate::kullback::split_spec(input@, n as int) == Some(crate::table::rows_view(r@)),
{
    proof {
        assert((input@.len() as int) / (n as int) >= 1) by (nonlinear_arith)
            requires
                0 < n <= input@.len(),
        ;
    }
    match crate::kullback::split_and_transform(input, n) {
        Some(t) => t,
        None => Vec::new(),
    }
}

} // verus!
