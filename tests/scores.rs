use krypton::analysis::{aster_score, key_elimation, match_percentage, substitution_cipher_score};
use krypton::kasiski::kasiski_examination;
use krypton::score::Score;

fn pct(s: Score) -> f64 {
    100.0 * s.num as f64 / s.den as f64
}

#[test]
fn match_percentage_counts_over_longer() {
    assert_eq!(match_percentage("HELLO", "HELLP"), Score { num: 4, den: 5 });
    assert_eq!(match_percentage("AB", "ABCD"), Score { num: 2, den: 4 });
    assert_eq!(match_percentage("A B", "AB"), Score { num: 2, den: 2 });
    assert_eq!(match_percentage("", ""), Score { num: 0, den: 1 });
}

#[test]
fn match_percentage_is_symmetric() {
    for (a, b) in [("HELLO", "WORLD"), ("ABC", "ABCDEF"), ("X Y", "XYZ")] {
        assert_eq!(match_percentage(a, b), match_percentage(b, a));
    }
}

#[test]
fn aster_near_miss_credit() {
    assert_eq!(aster_score("A", "A"), Score { num: 360360, den: 360360 });
    assert!((pct(aster_score("A", "B")) - 50.0).abs() < 1e-9);
    assert!((pct(aster_score("A", "Z")) - 50.0).abs() < 1e-9);
    assert!((pct(aster_score("A", "N")) - 100.0 / 14.0).abs() < 1e-9);
    assert_eq!(aster_score("_A", "BA"), Score { num: 360360, den: 360360 });
    assert_eq!(aster_score("", "ABC"), Score { num: 0, den: 1 });
}

#[test]
fn aster_at_least_match() {
    for (a, b) in [("HELLO", "HELLP"), ("ABCDEF", "BCDEFG"), ("QWERTY", "QWE"), ("ZZZ", "AAA")] {
        assert!(pct(aster_score(a, b)) >= pct(match_percentage(a, b)));
    }
}

#[test]
fn substitution_score_cases() {
    assert_eq!(substitution_cipher_score("ABC", "XYZ"), Some(Score { num: 3, den: 3 }));
    assert_eq!(substitution_cipher_score("AAB", "XYZ"), Some(Score { num: 2, den: 3 }));
    assert_eq!(substitution_cipher_score("AB", "XX"), Some(Score { num: 1, den: 2 }));
    assert_eq!(substitution_cipher_score("AB", "XYZ"), None);
    assert_eq!(substitution_cipher_score("Ab", "XY"), None);
    assert_eq!(substitution_cipher_score("__", "AB"), Some(Score { num: 1, den: 1 }));
}

#[test]
fn key_elimination_recovers_lemon() {
    let (len, score, key) = key_elimation(5, "LXFOPVEFRNHR", "ATTACKATDAWN");
    assert_eq!(len, 5);
    assert_eq!(key, "LEMON");
    assert!((pct(score) - 100.0 / 6.0).abs() < 1e-9);
}

#[test]
fn key_elimination_nothing_to_compare() {
    let (len, score, key) = key_elimation(3, "AB", "AB");
    assert_eq!(len, 0);
    assert_eq!(score, Score { num: 0, den: 1 });
    assert_eq!(key, "");
}

#[test]
fn kasiski_repeat_at_twelve() {
    // "QWER" at positions 0 and 12
    let text = "QWERABCDEFGHQWERIJKLMN";
    let top = kasiski_examination(text, &[]);
    for f in [2, 3, 4, 6, 12] {
        assert!(top.contains(&f), "{:?}", top);
    }
}

#[test]
fn kasiski_excludes_factors() {
    let text = "QWERABCDEFGHQWERIJKLMN";
    let top = kasiski_examination(text, &[1, 2, 4]);
    assert_eq!(top, vec![3, 6, 12]);
}

#[test]
fn kasiski_short_text() {
    assert_eq!(kasiski_examination("AB", &[]), Vec::<usize>::new());
}
