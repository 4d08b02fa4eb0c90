use krypton::decipher::{keyless, kryptos, kryptos2};
use krypton::score::Score;
use krypton::toolkit::{bullshark_beaufort, bullshark_vigenere, remora_vigenere, tigershark, vigenere_encrypt};

const PLAIN: &str = "BETWEENSUBTLESHADINGANDTHEABSENCEOFLIGHTLIESTHENUANCEOFIQLUSION";

#[test]
fn ascent_finds_short_second_keyword() {
    let c = vigenere_encrypt(PLAIN, "KRYPTOS", Some("DOG"));
    let r = bullshark_vigenere("KRYPTOS", &c, PLAIN, 3);
    assert_eq!(r.keyword2, "DOG");
    assert_eq!(r.score.num, r.score.den);
    assert_eq!(r.decrypted, PLAIN);
}

#[test]
fn remora_returns_keyword_and_score() {
    let c = vigenere_encrypt(PLAIN, "KRYPTOS", Some("CAT"));
    let (k, s) = remora_vigenere("KRYPTOS", &c, PLAIN, 3);
    assert_eq!(k, "CAT");
    assert_eq!(s.num, s.den);
}

#[test]
fn kryptos_search_by_aster_and_by_match() {
    let c = vigenere_encrypt(PLAIN, "PALIMPSEST", Some("ABSCISSA"));
    assert_eq!(kryptos("PALIMPSEST", &c, PLAIN, 8), "ABSCISSA");
    assert_eq!(krypton::vigenere::kryptos("PALIMPSEST", &c, PLAIN, 8), "ABSCISSA");
}

#[test]
fn beaufort_search_mirrors_back() {
    let k1 = "KRYPTOS";
    let mk1 = krypton::toolkit::atbash_transform(k1);
    let c = vigenere_encrypt(PLAIN, &mk1, Some("DOG"));
    let mc = krypton::toolkit::atbash_transform(&c);
    let r = bullshark_beaufort(k1, &mc, PLAIN, 3);
    assert_eq!(r.keyword2, krypton::toolkit::atbash_transform("DOG"));
    assert_eq!(r.score.num, r.score.den);
}

#[test]
fn zero_length_search() {
    let r = bullshark_vigenere("KRYPTOS", "ABC", "ABC", 0);
    assert_eq!(r.keyword2, "");
    assert_eq!(r.score, Score { num: 0, den: 1 });
}

#[test]
fn grid_search_one_by_one() {
    let c = vigenere_encrypt("HELLOWORLD", "Q", Some("F"));
    let (k1, k2) = kryptos2(&c, "HELLOWORLD", 1, 1);
    assert_eq!(k1.len(), 1);
    assert_eq!(k2.len(), 1);
    assert_eq!(vigenere_encrypt("HELLOWORLD", &k1, Some(&k2)), c);
}

#[test]
fn two_level_search_small() {
    let c = vigenere_encrypt("HELLOWORLD", "B", Some("C"));
    let (k1, k2, s) = tigershark(1, 1, &c, "HELLOWORLD");
    assert_eq!(k1.len(), 1);
    assert_eq!(k2.len(), 1);
    assert_eq!(s.num, s.den);
    assert_eq!(vigenere_encrypt("HELLOWORLD", &k1, Some(&k2)), c);
}

#[test]
fn keyless_reads_substitution_per_column() {
    let r = keyless("XYXY", "ABAB", 2);
    assert_eq!(r.column_scores, vec![Some(Score { num: 2, den: 2 }), Some(Score { num: 2, den: 2 })]);
    assert_eq!(r.table.len(), 3);
    let row1: String = r.table[1].iter().collect();
    assert_eq!(&row1[0..2], "X ");
    let row2: String = r.table[2].iter().collect();
    assert_eq!(&row2[0..2], " Y");
}
