use krypton::decipher::{every_nth_letter, vig1table};
use krypton::table::generate_vigenere_table;
use krypton::toolkit::{atbash_transform, generate_key, vig2table, vigenere_decrypt, vigenere_encrypt};
use krypton::vigenere::{vdecode, vigenere};

fn row(t: &Vec<Vec<char>>, i: usize) -> String {
    t[i].iter().collect()
}

fn is_alphabet_ordering(r: &Vec<char>) -> bool {
    let mut seen = [false; 26];
    if r.len() != 26 {
        return false;
    }
    for &c in r {
        if !c.is_ascii_uppercase() {
            return false;
        }
        let i = (c as u8 - b'A') as usize;
        if seen[i] {
            return false;
        }
        seen[i] = true;
    }
    true
}

#[test]
fn table_row0_keyword_first() {
    let t = generate_vigenere_table("KRYPTOS", "ABC");
    assert_eq!(t.len(), 4);
    assert_eq!(row(&t, 0), "KRYPTOSABCDEFGHIJLMNQUVWXZ");
    assert_eq!(row(&t, 1), "ABCDEFGHIJLMNQUVWXZKRYPTOS");
    assert_eq!(row(&t, 3), "CDEFGHIJLMNQUVWXZKRYPTOSAB");
}

#[test]
fn table_repeated_keyword_letters_keep_first_place() {
    let t = generate_vigenere_table("abscissa", "k");
    assert_eq!(row(&t, 0), "ABSCIDEFGHJKLMNOPQRTUVWXYZ");
    assert_eq!(row(&t, 1), "KLMNOPQRTUVWXYZABSCIDEFGHJ");
}

#[test]
fn table_rows_are_orderings_of_the_alphabet() {
    for (k1, k2) in [("KRYPTOS", "PALIMPSEST"), ("", "Z"), ("zebra!", "a-b-c"), ("AAAA", "QQ")] {
        let t = generate_vigenere_table(k1, k2);
        for r in &t {
            assert!(is_alphabet_ordering(r), "{} {}", k1, k2);
        }
    }
}

#[test]
fn vig2table_matches_generate() {
    assert_eq!(vig2table("KRYPTOS", "ABC"), generate_vigenere_table("KRYPTOS", "ABC"));
}

#[test]
fn vig1table_plain_first_row() {
    let t = vig1table("BD");
    assert_eq!(row(&t, 0), "ABCDEFGHIJKLMNOPQRSTUVWXYZ");
    assert_eq!(row(&t, 1), "BCDEFGHIJKLMNOPQRSTUVWXYZA");
    assert_eq!(row(&t, 2), "DEFGHIJKLMNOPQRSTUVWXYZABC");
}

#[test]
fn additive_encrypt_lemon() {
    assert_eq!(vigenere_encrypt("ATTACKATDAWN", "LEMON", None), "LXFOPVEFRNHR");
    assert_eq!(vigenere_decrypt("LXFOPVEFRNHR", "LEMON", None), "ATTACKATDAWN");
}

#[test]
fn additive_drops_non_letters_and_upper_cases() {
    assert_eq!(vigenere_encrypt("attack at dawn", "lemon", None), "LXFOPVEFRNHR");
}

#[test]
fn empty_key_means_alphabet() {
    assert_eq!(vigenere_encrypt("AAA", "", None), "ABC");
    assert_eq!(vigenere_encrypt("AAA", "123", None), "ABC");
}

#[test]
fn table_encrypt_known_value() {
    // row 0 of KRYPTOS, keyed rows A and B
    let c = vigenere_encrypt("KRYP", "KRYPTOS", Some("AB"));
    assert_eq!(c, "ACCE");
    assert_eq!(vigenere_decrypt(&c, "KRYPTOS", Some("AB")), "KRYP");
}

#[test]
fn round_trip_with_two_keywords() {
    let texts = ["BETWEENSUBTLESHADINGANDTHEABSENCEOFLIGHT", "x", "", "HelloWorld"];
    for t in texts {
        for (k1, k2) in [("KRYPTOS", Some("PALIMPSEST")), ("", Some("")), ("ZEBRA", None), ("q", Some("abc"))] {
            let c = vigenere_encrypt(t, k1, k2);
            assert_eq!(vigenere_decrypt(&c, k1, k2), t.to_uppercase());
        }
    }
}

#[test]
fn vdecode_through_table() {
    let t = generate_vigenere_table("KRYPTOS", "AB");
    assert_eq!(vdecode("acce", &t), "KRYP");
}

#[test]
fn classic_vigenere_keeps_case_and_symbols() {
    assert_eq!(vigenere("Attack at dawn", "LEMON"), "Lxfopv ef rnhr");
    assert_eq!(vigenere("Hello", "123"), "Hello");
}

#[test]
fn atbash_mirrors_letters() {
    assert_eq!(atbash_transform("ABC xyz!"), "ZYX cba!");
    assert_eq!(atbash_transform(&atbash_transform("Kryptos")), "Kryptos");
}

#[test]
fn generate_key_default() {
    assert_eq!(generate_key("", "ABC"), "ABC");
    assert_eq!(generate_key("KEY", "ABC"), "KEY");
}

#[test]
fn every_nth_letter_picks_multiples() {
    assert_eq!(every_nth_letter("ABCDEFG", 3), "ADG");
    assert_eq!(every_nth_letter("", 2), "");
}
