use krypton::analysis::{
    caesar_shift, decrypt_char, decrypt_vigenere, even_indexed_string, find_substitution_key,
    odd_indexed_string, transpose_string,
};
use krypton::decipher::{create_decipher_grid, string_to_grid, transpose};

#[test]
fn substitution_key_found() {
    let plain = "the quick brown fox jumps over the lazy dog";
    let cipher: String = plain
        .chars()
        .map(|c| if c.is_ascii_lowercase() { (b'z' - (c as u8 - b'a')) as char } else { c })
        .collect();
    let key = find_substitution_key(plain, &cipher).unwrap();
    let want: Vec<char> = "zyxwvutsrqponmlkjihgfedcba".chars().collect();
    assert_eq!(key, want);
}

#[test]
fn substitution_key_conflicts_and_gaps() {
    assert_eq!(find_substitution_key("aa", "xy"), None);
    assert_eq!(find_substitution_key("ab", "xx"), None);
    assert_eq!(find_substitution_key("abc", "xyz"), None);
    assert_eq!(find_substitution_key("ab", "x"), None);
}

#[test]
fn caesar_shift_upper_only() {
    assert_eq!(caesar_shift("ABC xyz XYZ", 3), "DEF xyz ABC");
    assert_eq!(caesar_shift("HELLO", 26), "HELLO");
}

#[test]
fn decrypt_char_keeps_case() {
    assert_eq!(decrypt_char('b', 1), 'a');
    assert_eq!(decrypt_char('A', 1), 'Z');
    assert_eq!(decrypt_char('Z', 25), 'A');
}

#[test]
fn decrypt_vigenere_counts_every_symbol() {
    assert_eq!(decrypt_vigenere("LXFOPVEFRNHR", "LEMON"), "ATTACKATDAWN");
    assert_eq!(decrypt_vigenere("B B", "BB"), "A A");
}

#[test]
fn odd_and_even_positions() {
    assert_eq!(odd_indexed_string("ABCDEF"), "BDF");
    assert_eq!(even_indexed_string("ABCDEFG"), "ACEG");
}

#[test]
fn transpose_string_full_rows() {
    let t = transpose_string("ABCDEFG", 3);
    assert_eq!(t, vec![vec!['A', 'D'], vec!['B', 'E'], vec!['C', 'F']]);
}

#[test]
fn decipher_grid_blank_rows() {
    let g = create_decipher_grid("ABC", 2);
    assert_eq!(g, vec![vec!['A', 'B', 'C'], vec![' ', ' ', ' '], vec![' ', ' ', ' ']]);
}

#[test]
fn grid_and_transpose() {
    let g = string_to_grid("ABCDEFG", 3);
    assert_eq!(g, vec![vec!['A', 'B', 'C'], vec!['D', 'E', 'F'], vec!['G']]);
    let t = transpose(&g);
    assert_eq!(t, vec![vec!['A', 'D', 'G'], vec!['B', 'E'], vec!['C', 'F']]);
    assert_eq!(transpose(&Vec::new()), Vec::<Vec<char>>::new());
}
