use krypton::kullback::{kullback, kullback_ioc, split_and_transform};
use krypton::score::Score;
use krypton::stats::{column_iocs, index_of_coincidence, letter_counts};

#[test]
fn ioc_of_repeated_letter_is_one() {
    assert_eq!(index_of_coincidence("AAAA"), Some(Score { num: 12, den: 12 }));
    assert_eq!(index_of_coincidence("a a"), Some(Score { num: 2, den: 2 }));
}

#[test]
fn ioc_needs_two_letters() {
    assert_eq!(index_of_coincidence("A"), None);
    assert_eq!(index_of_coincidence("1 2 3"), None);
}

#[test]
fn ioc_of_alphabet_is_zero() {
    assert_eq!(index_of_coincidence("ABCDEFGHIJKLMNOPQRSTUVWXYZ"), Some(Score { num: 0, den: 650 }));
}

#[test]
fn ioc_mixed() {
    // A twice, B once: 2 ordered pairs over 6
    assert_eq!(index_of_coincidence("ABA"), Some(Score { num: 2, den: 6 }));
}

#[test]
fn letter_counts_by_position() {
    let c = letter_counts("Hello, World");
    assert_eq!(c.len(), 26);
    assert_eq!(c[(b'L' - b'A') as usize], 3);
    assert_eq!(c[(b'O' - b'A') as usize], 2);
    assert_eq!(c[0], 0);
}

#[test]
fn column_iocs_split_by_period() {
    let r = column_iocs("ABABAB", 2);
    assert_eq!(r, vec![Some(Score { num: 6, den: 6 }), Some(Score { num: 6, den: 6 })]);
    let r = column_iocs("AB", 3);
    assert_eq!(r, vec![None, None, None]);
}

#[test]
fn split_reads_columns_of_full_rows() {
    let t = split_and_transform("ABCDEFG", 3).unwrap();
    assert_eq!(t, vec![vec!['A', 'D'], vec!['B', 'E'], vec!['C', 'F']]);
    assert_eq!(split_and_transform("AB", 3), None);
    assert_eq!(split_and_transform("", 1), None);
    assert_eq!(split_and_transform("AB", 0), None);
}

#[test]
fn kullback_ioc_mean() {
    let rows = vec![vec!['A', 'A'], vec!['A', 'B']];
    assert_eq!(kullback_ioc(&rows), Some(Score { num: 2, den: 4 }));
    assert_eq!(kullback_ioc(&vec![vec!['A'], vec!['B']]), None);
    assert_eq!(kullback_ioc(&vec![vec!['A', 'A'], vec!['B']]), None);
}

#[test]
fn kullback_profile() {
    let r = kullback("ABABABAB", 0);
    assert_eq!(r.len(), 60);
    assert_eq!(r[0], None);
    assert_eq!(r[2], Some(Score { num: 24, den: 24 }));
    assert_eq!(r[1], Some(Score { num: 24, den: 56 }));
    assert_eq!(r[9], None);
}
