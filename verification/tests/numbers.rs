use gravity_reth::bytes::{exceeds, number_at, word_of};

#[test]
fn numbers_as_words() {
    assert_eq!(word_of(0), [0u8; 32]);
    let mut expected = [0u8; 32];
    expected[30] = 0x12;
    expected[31] = 0x34;
    assert_eq!(word_of(0x1234), expected);
    let word = word_of(u128::MAX);
    assert_eq!(&word[..16], &[0u8; 16]);
    assert_eq!(&word[16..], &[0xffu8; 16]);
}

#[test]
fn words_as_numbers() {
    assert_eq!(number_at(&word_of(0x1234), 16, 32), 0x1234);
    assert_eq!(number_at(&word_of(u128::MAX), 16, 32), u128::MAX);
    assert_eq!(number_at(&[1, 2, 3], 1, 3), 0x0203);
    assert_eq!(number_at(&[1, 2, 3], 1, 1), 0);
}

#[test]
fn order_of_words() {
    let mut high = [0u8; 32];
    high[0] = 1;
    assert!(exceeds(&high, &word_of(u128::MAX)));
    assert!(!exceeds(&word_of(u128::MAX), &high));
    assert!(exceeds(&word_of(2), &word_of(1)));
    assert!(!exceeds(&word_of(1), &word_of(1)));
}
