use raid_2::hamming::{bit_from_right, decode, encode, is_power_of_two, num_to_bool};

#[test]
fn hamming_bit_at_position_test() {
    // 22 = 0b10110
    assert_eq!(0, bit_from_right(22, 0));
    assert_eq!(1, bit_from_right(22, 1));
    assert_eq!(1, bit_from_right(22, 2));
    assert_eq!(0, bit_from_right(22, 3));
    assert_eq!(1, bit_from_right(22, 4));
}

#[test]
fn is_power_of_two_test() {
    assert!(is_power_of_two(1));
    assert!(is_power_of_two(4));
    assert!(!is_power_of_two(545));
    assert!(is_power_of_two(1024));
}

#[test]
fn hamming_hamming_encode_test() {
    let vec = num_to_bool(&vec![1, 0, 0, 1, 1, 0, 1, 0]);
    let encoded = encode(&vec);
    assert_eq!(
        vec![false, true, true, true, false, false, true, false, true, false, true, false],
        encoded
    );
}

#[test]
fn hamming_decode_on_correct_test() {
    let vec = num_to_bool(&vec![1, 0, 0, 1, 1, 0, 1, 0]);
    let encoded = encode(&vec);
    let decoded = decode(&encoded);
    assert_eq!(vec, decoded.0);
}

#[test]
fn hamming_decode_on_incorrect_test() {
    let initial = num_to_bool(&vec![1, 0, 0, 1, 1, 0, 1, 0]);
    let incorrect = num_to_bool(&vec![0, 1, 0, 1, 0, 0, 1, 0, 1, 0, 1, 0]); // error on 2nd position
    assert_eq!(decode(&incorrect), (initial, Some(2)));
}

#[test]
fn bit_at_position_test() {
    // 22 = 0b10110
    assert_eq!(0, bit_from_right(22, 0));
    assert_eq!(1, bit_from_right(22, 1));
    assert_eq!(1, bit_from_right(22, 2));
    assert_eq!(0, bit_from_right(22, 3));
    assert_eq!(1, bit_from_right(22, 4));
}

#[test]
fn hamming_encode_test() {
    let vec = num_to_bool(&vec![1, 0, 0, 1, 1, 0, 1, 0]);
    let encoded = encode(&vec);
    assert_eq!(
        vec![false, true, true, true, false, false, true, false, true, false, true, false],
        encoded
    );
}

#[test]
fn hamming_hamming_decode_on_correct_test() {
    let vec = num_to_bool(&vec![1, 0, 0, 1, 1, 0, 1, 0]);
    let encoded = encode(&vec);
    let decoded = decode(&encoded);
    assert_eq!(vec, decoded.0);
}

#[test]
fn hamming_hamming_decode_on_incorrect_test() {
    let initial = num_to_bool(&vec![1, 0, 0, 1, 1, 0, 1, 0]);
    let incorrect = num_to_bool(&vec![0, 1, 0, 1, 0, 0, 1, 0, 1, 0, 1, 0]); // error on 2nd position
    assert_eq!(decode(&incorrect), (initial, Some(2)));
}
