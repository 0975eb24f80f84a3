use base_62::base62::char_to_remainder;
use base_62::{decode, encode, Error};

#[test]
fn test_encode() {
    let cases: Vec<Vec<u8>> = vec![
        vec![],
        vec![0u8],
        vec![1u8],
        vec![0u8, 0u8],
        vec![0u8, 1u8],
        vec![1u8, 0u8],
        vec![1u8, 1u8],
        vec![0, 0, 0, 1],
        [62u8; 10].to_vec(),
        [63u8; 10].to_vec(),
        [1u8; 10].to_vec(),
        [0u8; 10].to_vec(),
        "Lorem ipsum dolor sit amet, consectetur adipiscing elit, sed do eiusmod tempor incididunt"
            .as_bytes()
            .to_vec(),
        vec![0xDE, 0xAD, 0xBE, 0xEF],
    ];

    for (case, input) in cases.into_iter().enumerate() {
        let encoded = encode(&input);
        let decoded = decode(&encoded).expect("error decoding base62 input");
        assert_eq!(
            input, decoded,
            "\nCase {}:\nbase62({})\nmismatch: \nencoded({:?}) != \ndecoded({:?})",
            case, encoded, input, decoded
        );
    }
}

#[test]
fn test_invalid() {
    assert!(decode("abc-").is_err(), "expected invalid '-'");
    assert!(decode("wSBzv9UB5PeI/26").is_err(), "expected invalid '/'");
    assert!(decode("jSO+uL8").is_err(), "expected invalid '+");
}

#[test]
fn invalid_names_the_character() {
    assert_eq!(decode("abc-"), Err(Error::BadCharacter { character: '-' }));
    assert_eq!(decode("wSBzv9UB5PeI/26"), Err(Error::BadCharacter { character: '/' }));
    assert_eq!(decode("jSO+uL8"), Err(Error::BadCharacter { character: '+' }));
}

#[test]
fn invalid_names_the_first_bad_character() {
    assert_eq!(decode("a-b+"), Err(Error::BadCharacter { character: '-' }));
    assert_eq!(decode("é"), Err(Error::BadCharacter { character: 'é' }));
    assert_eq!(decode(" "), Err(Error::BadCharacter { character: ' ' }));
}

#[test]
fn empty_identity() {
    assert_eq!(encode(&[]), "");
    assert_eq!(decode(""), Ok(vec![]));
}

#[test]
fn leading_zeros_kept() {
    let encoded = encode(&[0, 0, 0, 1]);
    assert_eq!(decode(&encoded), Ok(vec![0, 0, 0, 1]));
    let zeros = [0u8; 33];
    assert_eq!(decode(&encode(&zeros)), Ok(zeros.to_vec()));
}

#[test]
fn known_vector_deadbeef() {
    assert_eq!(encode(&[0xDE, 0xAD, 0xBE, 0xEF]), "JsoUl8");
    assert_eq!(decode("JsoUl8"), Ok(vec![0xDE, 0xAD, 0xBE, 0xEF]));
}

#[test]
fn known_vector_lorem() {
    let text = "Lorem ipsum dolor sit amet, consectetur adipiscing elit, sed do eiusmod tempor incididunt";
    let expected = "Inj62xrWzFT5RgFoP72ZkfbrMabXdyZeYGijtTt8zuBN4XvHvEw6x2pk2BtdepGle57axcSeY2ixeXqOvwpE2VaEE3pHeeumHvIbZf0qUUxRBg99NrIALFCE";
    assert_eq!(encode(text.as_bytes()), expected);
    assert_eq!(decode(expected), Ok(text.as_bytes().to_vec()));
}

#[test]
fn small_vectors() {
    // 0x01 0x00 is 256 = 8 + 4 * 62.
    assert_eq!(encode(&[0]), "84");
    // 0x01 0xFF is 511 = 15 + 8 * 62.
    assert_eq!(encode(&[0xFF]), "F8");
    assert_eq!(decode("84"), Ok(vec![0]));
    // A single symbol is one byte, the one that is dropped.
    assert_eq!(decode("z"), Ok(vec![]));
}

#[test]
fn alphabet_closure() {
    let mut input: Vec<u8> = Vec::new();
    for i in 0..=255u8 {
        input.push(i);
        let encoded = encode(&input);
        assert!(!encoded.is_empty());
        assert!(encoded.chars().all(|c| c.is_ascii_alphanumeric()));
    }
    assert_eq!(decode(&encode(&input)), Ok(input));
}

#[test]
fn round_trip_mixed_buffers() {
    let cases: Vec<Vec<u8>> = vec![
        vec![0, 7, 0, 0, 9, 0],
        vec![255; 40],
        vec![5, 0, 0, 0],
        (0..200u32).map(|i| (i * 37 % 256) as u8).collect(),
    ];
    for input in cases {
        assert_eq!(decode(&encode(&input)), Ok(input));
    }
}

#[test]
fn deterministic() {
    let input = vec![9u8, 0, 200, 17, 0];
    assert_eq!(encode(&input), encode(&input.clone()));
    let text = encode(&input);
    assert_eq!(decode(&text), decode(&text.clone()));
}

#[test]
fn remainder_of_each_range() {
    assert_eq!(char_to_remainder('0'), Ok(0));
    assert_eq!(char_to_remainder('9'), Ok(9));
    assert_eq!(char_to_remainder('A'), Ok(10));
    assert_eq!(char_to_remainder('Z'), Ok(35));
    assert_eq!(char_to_remainder('a'), Ok(36));
    assert_eq!(char_to_remainder('z'), Ok(61));
    assert_eq!(char_to_remainder('_'), Err(Error::BadCharacter { character: '_' }));
}
