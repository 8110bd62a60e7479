use base64_codec::alphabet::{create_reversed_table, create_table, forward, reverse};
use base64_codec::codec::{decode, encode};

#[test]
fn test_encode() {
    for (input, expected) in [
        ("", ""),
        ("A", "QQ=="),
        ("AB", "QUI="),
        ("ABC", "QUJD"),
        ("ABCD", "QUJDRA=="),
    ] {
        let encoded = encode(input.as_bytes().to_vec());
        assert_eq!(encoded, expected.as_bytes());
    }
}

#[test]
fn test_decode() {
    for (input, expected) in [
        ("", ""),
        ("QQ==", "A"),
        ("QUI=", "AB"),
        ("QUJD", "ABC"),
        ("QUJDRA==", "ABCD"),
    ] {
        let decoded = decode(input.as_bytes().to_vec());
        assert_eq!(decoded, expected.as_bytes());
    }
}

#[test]
fn test_round_trip() {
    let cases: Vec<Vec<u8>> = vec![
        vec![],
        vec![0],
        vec![255],
        vec![0, 0],
        vec![255, 254, 253],
        vec![1, 2, 3, 4],
        vec![0, 127, 128, 255, 64],
        (0..=255).collect(),
        b"any carnal pleasure.".to_vec(),
    ];
    for b in cases {
        assert_eq!(decode(encode(b.clone())), b);
    }
}

#[test]
fn test_encode_length_multiple_of_four() {
    for n in 1..32 {
        let encoded = encode(vec![7u8; n]);
        assert_eq!(encoded.len() % 4, 0);
        assert_eq!(encoded.len(), 4 * ((n + 2) / 3));
    }
}

#[test]
fn test_padding_count() {
    for n in 0..16 {
        let encoded = encode(vec![b'x'; n]);
        let pad = encoded.iter().rev().take_while(|b| **b == b'=').count();
        assert_eq!(pad, (3 - n % 3) % 3);
    }
}

#[test]
fn test_empty() {
    assert_eq!(encode(vec![]), Vec::<u8>::new());
    assert_eq!(decode(vec![]), Vec::<u8>::new());
}

#[test]
fn test_forward_table() {
    let table = create_table();
    assert_eq!(table.len(), 64);
    assert_eq!(table.get(&0), Some(&b'A'));
    assert_eq!(table.get(&25), Some(&b'Z'));
    assert_eq!(table.get(&26), Some(&b'a'));
    assert_eq!(table.get(&51), Some(&b'z'));
    assert_eq!(table.get(&52), Some(&b'0'));
    assert_eq!(table.get(&61), Some(&b'9'));
    assert_eq!(table.get(&62), Some(&b'+'));
    assert_eq!(table.get(&63), Some(&b'/'));
    assert_eq!(table.get(&64), None);
}

#[test]
fn test_reversed_table() {
    let table = create_reversed_table();
    assert_eq!(table.len(), 64);
    assert_eq!(table.get(&b'A'), Some(&0));
    assert_eq!(table.get(&b'Z'), Some(&25));
    assert_eq!(table.get(&b'a'), Some(&26));
    assert_eq!(table.get(&b'z'), Some(&51));
    assert_eq!(table.get(&b'0'), Some(&52));
    assert_eq!(table.get(&b'9'), Some(&61));
    assert_eq!(table.get(&b'+'), Some(&62));
    assert_eq!(table.get(&b'/'), Some(&63));
    assert_eq!(table.get(&b'='), None);
}

#[test]
fn test_alphabet_bijection() {
    let alphabet = b"ABCDEFGHIJKLMNOPQRSTUVWXYZabcdefghijklmnopqrstuvwxyz0123456789+/";
    for i in 0..64u8 {
        assert_eq!(forward(i), alphabet[i as usize]);
        assert_eq!(reverse(forward(i)), i);
    }
    for &c in alphabet {
        assert_eq!(forward(reverse(c)), c);
    }
}

#[test]
fn test_reverse_lenient_on_unknown_bytes() {
    assert_eq!(reverse(b'='), 0);
    assert_eq!(reverse(b' '), 0);
    assert_eq!(reverse(b'\n'), 0);
    assert_eq!(reverse(0), 0);
    assert_eq!(reverse(255), 0);
}

#[test]
fn test_decode_lenient_on_malformed_input() {
    // Bytes outside the alphabet count as index 0.
    assert_eq!(decode(b"!!!!".to_vec()), vec![0, 0, 0]);
    // A length that is not a multiple of 4 is filled out with index 0.
    assert_eq!(decode(b"QQ".to_vec()), vec![b'A', 0, 0]);
    // Padding beyond two characters still only cuts decoded bytes.
    assert_eq!(decode(b"A===".to_vec()), Vec::<u8>::new());
}
