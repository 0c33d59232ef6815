use domino::encoding::{percent_decode_bytes, percent_encode_bytes};

fn encode(bytes: &[u8]) -> Vec<u8> {
    percent_encode_bytes(&bytes.to_vec())
}

#[test]
fn unreserved_bytes_pass_through() {
    let input = b"AZaz09-._~".to_vec();
    assert_eq!(percent_encode_bytes(&input), input);
}

#[test]
fn reserved_bytes_become_uppercase_hex() {
    assert_eq!(encode(b" "), b"%20".to_vec());
    assert_eq!(encode(b"*"), b"%2A".to_vec());
    assert_eq!(encode(b"/"), b"%2F".to_vec());
    assert_eq!(encode(b":"), b"%3A".to_vec());
    assert_eq!(encode(b"%"), b"%25".to_vec());
    assert_eq!(encode(b"\xff"), b"%FF".to_vec());
    assert_eq!(encode(b"\x00"), b"%00".to_vec());
}

#[test]
fn every_byte_follows_the_unreserved_rule() {
    for b in 0u8..=255 {
        let one = vec![b];
        let enc = percent_encode_bytes(&one);
        let unreserved = b.is_ascii_alphanumeric()
            || b == b'-'
            || b == b'.'
            || b == b'_'
            || b == b'~';
        if unreserved {
            assert_eq!(enc, vec![b]);
        } else {
            assert_eq!(enc.len(), 3);
            assert_eq!(enc[0], b'%');
            let hex = format!("{:02X}", b);
            assert_eq!(&enc[1..], hex.as_bytes());
        }
    }
}

#[test]
fn every_byte_round_trips() {
    let mut all: Vec<u8> = Vec::new();
    for b in 0u8..=255 {
        all.push(b);
    }
    let enc = percent_encode_bytes(&all);
    let dec = percent_decode_bytes(&enc).expect("encoded bytes must decode");
    assert_eq!(dec, all);
}

#[test]
fn malformed_escapes_fail_to_decode() {
    assert!(percent_decode_bytes(&b"%".to_vec()).is_none());
    assert!(percent_decode_bytes(&b"%2".to_vec()).is_none());
    assert!(percent_decode_bytes(&b"%G1".to_vec()).is_none());
    assert!(percent_decode_bytes(&b"abc%2".to_vec()).is_none());
    assert!(percent_decode_bytes(&b"%2a".to_vec()).is_none());
}

#[test]
fn plain_bytes_decode_to_themselves() {
    assert_eq!(percent_decode_bytes(&b"plain".to_vec()), Some(b"plain".to_vec()));
    assert_eq!(percent_decode_bytes(&b"".to_vec()), Some(Vec::new()));
    assert_eq!(percent_decode_bytes(&b"a%20b".to_vec()), Some(b"a b".to_vec()));
}
