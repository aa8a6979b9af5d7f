use clam_core::base64::decode;
use clam_core::settlement::{payment_signature, settlement_signature};

fn encode(bytes: &[u8]) -> String {
    let table: Vec<char> = ('A'..='Z').chain('a'..='z').chain('0'..='9').chain(['+', '/']).collect();
    let mut text = String::new();
    for group in bytes.chunks(3) {
        let n = (0..3).fold(0u32, |n, i| n << 8 | *group.get(i).unwrap_or(&0) as u32);
        for i in 0..4 {
            if i <= group.len() {
                text.push(table[(n >> (18 - 6 * i)) as usize & 63]);
            } else {
                text.push('=');
            }
        }
    }
    text
}

fn decoded(text: &str) -> Option<Vec<u8>> {
    decode(&text.chars().collect())
}

fn signature(json: &str) -> Option<String> {
    payment_signature(encode(json.as_bytes()))
}

#[test]
fn known_base64_texts_decode() {
    assert_eq!(decoded(""), Some(vec![]));
    assert_eq!(decoded("Zg=="), Some(b"f".to_vec()));
    assert_eq!(decoded("Zm8="), Some(b"fo".to_vec()));
    assert_eq!(decoded("Zm9v"), Some(b"foo".to_vec()));
    assert_eq!(decoded("Zm9vYmFy"), Some(b"foobar".to_vec()));
    assert_eq!(decoded("+/+/"), Some(vec![0xfb, 0xff, 0xbf]));
}

#[test]
fn base64_round_trips() {
    for len in 0..200usize {
        let bytes: Vec<u8> = (0..len).map(|i| (i * 37 + len * 11) as u8).collect();
        assert_eq!(decoded(&encode(&bytes)), Some(bytes));
    }
}

#[test]
fn what_no_bytes_encode_to_is_refused() {
    for text in ["Z", "Zg", "Zg=", "Zh==", "Zm9=", "====", "Z===", "Zg==Zg==", "Zm 9v", "Zm9-", "Zm9v\n", "=m9v"] {
        assert_eq!(decoded(text), None, "{text:?}");
    }
}

#[test]
fn a_settle_response_gives_its_transaction() {
    let json = r#"{"success":true,"transaction":"5kJ","network":"solana-devnet","payer":"9xQe"}"#;
    assert_eq!(signature(json).as_deref(), Some("5kJ"));
}

#[test]
fn a_failed_settle_response_gives_none() {
    assert_eq!(signature(r#"{"success":false,"errorReason":"x","transaction":""}"#), None);
    assert_eq!(signature(r#"{"success":true}"#), None);
    assert_eq!(signature(r#"{"success":true,"transaction":7}"#), None);
}

#[test]
fn a_header_that_is_no_settle_response_is_the_signature() {
    assert_eq!(payment_signature("5kJ-abc".to_string()).as_deref(), Some("5kJ-abc"));
    for json in ["[]", "7", "not json", r#"{"transaction":"5kJ"}"#, r#"{"success":"yes","transaction":"5kJ"}"#] {
        assert_eq!(signature(json), Some(encode(json.as_bytes())));
    }
}

#[test]
fn the_members_of_a_settle_response_decide() {
    let header = || "header".to_string();
    let transaction = || Some("5kJ".to_string());
    assert_eq!(settlement_signature(header(), Some(true), transaction()), transaction());
    assert_eq!(settlement_signature(header(), Some(true), None), None);
    assert_eq!(settlement_signature(header(), Some(false), transaction()), None);
    assert_eq!(settlement_signature(header(), None, transaction()), Some(header()));
}
