use ledger::codec::decode_tx;
use ledger::codec::encode_tx;
use ledger::tx::Transaction;

fn tx(from: &str, to: &str, value: u64) -> Transaction {
    Transaction::new(String::from(from), String::from(to), value)
}

#[test]
fn encode_exact_form() {
    let t = tx("GENESIS", "ABC", 1000);
    assert_eq!(
        encode_tx(&t),
        "{\"from\":\"GENESIS\",\"to\":\"ABC\",\"value\":1000}"
    );
}

#[test]
fn encode_exact_form_zero_and_empty() {
    let t = tx("", "", 0);
    assert_eq!(encode_tx(&t), "{\"from\":\"\",\"to\":\"\",\"value\":0}");
}

#[test]
fn encode_escapes_specials() {
    let t = tx("a\"b", "c\\d\ne", 7);
    assert_eq!(
        encode_tx(&t),
        "{\"from\":\"a\\\"b\",\"to\":\"c\\\\d\\ne\",\"value\":7}"
    );
}

#[test]
fn round_trip_simple() {
    let t = tx("GENESIS", "ABC", 1000);
    let line = encode_tx(&t);
    let back = decode_tx(&line).expect("own encoding must decode");
    assert_eq!(back, t);
}

#[test]
fn round_trip_all_fields_checked() {
    let t = tx("alice", "bob", 42);
    let back = decode_tx(&encode_tx(&t)).expect("own encoding must decode");
    assert_eq!(back.from, "alice");
    assert_eq!(back.to, "bob");
    assert_eq!(back.value, 42);
}

#[test]
fn round_trip_awkward_addresses() {
    let cases = [
        ("", "", 0u64),
        ("same", "same", 1),
        ("a\"b\\c\nd", "\n\n", 123456789),
        ("{\"from\":\"x\",\"to\":\"y\",\"value\":1}", "z", 5),
        ("unicode £ ☃", "été", 9),
        ("\\", "\"", u64::MAX),
    ];
    for (from, to, value) in cases {
        let t = tx(from, to, value);
        let back = decode_tx(&encode_tx(&t)).expect("own encoding must decode");
        assert_eq!(back, t);
    }
}

#[test]
fn round_trip_value_extremes() {
    for value in [0u64, 1, 9, 10, 999_999_999, 1_000_000_000, u64::MAX] {
        let t = tx("A", "B", value);
        let back = decode_tx(&encode_tx(&t)).expect("own encoding must decode");
        assert_eq!(back.value, value);
    }
}

#[test]
fn decode_rejects_garbage() {
    assert!(decode_tx("").is_none());
    assert!(decode_tx("garbage").is_none());
    assert!(decode_tx("{}").is_none());
    assert!(decode_tx("{\"from\":\"A\"}").is_none());
    assert!(decode_tx("{\"from\":\"A\",\"to\":\"B\"}").is_none());
}

#[test]
fn decode_rejects_malformed_value() {
    // no digits
    assert!(decode_tx("{\"from\":\"A\",\"to\":\"B\",\"value\":}").is_none());
    // leading zero
    assert!(decode_tx("{\"from\":\"A\",\"to\":\"B\",\"value\":007}").is_none());
    // not a digit
    assert!(decode_tx("{\"from\":\"A\",\"to\":\"B\",\"value\":1x}").is_none());
    // one past u64::MAX
    assert!(decode_tx("{\"from\":\"A\",\"to\":\"B\",\"value\":18446744073709551616}").is_none());
    // u64::MAX itself is fine
    let back = decode_tx("{\"from\":\"A\",\"to\":\"B\",\"value\":18446744073709551615}")
        .expect("u64::MAX fits");
    assert_eq!(back.value, u64::MAX);
}

#[test]
fn decode_rejects_broken_framing() {
    // unterminated field
    assert!(decode_tx("{\"from\":\"A").is_none());
    // unknown escape
    assert!(decode_tx("{\"from\":\"\\x\",\"to\":\"B\",\"value\":1}").is_none());
    // missing closing brace
    assert!(decode_tx("{\"from\":\"A\",\"to\":\"B\",\"value\":1").is_none());
    // trailing garbage
    assert!(decode_tx("{\"from\":\"A\",\"to\":\"B\",\"value\":1}x").is_none());
}
