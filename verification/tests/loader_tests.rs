use dex_arb_detector::types::RawToken;

fn token(decimals: &str, id: &str) -> RawToken {
    RawToken { decimals: decimals.to_string(), id: id.to_string() }
}

#[test]
fn decimals_parsed() {
    assert_eq!(token("6", "x").decimals_or_default(), 6);
    assert_eq!(token("18", "x").decimals_or_default(), 18);
    assert_eq!(token("+8", "x").decimals_or_default(), 8);
    assert_eq!(token("0", "x").decimals_or_default(), 0);
}

#[test]
fn decimals_default_when_unreadable() {
    assert_eq!(token("", "x").decimals_or_default(), 18);
    assert_eq!(token("abc", "x").decimals_or_default(), 18);
    assert_eq!(token("-6", "x").decimals_or_default(), 18);
    assert_eq!(token(" 6", "x").decimals_or_default(), 18);
    assert_eq!(token("4294967296", "x").decimals_or_default(), 18);
    assert_eq!(token("4294967295", "x").decimals_or_default(), 4294967295);
}

#[test]
fn normalized_id_lowercases() {
    assert_eq!(
        token("18", "0xC02aaA39b223FE8D0A0e5C4F27eAD9083C756Cc2").normalized_id(),
        "0xc02aaa39b223fe8d0a0e5c4f27ead9083c756cc2"
    );
}
