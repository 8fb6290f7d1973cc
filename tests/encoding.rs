use payment_ledger::{address_to_string, hash_to_string, parse_address, LedgerError};

#[test]
fn address_text_round_trip() {
    let addr = [0xabu8; 20];
    let text = address_to_string(&addr);
    assert_eq!(text, format!("0x{}", "ab".repeat(20)));
    assert_eq!(parse_address(&text), Ok(addr));
}

#[test]
fn address_text_is_lowercase_hex() {
    let mut addr = [0u8; 20];
    addr[0] = 0x01;
    addr[19] = 0xfe;
    assert_eq!(
        address_to_string(&addr),
        "0x01000000000000000000000000000000000000fe"
    );
}

#[test]
fn parse_accepts_upper_case_and_no_prefix() {
    let expected = [0x11u8; 20];
    assert_eq!(parse_address("0x1111111111111111111111111111111111111111"), Ok(expected));
    assert_eq!(parse_address("1111111111111111111111111111111111111111"), Ok(expected));
    assert_eq!(parse_address("0xABABABABABABABABABABABABABABABABABABABAB"), Ok([0xabu8; 20]));
    assert_eq!(parse_address("0x0x1111111111111111111111111111111111111111"), Ok(expected));
}

#[test]
fn parse_rejects_malformed_text() {
    let bad = [
        "",
        "0x",
        "0x11",
        "0x111111111111111111111111111111111111111",
        "0x111111111111111111111111111111111111111111",
        "0x11111111111111111111111111111111111111zz",
        "0X1111111111111111111111111111111111111111",
    ];
    for text in bad {
        assert_eq!(parse_address(text), Err(LedgerError::MalformedAddress), "{}", text);
    }
}

#[test]
fn hash_text_has_sixty_four_digits() {
    let mut h = [0u8; 32];
    h[31] = 0x0f;
    let text = hash_to_string(&h);
    assert_eq!(text.len(), 66);
    assert_eq!(text, format!("0x{}0f", "0".repeat(62)));
}
