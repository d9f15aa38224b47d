use evm_selectors::{parse_hex_string_to_bytes, parse_line, parse_selector, Error, Selector};

#[test]
fn hex_decodes_bytes() {
    let bytes = parse_hex_string_to_bytes("0x00112233").unwrap();
    assert_eq!(bytes, vec![0x00, 0x11, 0x22, 0x33]);
}

#[test]
fn hex_decodes_mixed_case() {
    let bytes = parse_hex_string_to_bytes("0xDeadBeef").unwrap();
    assert_eq!(bytes, vec![0xde, 0xad, 0xbe, 0xef]);
}

#[test]
fn hex_empty_payload_is_ok() {
    let bytes = parse_hex_string_to_bytes("0x").unwrap();
    assert_eq!(bytes, Vec::<u8>::new());
}

#[test]
fn hex_missing_prefix_fails() {
    assert_eq!(parse_hex_string_to_bytes("00112233"), Err(Error::MissingPrefix));
    assert_eq!(parse_hex_string_to_bytes(""), Err(Error::MissingPrefix));
    assert_eq!(parse_hex_string_to_bytes("x0"), Err(Error::MissingPrefix));
}

#[test]
fn hex_odd_digit_count_fails() {
    assert_eq!(parse_hex_string_to_bytes("0x001"), Err(Error::OddLength));
    assert_eq!(parse_hex_string_to_bytes("0x1"), Err(Error::OddLength));
}

#[test]
fn hex_invalid_digit_fails_with_index() {
    assert_eq!(parse_hex_string_to_bytes("0xzz112233"), Err(Error::InvalidDigit(0)));
    assert_eq!(parse_hex_string_to_bytes("0x00zz33"), Err(Error::InvalidDigit(2)));
    assert_eq!(parse_hex_string_to_bytes("0x0g"), Err(Error::InvalidDigit(0)));
}

#[test]
fn selector_from_hex() {
    let sel = parse_selector("0x01020304").unwrap();
    assert_eq!(sel, Selector::Four([1, 2, 3, 4]));
}

#[test]
fn selector_from_long_hex() {
    let raw = format!("0x{}", "ab".repeat(32));
    let sel = parse_selector(&raw).unwrap();
    assert_eq!(sel, Selector::ThirtyTwo([0xab; 32]));
}

#[test]
fn selector_wrong_decoded_length_fails() {
    assert_eq!(parse_selector("0x010203"), Err(Error::InvalidLength(3)));
    assert_eq!(parse_selector("0x"), Err(Error::InvalidLength(0)));
}

#[test]
fn selector_hex_errors_propagate() {
    assert_eq!(parse_selector("01020304"), Err(Error::MissingPrefix));
    assert_eq!(parse_selector("0x010"), Err(Error::OddLength));
    assert_eq!(parse_selector("0xgg020304"), Err(Error::InvalidDigit(0)));
}

#[test]
fn empty_line_yields_nothing() {
    assert_eq!(parse_line("").unwrap(), None);
}

#[test]
fn well_formed_line_parses() {
    let (sel, function) = parse_line("0x01020304,transfer(address,uint256)")
        .unwrap()
        .expect("record should be kept");
    assert_eq!(sel, Selector::Four([1, 2, 3, 4]));
    assert_eq!(function.name, "transfer");
    assert_eq!(function.inputs.len(), 2);
}

#[test]
fn signature_commas_are_not_split() {
    let (sel, function) = parse_line("0x01020304,foo(uint256,bool,address)")
        .unwrap()
        .expect("record should be kept");
    assert_eq!(sel, Selector::Four([1, 2, 3, 4]));
    assert_eq!(function.name, "foo");
    assert_eq!(function.inputs.len(), 3);
}

#[test]
fn line_without_comma_is_hard_error() {
    assert_eq!(parse_line("0x01020304").unwrap_err(), Error::MalformedRecord);
    assert_eq!(parse_line("just some text").unwrap_err(), Error::MalformedRecord);
}

#[test]
fn line_with_bad_selector_is_hard_error() {
    assert_eq!(
        parse_line("01020304,transfer(address,uint256)").unwrap_err(),
        Error::MissingPrefix
    );
    assert_eq!(parse_line("0x0102,transfer(address,uint256)").unwrap_err(), Error::InvalidLength(2));
    assert_eq!(parse_line("0xzz020304,transfer(address,uint256)").unwrap_err(), Error::InvalidDigit(0));
}

#[test]
fn unparseable_signature_is_dropped_silently() {
    assert_eq!(parse_line("0x01020304,!!!not a signature").unwrap(), None);
}

#[test]
fn oversized_array_bound_is_dropped_silently() {
    // one past usize::MAX: the delegated parser would panic on this size
    assert_eq!(
        parse_line("0x01020304,foo(uint256[18446744073709551616] x)").unwrap(),
        None
    );
    assert_eq!(
        parse_line("0x01020304,foo(uint8[99999999999999999999999999])").unwrap(),
        None
    );
}

#[test]
fn fixed_size_arrays_still_parse() {
    let (sel, function) = parse_line("0x01020304,baz(uint256[3],address[2][4])")
        .unwrap()
        .expect("record should be kept");
    assert_eq!(sel, Selector::Four([1, 2, 3, 4]));
    assert_eq!(function.name, "baz");
    assert_eq!(function.inputs.len(), 2);
}
