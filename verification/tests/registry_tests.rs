use evm_selectors::{parse_line, Error, EvmSelectors, Selector};

const GOOD: &str = "0x01020304,transfer(address,uint256)";

#[test]
fn loads_well_formed_records() {
    let raw = "0x01020304,transfer(address,uint256)\n0xa9059cbb,approve(address,uint256)";
    let reg = EvmSelectors::new_from_raw(raw).unwrap();
    assert_eq!(reg.items().len(), 2);
    let bucket = reg.get(&Selector::Four([0x01, 0x02, 0x03, 0x04])).unwrap();
    assert_eq!(bucket.len(), 1);
    assert_eq!(bucket[0].name, "transfer");
    let bucket = reg.get(&Selector::Four([0xa9, 0x05, 0x9c, 0xbb])).unwrap();
    assert_eq!(bucket.len(), 1);
    assert_eq!(bucket[0].name, "approve");
}

#[test]
fn empty_text_gives_empty_registry() {
    let reg = EvmSelectors::new_from_raw("").unwrap();
    assert!(reg.items().is_empty());
}

#[test]
fn trailing_newline_is_tolerated() {
    let raw = format!("{GOOD}\n");
    let reg = EvmSelectors::new_from_raw(&raw).unwrap();
    assert_eq!(reg.items().len(), 1);
}

#[test]
fn blank_interior_line_is_tolerated() {
    let raw = format!("{GOOD}\n\n{GOOD}");
    let reg = EvmSelectors::new_from_raw(&raw).unwrap();
    assert_eq!(reg.items().len(), 1);
    let bucket = reg.get(&Selector::Four([1, 2, 3, 4])).unwrap();
    assert_eq!(bucket.len(), 2);
}

#[test]
fn unparseable_signature_line_is_dropped() {
    let raw = "0x01020304,transfer(address,uint256)\n0x05060708,!!!garbage";
    let reg = EvmSelectors::new_from_raw(raw).unwrap();
    assert_eq!(reg.items().len(), 1);
    assert!(reg.get(&Selector::Four([5, 6, 7, 8])).is_none());
    assert!(reg.get(&Selector::Four([1, 2, 3, 4])).is_some());
}

#[test]
fn malformed_selector_aborts_the_load() {
    let raw = "0x01020304,transfer(address,uint256)\n0xzz,bad()";
    assert_eq!(EvmSelectors::new_from_raw(raw).unwrap_err(), Error::InvalidDigit(0));
}

#[test]
fn line_without_comma_aborts_the_load() {
    let raw = "0x01020304,transfer(address,uint256)\nno comma here";
    assert_eq!(EvmSelectors::new_from_raw(raw).unwrap_err(), Error::MalformedRecord);
}

#[test]
fn thirty_two_byte_selectors_load() {
    let raw = format!("0x{},Transfer(address,address,uint256)", "dd".repeat(32));
    let reg = EvmSelectors::new_from_raw(&raw).unwrap();
    let bucket = reg.get(&Selector::ThirtyTwo([0xdd; 32])).unwrap();
    assert_eq!(bucket.len(), 1);
    assert_eq!(bucket[0].name, "Transfer");
}

#[test]
fn collisions_keep_both_entries_in_input_order() {
    let raw = "0x01020304,first(address)\n0x01020304,second(uint256)";
    let reg = EvmSelectors::new_from_raw(raw).unwrap();
    assert_eq!(reg.items().len(), 1);
    let bucket = reg.get(&Selector::Four([1, 2, 3, 4])).unwrap();
    assert_eq!(bucket.len(), 2);
    assert_eq!(bucket[0].name, "first");
    assert_eq!(bucket[1].name, "second");
}

#[test]
fn duplicate_records_are_retained() {
    let raw = format!("{GOOD}\n{GOOD}");
    let reg = EvmSelectors::new_from_raw(&raw).unwrap();
    let bucket = reg.get(&Selector::Four([1, 2, 3, 4])).unwrap();
    assert_eq!(bucket.len(), 2);
    assert_eq!(bucket[0], bucket[1]);
}

#[test]
fn push_appends_after_existing_entries() {
    let mut reg = EvmSelectors::new_from_raw(GOOD).unwrap();
    let sel = Selector::Four([1, 2, 3, 4]);
    let (_, function) = parse_line("0x01020304,other(bool)").unwrap().unwrap();
    reg.push(sel, function);
    let bucket = reg.get(&sel).unwrap();
    assert_eq!(bucket.len(), 2);
    assert_eq!(bucket[0].name, "transfer");
    assert_eq!(bucket[1].name, "other");
}

#[test]
fn push_creates_a_bucket_for_a_new_selector() {
    let mut reg = EvmSelectors::new_from_raw("").unwrap();
    let sel = Selector::Four([9, 9, 9, 9]);
    let (_, function) = parse_line("0x01020304,mint(address)").unwrap().unwrap();
    reg.push(sel, function);
    let bucket = reg.get(&sel).unwrap();
    assert_eq!(bucket.len(), 1);
    assert_eq!(bucket[0].name, "mint");
}

#[test]
fn unknown_selector_yields_nothing() {
    let reg = EvmSelectors::new_from_raw(GOOD).unwrap();
    assert!(reg.get(&Selector::Four([0xff, 0xff, 0xff, 0xff])).is_none());
}

#[test]
fn oversized_array_bound_line_is_dropped_from_load() {
    let raw = "0x01020304,transfer(address,uint256)\n0x05060708,foo(uint256[18446744073709551616])";
    let reg = EvmSelectors::new_from_raw(raw).unwrap();
    assert_eq!(reg.items().len(), 1);
    assert!(reg.get(&Selector::Four([5, 6, 7, 8])).is_none());
}

#[test]
fn registry_can_be_cloned() {
    let raw = format!("{GOOD}\n0xa9059cbb,approve(address,uint256)");
    let reg = EvmSelectors::new_from_raw(&raw).unwrap();
    let copy = reg.clone();
    assert_eq!(reg.items(), copy.items());
}

#[test]
fn loading_twice_gives_identical_contents() {
    let raw = "0x01020304,transfer(address,uint256)\n0x01020304,second(uint256)\n0xa9059cbb,approve(address,uint256)";
    let first = EvmSelectors::new_from_raw(raw).unwrap();
    let second = EvmSelectors::new_from_raw(raw).unwrap();
    assert_eq!(first.items(), second.items());
}
