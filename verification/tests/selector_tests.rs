use evm_selectors::{Error, Selector};

#[test]
fn four_byte_round_trip() {
    let bytes = [0x01u8, 0x02, 0x03, 0x04];
    let sel = Selector::try_from_bytes(&bytes).unwrap();
    match sel {
        Selector::Four(inner) => assert_eq!(inner, bytes),
        Selector::ThirtyTwo(_) => panic!("expected the Four variant"),
    }
}

#[test]
fn thirty_two_byte_round_trip() {
    let mut bytes = [0u8; 32];
    for (i, b) in bytes.iter_mut().enumerate() {
        *b = i as u8;
    }
    let sel = Selector::try_from_bytes(&bytes).unwrap();
    match sel {
        Selector::ThirtyTwo(inner) => assert_eq!(inner, bytes),
        Selector::Four(_) => panic!("expected the ThirtyTwo variant"),
    }
}

#[test]
fn from_array_constructors() {
    let four = Selector::from([0xaau8, 0xbb, 0xcc, 0xdd]);
    assert_eq!(four, Selector::Four([0xaa, 0xbb, 0xcc, 0xdd]));
    let thirty_two = Selector::from([0x11u8; 32]);
    assert_eq!(thirty_two, Selector::ThirtyTwo([0x11; 32]));
}

#[test]
fn try_from_slice_trait() {
    let sel = Selector::try_from(&[1u8, 2, 3, 4][..]).unwrap();
    assert_eq!(sel, Selector::Four([1, 2, 3, 4]));
    assert_eq!(Selector::try_from(&[0u8; 5][..]), Err(Error::InvalidLength(5)));
}

#[test]
fn invalid_lengths_rejected() {
    for len in [0usize, 1, 2, 3, 5, 8, 16, 31, 33, 64] {
        let bytes = vec![0u8; len];
        let r = Selector::try_from_bytes(&bytes);
        assert_eq!(r, Err(Error::InvalidLength(len)));
    }
}

#[test]
fn equality_is_exact_bytes() {
    let a = Selector::Four([1, 2, 3, 4]);
    let b = Selector::Four([1, 2, 3, 4]);
    let c = Selector::Four([1, 2, 3, 5]);
    assert_eq!(a, b);
    assert_ne!(a, c);
    let d = Selector::ThirtyTwo([0u8; 32]);
    assert_ne!(a, d);
}
