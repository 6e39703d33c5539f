use libgitdit::oid::Oid;

#[test]
fn oid_from_hex_reads_forty_digits() {
    let o = Oid::from_hex("000102030405060708090a0b0c0d0e0f10fffefd").unwrap();
    assert_eq!(
        o.bytes,
        [0, 1, 2, 3, 4, 5, 6, 7, 8, 9, 10, 11, 12, 13, 14, 15, 16, 255, 254, 253]
    );
}

#[test]
fn oid_to_hex_writes_lowercase_digits() {
    let o = Oid { bytes: [0xab; 20] };
    assert_eq!(o.to_hex(), "abababababababababababababababababababab");
    let p = Oid { bytes: [0, 1, 2, 3, 4, 5, 6, 7, 8, 9, 10, 11, 12, 13, 14, 15, 16, 255, 254, 253] };
    assert_eq!(p.to_hex(), "000102030405060708090a0b0c0d0e0f10fffefd");
}

#[test]
fn oid_hex_round_trip() {
    for b in [0u8, 1, 9, 10, 15, 16, 127, 128, 200, 255] {
        let mut bytes = [b; 20];
        bytes[7] = b.wrapping_mul(31);
        let o = Oid { bytes };
        assert_eq!(Oid::from_hex(&o.to_hex()), Some(o));
    }
}

#[test]
fn oid_from_hex_refuses_other_texts() {
    assert_eq!(Oid::from_hex(""), None);
    assert_eq!(Oid::from_hex("abc"), None);
    assert_eq!(Oid::from_hex("000102030405060708090a0b0c0d0e0f10fffef"), None);
    assert_eq!(Oid::from_hex("000102030405060708090a0b0c0d0e0f10fffefd0"), None);
    assert_eq!(Oid::from_hex("000102030405060708090A0B0C0D0E0F10FFFEFD"), None);
    assert_eq!(Oid::from_hex("g00102030405060708090a0b0c0d0e0f10fffefd"), None);
    assert_eq!(Oid::from_hex("00010203040506070809 a0b0c0d0e0f10fffefd"), None);
}

#[test]
fn oid_same_compares_the_bytes() {
    let a = Oid { bytes: [1; 20] };
    let mut other = [1; 20];
    other[19] = 2;
    let b = Oid { bytes: other };
    assert!(a.same(&a));
    assert!(!a.same(&b));
    assert!(a < b);
}

#[test]
fn oid_order_is_that_of_the_bytes() {
    let low = Oid { bytes: [1; 20] };
    let mut bytes = [1; 20];
    bytes[19] = 2;
    let mid = Oid { bytes };
    let mut bytes = [0; 20];
    bytes[0] = 2;
    let high = Oid { bytes };
    assert!(low.before(&mid));
    assert!(mid.before(&high));
    assert!(low.before(&high));
    assert!(!mid.before(&low));
    assert!(!high.before(&mid));
    assert!(!low.before(&low));
    for (a, b) in [(low, mid), (mid, high), (high, low), (mid, mid)] {
        assert_eq!(a.before(&b), a < b);
    }
}
