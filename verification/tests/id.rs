use wdht::consts::ID_LEN;
use wdht::id::Id;

#[test]
fn operations() {
    let a = Id([1; ID_LEN]);
    let b = Id([0; ID_LEN]);
    // Xor
    assert_eq!(a ^ a, b);
    assert_eq!(a ^ b, a);
    assert_eq!(b ^ a, a);

    // And
    assert_eq!(a & a, a);
    assert_eq!(a & b, b);
    assert_eq!(b & a, b);

    // Or
    assert_eq!(a | a, a);
    assert_eq!(a | b, a);
    assert_eq!(b | a, a);

    // Not
    assert_eq!((!a).0[0], !a.0[0]);
    assert_eq!((!a).0[1], !a.0[1]);
    assert_eq!((!b).0[0], !b.0[1]);
}

#[test]
fn leading_zeros() {
    let mut a = Id([0; ID_LEN]);
    a.0[9] = 2;
    assert_eq!(a.leading_zeros(), 9 * 8 + 6);
    a.0[0] = 1;
    assert_eq!(a.leading_zeros(), 7);
}

#[test]
fn bitslice() {
    let mut a = Id([0; ID_LEN]);
    a.0[3] = 0b11111111;
    a.0[4] = 0b10101010;
    a.0[5] = 0b01010101;
    assert_eq!(a.bitslice(0, 4), 0);
    assert_eq!(a.bitslice(24, 4), 0b1111);
    assert_eq!(a.bitslice(23, 4), 0b0111);

    assert_eq!(a.bitslice(4 * 8 + 1, 7), 0b0101010);
    assert_eq!(a.bitslice(4 * 8 + 1, 8), 0b01010100);
    assert_eq!(a.bitslice(4 * 8 + 2, 8), 0b10101001);
    assert_eq!(a.bitslice(4 * 8 + 3, 8), 0b01010010);

    assert_eq!(a.bitslice(4 * 8 + 3, 1), 0b0);
    assert_eq!(a.bitslice(4 * 8 + 4, 1), 0b1);

    assert_eq!(a.bitslice(3 * 8 + 4, 8), 0b11111010);
}

#[test]
fn op_mask() {
    let a = Id::create_left_mask(8);
    assert_eq!(a.0[0], 0xFF);
    assert_eq!(a.0[1], 0x00);

    let a = Id::create_left_mask(11);
    assert_eq!(a.0[0], 0xFF);
    assert_eq!(a.0[1], 0xE0);

    let a = Id::zero().set_bit(0);
    assert_eq!(a.0[0], 0x80);
    assert_eq!(a.0[1], 0);

    let a = Id::zero().set_bit(1);
    assert_eq!(a.0[0], 0x40);
    assert_eq!(a.0[1], 0);

    let a = Id::zero().set_bit(9);
    assert_eq!(a.0[0], 0);
    assert_eq!(a.0[1], 0x40);
}

#[test]
fn left_mask_edges() {
    assert_eq!(Id::create_left_mask(0), Id::zero());
    assert_eq!(Id::create_left_mask(160), Id::ones());
    let a = Id::create_left_mask(159);
    assert_eq!(a.0[19], 0xFE);
    assert_eq!(a.0[18], 0xFF);
}

#[test]
fn xor_laws_on_values() {
    let a = Id::from_hex("cafebabe0123456789");
    let b = Id::from_hex("31415fab");
    assert_eq!((a ^ b) ^ b, a);
    assert_eq!(a ^ a, Id::zero());
    assert_eq!(a & !a, Id::zero());
    assert_eq!(Id::zero().leading_zeros(), 160);
    assert_eq!(Id::ones().leading_zeros(), 0);
}

#[test]
fn bitslice_is_big_endian() {
    let mut a = Id([0; ID_LEN]);
    a.0[0] = 0b1011_0001;
    a.0[1] = 0b0110_0000;
    // bits 4..12 are 0001 0110
    assert_eq!(a.bitslice(4, 8), 0b0001_0110);
    assert_eq!(a.bitslice(0, 0), 0);
    assert_eq!(a.bitslice(159, 1), 0);
    a.0[19] = 0x01;
    assert_eq!(a.bitslice(159, 1), 1);
    assert_eq!(a.bitslice(152, 8), 1);
}

#[test]
fn hex_round_trip() {
    let a = Id::from_hex("a0000000");
    assert_eq!(a.0[16], 0xa0);
    assert_eq!(a.0[15], 0);
    assert_eq!(a.as_short_hex(), "a0000000");
    let b = Id::from_hex("ABC");
    assert_eq!(b.0[19], 0xbc);
    assert_eq!(b.0[18], 0x0a);
    assert_eq!(b.as_short_hex(), "abc");
    assert_eq!(Id::zero().as_short_hex(), "");
    assert_eq!(Id::ones().as_short_hex(), "f".repeat(40));
    assert_eq!(Id::parse_hex("xyz"), None);
    assert_eq!(Id::parse_hex(&"0".repeat(41)), None);
    assert_eq!(Id::parse_hex(""), Some(Id::zero()));
}

#[test]
fn closer_orders_by_distance() {
    let t = Id::from_hex("b0001001");
    let x = Id::from_hex("b0001000");
    let y = Id::from_hex("a0001000");
    assert!(t.closer(&x, &y));
    assert!(!t.closer(&y, &x));
    assert!(!t.closer(&x, &x));
    assert!(Id::zero().value_lt(&Id::ones()));
}

#[test]
fn bootstrap_target_keeps_prefix() {
    let own = Id::from_hex("f0f0f0f0f0f0f0f0f0f0f0f0f0f0f0f0f0f0f0f0");
    let t = Id::bootstrap_target(own, 10, Id::zero());
    assert_eq!(t.0[0], 0xf0);
    // bit 10 flipped (1 -> 0), bits 8 and 9 kept, the rest zero
    assert_eq!(t.0[1], 0b1100_0000);
    assert_eq!(t.0[2], 0);
    assert_eq!((own ^ t).leading_zeros(), 10);
    let r = Id::random();
    let u = Id::bootstrap_target(own, 0, r);
    assert_eq!(u.0[0] & 0x80, 0);
    assert_eq!(u.0[5], r.0[5]);
}
