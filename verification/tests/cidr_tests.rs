use ipv4_subnet::{Cidr, Ipv4Address, NetworkError};

#[test]
fn attempt_to_create_invalid_cidr() {
    let cidr = Cidr::new(33);
    assert_eq!(cidr, Err(NetworkError::CidrOutOfRangeError),);

    let cidr = Cidr::new(134);
    assert_eq!(cidr, Err(NetworkError::CidrOutOfRangeError),);

    let cidr = Cidr::new(255);
    assert_eq!(cidr, Err(NetworkError::CidrOutOfRangeError),);
}

#[test]
fn convert_cidr_to_bitmask() {
    assert_eq!(Cidr::new(0).unwrap().to_bitmask(), 0);
    assert_eq!(Cidr::new(1).unwrap().to_bitmask(), 2_147_483_648);
    assert_eq!(Cidr::new(2).unwrap().to_bitmask(), 3_221_225_472);
    assert_eq!(Cidr::new(16).unwrap().to_bitmask(), 4_294_901_760);
    assert_eq!(Cidr::new(30).unwrap().to_bitmask(), 4_294_967_292);
    assert_eq!(Cidr::new(31).unwrap().to_bitmask(), 4_294_967_294);
    assert_eq!(Cidr::new(32).unwrap().to_bitmask(), 4_294_967_295);
}

#[test]
fn create_valid_cidr() {
    for value in 0u8..=32 {
        let cidr = Cidr::new(value).unwrap();
        assert_eq!(*cidr, value);
    }
    assert_eq!(Cidr::new(32).map(|cidr| *cidr), Ok(32));
    assert_eq!(Cidr::new(33).map(|cidr| *cidr), Err(NetworkError::CidrOutOfRangeError));
}

#[test]
fn bitmask_of_24_bits() {
    assert_eq!(Cidr::new(24).unwrap().to_bitmask(), 0xFFFF_FF00);
}

#[test]
fn bitmask_has_its_upper_bits_set() {
    for value in 0u8..=32 {
        let mask = Cidr::new(value).unwrap().to_bitmask();
        assert_eq!(mask.leading_ones(), u32::from(value));
        assert_eq!(mask.trailing_zeros(), 32 - u32::from(value));
        assert_eq!(u64::from(mask), (1u64 << 32) - (1u64 << (32 - value)));
    }
}

#[test]
fn shorter_bitmask_is_a_prefix_of_a_longer_one() {
    for shorter in 0u8..=32 {
        for longer in shorter..=32 {
            let first = Cidr::new(shorter).unwrap().to_bitmask();
            let second = Cidr::new(longer).unwrap().to_bitmask();
            assert_eq!(first & second, first);
            assert_eq!(first | second, second);
            assert!(first <= second);
            assert_eq!(first == second, shorter == longer);
            assert!(first.count_ones() <= second.count_ones());
        }
    }
}

#[test]
fn addresses_are_their_octets() {
    let address = Ipv4Address::new(192, 52, 224, 255);
    assert_eq!(address.to_bits(), 0xc034_e0ff);
    assert_eq!(address.octets(), [192, 52, 224, 255]);
    assert_eq!(Ipv4Address::from_bits(0xc034_e0ff), address);
    assert_eq!(Ipv4Address::from_bits(0x0102_0304).octets(), [1, 2, 3, 4]);
    assert_eq!(Ipv4Address::new(0, 0, 0, 0).to_bits(), 0);
    assert_eq!(Ipv4Address::new(255, 255, 255, 255).to_bits(), u32::MAX);
    assert_eq!(Ipv4Address::new(0, 0, 1, 0).to_bits(), 256);
}
