use actionkv::ethernet::MacAddress;
use actionkv::password::{mutable_is_strong_password, read_only_is_strong_password};

#[test]
fn new_mac_is_local_and_not_unicast() {
    for _ in 0..16 {
        let mac = MacAddress::new();
        assert!(mac.is_local());
        assert!(!mac.is_unicast());
        assert_eq!(mac.0[0] & 3, 3);
    }
}

#[test]
fn mac_flag_bits() {
    let global_unicast = MacAddress([0x00, 0x1b, 0x44, 0x11, 0x3a, 0xb7]);
    assert!(!global_unicast.is_local());
    assert!(!global_unicast.is_unicast());

    let unicast = MacAddress([0x01, 0, 0, 0, 0, 0]);
    assert!(unicast.is_unicast());
    assert!(!unicast.is_local());

    let local = MacAddress([0x02, 0, 0, 0, 0, 0]);
    assert!(local.is_local());
    assert!(!local.is_unicast());
}

#[test]
fn password_length_rule() {
    assert!(!read_only_is_strong_password("hello"));
    assert!(read_only_is_strong_password("hello!"));
    assert!(!read_only_is_strong_password(""));
    // three two-byte characters: six bytes
    assert!(read_only_is_strong_password("ééé"));
    assert!(!mutable_is_strong_password(String::from("12345")));
    assert!(mutable_is_strong_password(String::from("123456")));
}

#[test]
fn mac_from_octets_sets_flag_bits() {
    let mac = MacAddress::from_octets([0x10, 1, 2, 3, 4, 5]);
    assert_eq!(mac.0, [0x13, 1, 2, 3, 4, 5]);
    assert!(mac.is_local());
    assert!(!mac.is_unicast());
}
