//! Ethernet MAC addresses and the two flag bits of their first octet.

use vstd::prelude::*;
use rand::RngCore;

verus! {

/// A 48-bit MAC address.
#[derive(Debug)]
pub struct MacAddress(pub [u8; 6]);

/// Relies on rand's `thread_rng` and `RngCore::fill_bytes`: six bytes drawn
/// from the thread-local generator. Nothing is known of their values.
#[verifier::external_body]
fn random_octets() -> (r: [u8; 6]) {
    let mut octets = [0u8; 6];
    rand::thread_rng().fill_bytes(&mut octets);
    octets
}

impl MacAddress {
    /// The address made of `o`, with the locally-administered and the
    /// multicast bits of the first octet set.
    pub fn from_octets(o: [u8; 6]) -> (r: MacAddress)
        ensures
            r.0@[0] == o@[0] | 3u8,
            forall|i: int| 1 <= i < 6 ==> r.0@[i] == o@[i],
            r.0@[0] & 3u8 == 3u8,
    {
        let octet: u8 = o[0];
        let first = octet | 3u8;
        assert(first & 3u8 == 3u8) by (bit_vector)
            requires
                first == octet | 3u8,
        ;
        let r = MacAddress([first, o[1], o[2], o[3], o[4], o[5]]);
        assert(r.0@[0] == o@[0] | 3u8);
        r
    }

    /// A random address with the locally-administered and the multicast bits
    /// both set.
    pub fn new() -> (r: MacAddress)
        ensures
            r.0@[0] & 3u8 == 3u8,
    {
        MacAddress::from_octets(random_octets())
    }

    /// Whether the locally-administered bit is set.
    pub fn is_local(&self) -> (r: bool)
        ensures
            r == (self.0@[0] & 2u8 == 2u8),
    {
        (self.0[0] & 0b_0000_0010) == 0b_0000_0010
    }

    /// Whether the address is unicast and globally unique: the multicast bit
    /// clear and the locally-administered bit clear.
    pub fn is_unicast(&self) -> (r: bool)
        ensures
            r == (self.0@[0] & 3u8 == 1u8),
    {
        (self.0[0] & 0b_0000_0011) == 0b_0000_0001
    }
}

} // verus!
