//! Randomly generated MAC addresses in the locally-administered, unicast
//! range: six random bytes with the two flag bits of the first byte forced.

use vstd::prelude::*;

verus! {

/// A six-byte MAC address.
#[derive(Debug)]
pub struct MacAddress(pub [u8; 6]);

/// Relies on `rand::RngCore::fill_bytes` on the generator `rand::thread_rng`
/// returns: it fills the buffer with bytes; nothing is assumed about their
/// values.
#[verifier::external_body]
fn random_octets() -> (r: [u8; 6])
    ensures
        r@.len() == 6,
{
    let mut octets: [u8; 6] = [0; 6];
    let mut rng = rand::thread_rng();
    rand::RngCore::fill_bytes(&mut rng, &mut octets);
    octets
}

impl MacAddress {
    /// A random MAC address with the locally-administered bit set and the
    /// multicast bit cleared: a private unicast address.
    pub fn new() -> (r: MacAddress)
        ensures
            r.0@[0] & 0x02 == 0x02,
            r.0@[0] & 0x01 == 0x00,
    {
        let mut octets = random_octets();
        let first = octets[0];
        let forced = (first | 0b_0000_0010) & 0b_1111_1110;
        octets[0] = forced;
        proof {
            assert(((first | 0b_0000_0010u8) & 0b_1111_1110) & 0x02 == 0x02) by (bit_vector);
            assert(((first | 0b_0000_0010u8) & 0b_1111_1110) & 0x01 == 0x00) by (bit_vector);
        }
        MacAddress(octets)
    }
}

} // verus!
