//! Two checksums over bytes, and the record that the hash map of this crate stores.

use vstd::prelude::*;
use vstd::std_specs::cmp::PartialEqSpecImpl;

verus! {

/// Where a device stands, and who may enter.
#[derive(Debug)]
pub struct LocationInformation {
    pub name: String,
    pub opened: String,
    pub address: String,
    pub security_group_name: String,
}

impl Clone for LocationInformation {
    fn clone(&self) -> (copy: LocationInformation)
        ensures
            copy == *self,
    {
        LocationInformation {
            name: self.name.clone(),
            opened: self.opened.clone(),
            address: self.address.clone(),
            security_group_name: self.security_group_name.clone(),
        }
    }
}

/// Two records are equal when all four fields are.
impl PartialEq for LocationInformation {
    fn eq(&self, other: &LocationInformation) -> (same: bool) {
        self.name == other.name && self.opened == other.opened && self.address == other.address
            && self.security_group_name == other.security_group_name
    }
}

impl PartialEqSpecImpl for LocationInformation {
    open spec fn obeys_eq_spec() -> bool {
        true
    }

    open spec fn eq_spec(&self, other: &LocationInformation) -> bool {
        &&& self.name@ == other.name@
        &&& self.opened@ == other.opened@
        &&& self.address@ == other.address@
        &&& self.security_group_name@ == other.security_group_name@
    }
}

pub const MOD_ADLER: u32 = 65521;

/// The two sums of Adler-32 after the bytes of `bytes`: the first starts at 1 and takes up
/// every byte, the second starts at 0 and takes up the first after every byte, both modulo
/// 65521.
pub open spec fn adler_sums(bytes: Seq<u8>) -> (u32, u32)
    decreases bytes.len(),
{
    if bytes.len() == 0 {
        (1u32, 0u32)
    } else {
        let (a, b) = adler_sums(bytes.drop_last());
        let a2 = ((a + bytes.last()) % 65521) as u32;
        (a2, ((b + a2) % 65521) as u32)
    }
}

/// Both sums stay below the modulus.
pub proof fn lemma_adler_sums_small(bytes: Seq<u8>)
    ensures
        adler_sums(bytes).0 < 65521,
        adler_sums(bytes).1 < 65521,
    decreases bytes.len(),
{
    if bytes.len() > 0 {
        lemma_adler_sums_small(bytes.drop_last());
    }
}

/// The Adler-32 checksum of `bytes`: the second sum in the upper half, the first in the
/// lower.
pub fn adler32(bytes: &[u8]) -> (sum: u32)
    ensures
        sum == (adler_sums(bytes@).1 << 16) | adler_sums(bytes@).0,
{
    let mut a = 1_u32;
    let mut b = 0_u32;
    let mut i: usize = 0;
    while i < bytes.len()
        invariant
            i <= bytes@.len(),
            (a, b) == adler_sums(bytes@.subrange(0, i as int)),
            a < 65521,
            b < 65521,
        decreases bytes@.len() - i,
    {
        let byte = bytes[i];
        proof {
            let next = bytes@.subrange(0, i + 1);
            assert(next.drop_last() =~= bytes@.subrange(0, i as int));
            assert(next.last() == byte);
        }
        a = (a + byte as u32) % MOD_ADLER;
        b = (b + a) % MOD_ADLER;
        i += 1;
    }
    assert(bytes@.subrange(0, i as int) =~= bytes@);
    (b << 16) | a
}

/// The hash after the bytes of `bytes`: every byte is mixed in with exclusive or, and the
/// hash is then shifted to the left by the place of the byte modulo 4.
pub open spec fn hashcode_of(bytes: Seq<u8>) -> u32
    decreases bytes.len(),
{
    if bytes.len() == 0 {
        0u32
    } else {
        let a = hashcode_of(bytes.drop_last());
        (a ^ (bytes.last() as u32)) << (((bytes.len() - 1) % 4) as u32)
    }
}

pub fn hashcode(bytes: &[u8]) -> (hash: u32)
    ensures
        hash == hashcode_of(bytes@),
{
    let mut a = 0_u32;
    let mut i: usize = 0;
    while i < bytes.len()
        invariant
            i <= bytes@.len(),
            a == hashcode_of(bytes@.subrange(0, i as int)),
        decreases bytes@.len() - i,
    {
        let b = bytes[i];
        proof {
            let next = bytes@.subrange(0, i + 1);
            assert(next.drop_last() =~= bytes@.subrange(0, i as int));
            assert(next.last() == b);
        }
        a ^= b as u32;
        a <<= (i % 4) as u32;
        i += 1;
    }
    assert(bytes@.subrange(0, i as int) =~= bytes@);
    a
}

} // verus!
