//! Revoked certificates.

use crate::cert::Cert;
use crate::digest::sha256;
use crate::digest::sha256_digest;
use std::collections::BTreeSet;
use vstd::bytes::lemma_auto_spec_u128_to_from_le_bytes;
use vstd::bytes::spec_u128_from_le_bytes;
use vstd::bytes::spec_u128_to_le_bytes;
use vstd::bytes::u128_from_le_bytes;
use vstd::prelude::*;
use vstd::slice::slice_subrange;

verus! {

/// The two halves of a fingerprint of 32 octets, each read as a little-endian
/// number.
spec fn halves(fingerprint: Seq<u8>) -> (u128, u128) {
    (
        spec_u128_from_le_bytes(fingerprint.subrange(0, 16)),
        spec_u128_from_le_bytes(fingerprint.subrange(16, 32)),
    )
}

/// Fingerprints with the same halves are the same.
proof fn lemma_halves_injective(a: Seq<u8>, b: Seq<u8>)
    requires
        a.len() == 32,
        b.len() == 32,
        halves(a) == halves(b),
    ensures
        a == b,
{
    lemma_auto_spec_u128_to_from_le_bytes();
    let (low, high) = halves(a);
    assert(a.subrange(0, 16) == spec_u128_to_le_bytes(low));
    assert(b.subrange(0, 16) == spec_u128_to_le_bytes(low));
    assert(a.subrange(16, 32) == spec_u128_to_le_bytes(high));
    assert(b.subrange(16, 32) == spec_u128_to_le_bytes(high));
    assert(a =~= a.subrange(0, 16) + a.subrange(16, 32));
    assert(b =~= b.subrange(0, 16) + b.subrange(16, 32));
}

fn split(fingerprint: &[u8; 32]) -> (key: (u128, u128))
    ensures
        key == halves(fingerprint@),
{
    let octets: &[u8] = fingerprint.as_slice();
    (
        u128_from_le_bytes(slice_subrange(octets, 0, 16)),
        u128_from_le_bytes(slice_subrange(octets, 16, 32)),
    )
}

/// Revoked certificates: the `dbx` equivalent, by certificate-DER fingerprint.
#[derive(Debug)]
pub struct Revocations {
    fingerprints: BTreeSet<(u128, u128)>,
}

impl View for Revocations {
    type V = Set<Seq<u8>>;

    /// The fingerprints that are revoked.
    closed spec fn view(&self) -> Set<Seq<u8>> {
        Set::new(|f: Seq<u8>| f.len() == 32 && self.fingerprints@.contains(halves(f)))
    }
}

impl Clone for Revocations {
    fn clone(&self) -> (copy: Self)
        ensures
            copy@ == self@,
    {
        Revocations { fingerprints: self.fingerprints.clone() }
    }
}

impl Default for Revocations {
    fn default() -> (none: Self)
        ensures
            none@ == Set::<Seq<u8>>::empty(),
    {
        let none = Revocations { fingerprints: BTreeSet::new() };
        assert(none@ =~= Set::<Seq<u8>>::empty());
        none
    }
}

impl Revocations {
    /// Nothing is revoked.
    pub fn empty() -> (none: Self)
        ensures
            none@ == Set::<Seq<u8>>::empty(),
    {
        Self::default()
    }

    /// Revoke the certificate with this fingerprint.
    pub fn revoke(&mut self, fingerprint: [u8; 32])
        ensures
            final(self)@ == old(self)@.insert(fingerprint@),
    {
        let ghost before = self@;
        self.fingerprints.insert(split(&fingerprint));
        proof {
            assert forall|f: Seq<u8>|
                self@.contains(f) == before.insert(fingerprint@).contains(f) by {
                if f.len() == 32 && halves(f) == halves(fingerprint@) {
                    lemma_halves_injective(f, fingerprint@);
                }
            }
            assert(self@ =~= before.insert(fingerprint@));
        }
    }

    /// Revoke a certificate by its DER.
    pub fn revoke_der(&mut self, der: &[u8])
        ensures
            final(self)@ == old(self)@.insert(sha256(der@)),
    {
        self.revoke(sha256_digest(der));
    }

    /// Whether `cert` is revoked.
    pub fn contains(&self, cert: &Cert) -> (revoked: bool)
        ensures
            revoked == self@.contains(cert@.fingerprint()),
            revoked == self@.contains(sha256(cert@.der)),
    {
        let fingerprint = cert.fingerprint();
        self.fingerprints.contains(&split(&fingerprint))
    }
}

} // verus!
