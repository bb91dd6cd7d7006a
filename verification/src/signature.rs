//! The check of one link's signature.

use crate::bytes::bytes_equal;
use crate::cert::Cert;
use crate::cert::CertView;
use crate::certificate::PublicKey;
use crate::certificate::PublicKeyView;
use crate::issuer_key::has_verifying_key;
use crate::issuer_key::key_accepts;
use crate::issuer_key::key_verifies;
use crate::issuer_key::load_key;
use vstd::prelude::*;

verus! {

/// The per-link signature-verification seam. Implement this to route the check
/// through a PKCS#11 `verify()` backend; the default is [`NativeVerifier`].
pub trait CertVerifier {
    /// The verifier may give `answer` when it is asked about `cert` and
    /// `issuer`. A verifier that is a function of the two allows one answer; one
    /// that depends on more, such as a token that can be unplugged, allows both,
    /// and so does one that does not say.
    open spec fn may_answer(&self, cert: CertView, issuer: CertView, answer: bool) -> bool {
        true
    }

    /// Does `issuer`'s public key verify `cert`'s signature?
    fn verify_signed_by(&self, cert: &Cert, issuer: &Cert) -> (answer: bool)
        ensures
            self.may_answer(cert@, issuer@, answer),
    ;
}

/// The content octets of the object identifier 1.3.101.112.
pub open spec fn ed25519_oid() -> Seq<u8> {
    seq![0x2bu8, 0x65u8, 0x70u8]
}

/// Reads the constant `const_oid::db::rfc8410::ID_ED_25519`.
///
/// Trusted: it is the object identifier 1.3.101.112.
#[verifier::external_body]
fn id_ed_25519() -> (oid: Vec<u8>)
    ensures
        oid@ == ed25519_oid(),
{
    const_oid::db::rfc8410::ID_ED_25519.as_bytes().to_vec()
}

impl PublicKeyView {
    /// The key has the length of its algorithm, where that is fixed: an Ed25519
    /// key has 32 octets.
    pub open spec fn is_well_sized(self) -> bool {
        self.algorithm == ed25519_oid() ==> self.bits.len() == 32
    }
}

impl PublicKey {
    /// Whether the key has the length of its algorithm, where that is fixed.
    pub fn is_well_sized(&self) -> (fits: bool)
        ensures
            fits == self@.is_well_sized(),
    {
        let ed25519 = id_ed_25519();
        !bytes_equal(self.algorithm.as_slice(), ed25519.as_slice()) || self.bits.len() == 32
    }
}

/// Native (pure-Rust) signature verification via `x509-verify` (RSA / ECDSA /
/// Ed25519, per the certificate's signature algorithm).
pub struct NativeVerifier;

impl NativeVerifier {
    /// `issuer`'s key can be loaded and verifies `cert`'s signature.
    pub open spec fn accepts(cert: CertView, issuer: CertView) -> bool {
        &&& issuer.contents.key.is_well_sized()
        &&& has_verifying_key(issuer.contents.key)
        &&& key_verifies(issuer.contents.key, cert.der)
    }
}

impl CertVerifier for NativeVerifier {
    open spec fn may_answer(&self, cert: CertView, issuer: CertView, answer: bool) -> bool {
        answer == NativeVerifier::accepts(cert, issuer)
    }

    /// Whether `issuer`'s public key, from its SPKI, verifies `cert`'s signature
    /// over its TBS part. A key that cannot be loaded verifies nothing.
    fn verify_signed_by(&self, cert: &Cert, issuer: &Cert) -> (answer: bool)
        ensures
            answer == NativeVerifier::accepts(cert@, issuer@),
            !(issuer@.contents.key.algorithm == seq![0x2bu8, 0x65u8, 0x70u8]
                && issuer@.contents.key.bits.len() != 32) ==> answer == (has_verifying_key(
                issuer@.contents.key,
            ) && key_verifies(issuer@.contents.key, cert@.der)),
    {
        let info = &issuer.certificate().key;
        if !info.is_well_sized() {
            return false;
        }
        match load_key(issuer.as_der(), info) {
            Some(key) => key_accepts(&key, cert.as_der()),
            None => false,
        }
    }
}

} // verus!
