//! Public keys of issuers, as `x509-verify` loads and uses them.

use crate::certificate::decoded_certificate;
use crate::certificate::PublicKey;
use crate::certificate::PublicKeyView;
use vstd::prelude::*;
use x509_cert::der::Decode;
use x509_verify::VerifyingKey;

verus! {

/// Declares `x509_verify::VerifyingKey`, a public key that `x509-verify` loaded.
#[verifier::external_type_specification]
#[verifier::external_body]
pub struct ExVerifyingKey(VerifyingKey);

/// A public key that was loaded, together with what a certificate says of it.
/// Its fields are private to this module, where [`load_key`] alone makes one.
pub(crate) struct IssuerKey<'a> {
    key: VerifyingKey,
    info: &'a PublicKey,
}

impl View for IssuerKey<'_> {
    type V = PublicKeyView;

    /// What the key was loaded from.
    closed spec fn view(&self) -> PublicKeyView {
        self.info@
    }
}

/// `x509-verify` can load the public key.
pub uninterp spec fn has_verifying_key(info: PublicKeyView) -> bool;

/// Calls `<x509_verify::VerifyingKey as TryFrom<&x509_cert::Certificate>>::try_from`
/// on the certificate that `issuer` encodes, whose public key is `info`.
///
/// Trusted: whether a key is loaded depends on `info` alone, that is on the
/// algorithm, its parameters and the bit string in the certificate's subject
/// public key info, and the key is loaded from nothing else. An Ed25519 key of another length than
/// 32 octets is left out, for on such a key the outside function panics.
#[verifier::external_body]
pub(crate) fn load_key<'a>(issuer: &[u8], info: &'a PublicKey) -> (key: Option<IssuerKey<'a>>)
    requires
        decoded_certificate(issuer@) matches Ok(contents) && contents.key == info@,
        info@.is_well_sized(),
    ensures
        key is Some <==> has_verifying_key(info@),
        key matches Some(loaded) ==> loaded@ == info@,
{
    let certificate = x509_cert::Certificate::from_der(issuer).ok()?;
    let key = VerifyingKey::try_from(&certificate).ok()?;
    Some(IssuerKey { key, info })
}

/// The public key verifies the signature of the certificate that `cert` encodes.
pub uninterp spec fn key_verifies(info: PublicKeyView, cert: Seq<u8>) -> bool;

/// Calls `x509_verify::VerifyingKey::verify` on the certificate that `cert`
/// encodes: its signature is checked over its signed part.
///
/// Trusted: the answer depends on what the key was loaded from and on `cert`, and
/// on nothing else.
#[verifier::external_body]
pub(crate) fn key_accepts(key: &IssuerKey<'_>, cert: &[u8]) -> (accepted: bool)
    ensures
        accepted == key_verifies(key@, cert@),
{
    match x509_cert::Certificate::from_der(cert) {
        Ok(certificate) => key.key.verify(&certificate).is_ok(),
        Err(_) => false,
    }
}

} // verus!
