//! Parsed certificates that keep their DER encoding.

use crate::bytes::bytes_equal;
use crate::certificate::decode_certificate;
use crate::certificate::decoded_certificate;
use crate::certificate::is_encodable;
use crate::certificate::name_contents;
use crate::certificate::name_text;
use crate::certificate::names_equal;
use crate::certificate::render_name;
use crate::certificate::Certificate;
use crate::certificate::CertificateView;
use crate::digest::sha256;
use crate::digest::sha256_digest;
use crate::error::PathError;
use vstd::prelude::*;
use x509_cert::name::Name;

verus! {

/// A certificate as a mathematical value: its DER encoding and its contents.
#[verifier::ext_equal]
pub struct CertView {
    pub der: Seq<u8>,
    pub contents: CertificateView,
}

impl CertView {
    /// The SHA-256 digest of the DER encoding: the certificate's identity.
    pub open spec fn fingerprint(self) -> Seq<u8> {
        sha256(self.der)
    }

    /// The subject's distinguished name as text.
    pub open spec fn subject_text(self) -> Seq<char> {
        name_text(self.contents.subject)
    }

    /// The contents are what the DER encoding decodes to. Every [`Cert`] has
    /// such a view.
    pub open spec fn is_decoded(self) -> bool {
        decoded_certificate(self.der) == Ok::<CertificateView, Seq<char>>(self.contents)
    }

    /// This certificate names `issuer`'s subject as its issuer.
    pub open spec fn names_issuer(self, issuer: CertView) -> bool {
        issuer.contents.subject == self.contents.issuer
    }

    /// This certificate names `issuer`'s subject as its issuer, and `issuer` is
    /// another certificate.
    pub open spec fn names_other(self, issuer: CertView) -> bool {
        self.names_issuer(issuer) && issuer.fingerprint() != self.fingerprint()
    }
}

/// What parsing `der` gives: the certificate, or the message of the parse error.
pub open spec fn parsed(der: Seq<u8>) -> Result<CertView, Seq<char>> {
    match decoded_certificate(der) {
        Ok(contents) => Ok(CertView { der, contents }),
        Err(message) => Err(message),
    }
}

/// The encoding `der` parses, to `cert`.
pub open spec fn parses_to(der: Seq<u8>, cert: CertView) -> bool {
    parsed(der) == Ok::<CertView, Seq<char>>(cert)
}

/// Each of the encodings parses, to the certificate in the same place.
pub open spec fn all_parse_to(ders: Seq<Seq<u8>>, certs: Seq<CertView>) -> bool {
    &&& ders.len() == certs.len()
    &&& forall|i: int| 0 <= i < ders.len() ==> parses_to(#[trigger] ders[i], certs[i])
}

/// `ders[i]` is the first of the encodings that does not parse, and `message`
/// says why.
pub open spec fn first_failure(ders: Seq<Seq<u8>>, i: int, message: Seq<char>) -> bool {
    &&& 0 <= i < ders.len()
    &&& parsed(ders[i]) == Err::<CertView, Seq<char>>(message)
    &&& forall|j: int| 0 <= j < i ==> parsed(#[trigger] ders[j]) is Ok
}

/// A parsed certificate plus its raw DER (kept for hashing / revocation).
#[derive(Debug)]
pub struct Cert {
    inner: Certificate,
    der: Vec<u8>,
}

impl View for Cert {
    type V = CertView;

    closed spec fn view(&self) -> CertView {
        CertView { der: self.der@, contents: self.inner@ }
    }
}

impl Clone for Cert {
    /// Copies the certificate and its DER.
    fn clone(&self) -> (copy: Self)
        ensures
            copy@ == self@,
    {
        proof {
            use_type_invariant(self);
        }
        Cert { inner: self.inner.clone(), der: vstd::slice::slice_to_vec(self.der.as_slice()) }
    }
}

impl Cert {
    #[verifier::type_invariant]
    spec fn inv(self) -> bool {
        self@.is_decoded() && is_encodable(self@.contents.subject)
    }

    /// Parse a certificate from DER.
    pub fn from_der(der: &[u8]) -> (result: Result<Self, PathError>)
        ensures
            match parsed(der@) {
                Ok(view) => result is Ok && result->Ok_0@ == view,
                Err(message) => result matches Err(PathError::Parse(text)) && text@ == message,
            },
            result is Ok <==> decoded_certificate(der@) is Ok,
            result matches Ok(cert) ==> cert@.der == der@ && cert@.is_decoded(),
    {
        match decode_certificate(der) {
            Ok(inner) => Ok(Cert { inner, der: vstd::slice::slice_to_vec(der) }),
            Err(message) => Err(PathError::Parse(message)),
        }
    }

    /// The underlying parsed certificate.
    pub fn certificate(&self) -> (certificate: &Certificate)
        ensures
            certificate@ == self@.contents,
    {
        &self.inner
    }

    /// The DER encoding that the certificate was parsed from.
    pub fn as_der(&self) -> (der: &[u8])
        ensures
            der@ == self@.der,
            self@.is_decoded(),
    {
        proof {
            use_type_invariant(self);
        }
        self.der.as_slice()
    }

    /// SHA-256 over the certificate DER: the identity used for `dbx` matching.
    pub fn fingerprint(&self) -> (fingerprint: [u8; 32])
        ensures
            fingerprint@ == self@.fingerprint(),
            fingerprint@ == sha256(self@.der),
    {
        sha256_digest(self.der.as_slice())
    }

    /// The subject distinguished name, rendered (best-effort) as a string.
    pub fn subject(&self) -> (text: String)
        ensures
            text@ == self@.subject_text(),
            text@ == name_text(self@.contents.subject),
    {
        proof {
            use_type_invariant(self);
        }
        render_name(&self.inner.subject)
    }

    /// The distinguished name of the certificate's issuer.
    pub fn issuer_dn(&self) -> (name: &Name)
        ensures
            name_contents(*name) == self@.contents.issuer,
    {
        &self.inner.issuer
    }

    /// The distinguished name of the certificate's subject.
    pub fn subject_dn(&self) -> (name: &Name)
        ensures
            name_contents(*name) == self@.contents.subject,
    {
        &self.inner.subject
    }

    /// Whether the certificate's subject is its own issuer.
    pub fn is_self_issued(&self) -> (own: bool)
        ensures
            own == self@.contents.is_self_issued(),
            own == (self@.contents.subject == self@.contents.issuer),
    {
        names_equal(self.subject_dn(), self.issuer_dn())
    }

    /// Whether `issuer`'s subject is the name that this certificate gives as its
    /// issuer.
    pub fn names_issuer(&self, issuer: &Cert) -> (named: bool)
        ensures
            named == self@.names_issuer(issuer@),
            named == (issuer@.contents.subject == self@.contents.issuer),
    {
        names_equal(issuer.subject_dn(), self.issuer_dn())
    }

    /// Whether this certificate names `issuer`'s subject as its issuer, and
    /// `issuer` is another certificate.
    pub fn names_other(&self, issuer: &Cert) -> (named: bool)
        ensures
            named == self@.names_other(issuer@),
    {
        if !self.names_issuer(issuer) {
            return false;
        }
        let own = self.fingerprint();
        let other = issuer.fingerprint();
        !bytes_equal(other.as_slice(), own.as_slice())
    }

    /// Whether the cert asserts the CA basic-constraint (or has no basic
    /// constraints at all, which is treated permissively). Used to reject
    /// non-CA issuers.
    pub fn is_ca(&self) -> (allowed: bool)
        ensures
            allowed == self@.contents.is_ca(),
    {
        self.inner.is_ca()
    }

    /// `not_before <= now <= not_after`, with `now` as unix seconds.
    pub fn valid_at(&self, now_unix: u64) -> (valid: bool)
        ensures
            valid == self@.contents.valid_at(now_unix),
            valid == (self@.contents.not_before <= now_unix && now_unix
                <= self@.contents.not_after),
    {
        self.inner.valid_at(now_unix)
    }
}

} // verus!
