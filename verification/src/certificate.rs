//! The parts of an X.509 certificate that path validation reads.

use crate::bytes::bytes_equal;
use vstd::prelude::*;
use x509_cert::der::Decode;
use x509_cert::der::Encode;
use x509_cert::ext::pkix::BasicConstraints;
use x509_cert::name::Name;

verus! {

/// A distinguished name: its relative distinguished names in order, each a
/// sequence of attributes, each attribute the content octets of its type's
/// object identifier, the tag octet of its value and the value's content octets.
pub type DistinguishedName = Seq<Seq<(Seq<u8>, u8, Seq<u8>)>>;

/// Declares `x509_cert::name::Name`, the sequence of relative distinguished
/// names that `x509-cert` decodes.
#[verifier::external_type_specification]
#[verifier::external_body]
pub struct ExName(Name);

/// What a decoded name holds.
pub uninterp spec fn name_contents(name: Name) -> DistinguishedName;

/// Calls `==` on `x509_cert::name::Name`, an equality that compares the
/// sequences attribute by attribute.
///
/// Trusted: names are equal exactly when they hold the same attributes in the
/// same order.
#[verifier::external_body]
pub(crate) fn names_equal(a: &Name, b: &Name) -> (same: bool)
    ensures
        same == (name_contents(*a) == name_contents(*b)),
{
    a == b
}

/// The values of the name's attributes are short enough to be encoded again: a
/// value and the six octets of its header fit in the 0xfff_ffff octets that an
/// encoding can have.
pub open spec fn is_encodable(name: DistinguishedName) -> bool {
    forall|i: int, j: int|
        0 <= i < name.len() && 0 <= j < name[i].len() ==> (#[trigger] name[i][j]).2.len()
            <= 0xfff_fff9
}

/// The text of a distinguished name in the form of RFC 4514, as `x509-cert`
/// writes it.
pub uninterp spec fn name_text(name: DistinguishedName) -> Seq<char>;

/// Calls `<x509_cert::name::Name as Display>` through `to_string`.
///
/// Trusted: the text depends on what the name holds and on nothing else. Names
/// with an attribute that cannot be encoded are left out: where such a value is
/// to be written in hexadecimal, the outside function fails and `to_string`
/// panics.
#[verifier::external_body]
pub(crate) fn render_name(name: &Name) -> (text: String)
    requires
        is_encodable(name_contents(*name)),
    ensures
        text@ == name_text(name_contents(*name)),
{
    name.to_string()
}

/// `<x509_cert::name::Name as Clone>::clone`: the copy holds what `name` holds.
pub assume_specification[ <Name as Clone>::clone ](name: &Name) -> (copy: Name)
    ensures
        name_contents(copy) == name_contents(*name),
;

/// A certificate extension as a mathematical value.
#[verifier::ext_equal]
pub struct ExtensionView {
    pub oid: Seq<u8>,
    pub value: Seq<u8>,
}

/// A certificate extension.
#[derive(Debug)]
pub struct Extension {
    /// The content octets of the object identifier that names the extension.
    pub oid: Vec<u8>,
    /// The octets inside the extension's octet string.
    pub value: Vec<u8>,
}

impl View for Extension {
    type V = ExtensionView;

    open spec fn view(&self) -> ExtensionView {
        ExtensionView { oid: self.oid@, value: self.value@ }
    }
}

impl Clone for Extension {
    fn clone(&self) -> (copy: Self)
        ensures
            copy@ == self@,
    {
        Extension {
            oid: vstd::slice::slice_to_vec(self.oid.as_slice()),
            value: vstd::slice::slice_to_vec(self.value.as_slice()),
        }
    }
}

/// A subject public key as a mathematical value.
#[verifier::ext_equal]
pub struct PublicKeyView {
    pub algorithm: Seq<u8>,
    pub bits: Seq<u8>,
    pub info: Seq<u8>,
}

/// A subject public key.
#[derive(Debug)]
pub struct PublicKey {
    /// The content octets of the object identifier of the key's algorithm.
    pub algorithm: Vec<u8>,
    /// The octets of the key's bit string.
    pub bits: Vec<u8>,
    /// The DER encoding of the whole subject public key info: the algorithm, its
    /// parameters and the bit string.
    pub info: Vec<u8>,
}

impl View for PublicKey {
    type V = PublicKeyView;

    open spec fn view(&self) -> PublicKeyView {
        PublicKeyView { algorithm: self.algorithm@, bits: self.bits@, info: self.info@ }
    }
}

impl Clone for PublicKey {
    fn clone(&self) -> (copy: Self)
        ensures
            copy@ == self@,
    {
        PublicKey {
            algorithm: vstd::slice::slice_to_vec(self.algorithm.as_slice()),
            bits: vstd::slice::slice_to_vec(self.bits.as_slice()),
            info: vstd::slice::slice_to_vec(self.info.as_slice()),
        }
    }
}

/// A certificate's contents as a mathematical value.
#[verifier::ext_equal]
pub struct CertificateView {
    pub issuer: DistinguishedName,
    pub subject: DistinguishedName,
    pub not_before: u64,
    pub not_after: u64,
    pub extensions: Option<Seq<ExtensionView>>,
    pub key: PublicKeyView,
}

/// What path validation reads of a parsed certificate.
#[derive(Debug)]
pub struct Certificate {
    /// The name of the certificate that issued this one.
    pub issuer: Name,
    /// The name of the certificate's holder.
    pub subject: Name,
    /// The first second of the validity window, in seconds since the epoch.
    pub not_before: u64,
    /// The last second of the validity window, in seconds since the epoch.
    pub not_after: u64,
    /// The extensions, where the certificate has any.
    pub extensions: Option<Vec<Extension>>,
    /// The holder's public key.
    pub key: PublicKey,
}

/// The extensions as mathematical values.
pub open spec fn extension_views(extensions: Option<Vec<Extension>>) -> Option<
    Seq<ExtensionView>,
> {
    match extensions {
        Some(list) => Some(list@.map_values(|e: Extension| e@)),
        None => None,
    }
}

fn clone_extensions(extensions: &Option<Vec<Extension>>) -> (copy: Option<Vec<Extension>>)
    ensures
        extension_views(copy) == extension_views(*extensions),
{
    match extensions {
        None => None,
        Some(list) => {
            let mut copies: Vec<Extension> = Vec::new();
            let mut i: usize = 0;
            while i < list.len()
                invariant
                    i <= list.len(),
                    copies.len() == i,
                    forall|j: int| 0 <= j < i ==> (#[trigger] copies@[j])@ == list@[j]@,
                decreases list.len() - i,
            {
                copies.push(list[i].clone());
                i += 1;
            }
            assert(copies@.map_values(|e: Extension| e@) =~= list@.map_values(|e: Extension| e@));
            Some(copies)
        },
    }
}

impl View for Certificate {
    type V = CertificateView;

    open spec fn view(&self) -> CertificateView {
        CertificateView {
            issuer: name_contents(self.issuer),
            subject: name_contents(self.subject),
            not_before: self.not_before,
            not_after: self.not_after,
            extensions: extension_views(self.extensions),
            key: self.key@,
        }
    }
}

impl Clone for Certificate {
    fn clone(&self) -> (copy: Self)
        ensures
            copy@ == self@,
    {
        Certificate {
            issuer: self.issuer.clone(),
            subject: self.subject.clone(),
            not_before: self.not_before,
            not_after: self.not_after,
            extensions: clone_extensions(&self.extensions),
            key: self.key.clone(),
        }
    }
}

/// What `x509-cert` makes of the bytes `der`: the contents of the certificate
/// that they encode, or the text of its complaint.
pub uninterp spec fn decoded_certificate(der: Seq<u8>) -> Result<CertificateView, Seq<char>>;

/// Calls `x509_cert::Certificate::from_der` and moves the fields that path
/// validation reads into a [`Certificate`]. The two times of the validity
/// window become seconds, by `Time::to_unix_duration`, and the subject public key
/// info, a part of `der`, becomes bytes again, by `to_der`. A failure becomes the
/// error's text.
///
/// Trusted: success or failure, the fields and the text depend on `der` alone,
/// and the subject of a decoded certificate, whose encoding is a part of `der`,
/// can be encoded again.
#[verifier::external_body]
pub(crate) fn decode_certificate(der: &[u8]) -> (decoded: Result<Certificate, String>)
    ensures
        match decoded {
            Ok(certificate) => {
                &&& decoded_certificate(der@) == Ok::<CertificateView, Seq<char>>(certificate@)
                &&& is_encodable(certificate@.subject)
            },
            Err(text) => decoded_certificate(der@) == Err::<CertificateView, Seq<char>>(text@),
        },
{
    let tbs = x509_cert::Certificate::from_der(der).map_err(|e| e.to_string())?.tbs_certificate;
    let key = tbs.subject_public_key_info;
    Ok(Certificate {
        issuer: tbs.issuer, subject: tbs.subject,
        not_before: tbs.validity.not_before.to_unix_duration().as_secs(),
        not_after: tbs.validity.not_after.to_unix_duration().as_secs(),
        extensions: tbs.extensions.map(|list| list.into_iter().map(|e| Extension {
            oid: e.extn_id.as_bytes().to_vec(), value: e.extn_value.into_bytes(),
        }).collect()),
        key: PublicKey {
            info: key.to_der().map_err(|e| e.to_string())?,
            algorithm: key.algorithm.oid.as_bytes().to_vec(),
            bits: key.subject_public_key.raw_bytes().to_vec(),
        },
    })
}

/// The content octets of the object identifier 2.5.29.19.
pub open spec fn basic_constraints_oid() -> Seq<u8> {
    seq![0x55u8, 0x1du8, 0x13u8]
}

/// Reads the constant `const_oid::db::rfc5280::ID_CE_BASIC_CONSTRAINTS`.
///
/// Trusted: it is the object identifier 2.5.29.19.
#[verifier::external_body]
fn id_ce_basic_constraints() -> (oid: Vec<u8>)
    ensures
        oid@ == basic_constraints_oid(),
{
    const_oid::db::rfc5280::ID_CE_BASIC_CONSTRAINTS.as_bytes().to_vec()
}

/// The `cA` flag of the basic constraints that `value` encodes, or `None` where
/// `x509-cert` cannot decode them.
pub uninterp spec fn basic_constraints_ca(value: Seq<u8>) -> Option<bool>;

/// Calls `x509_cert::ext::pkix::BasicConstraints::from_der` and keeps the field
/// `ca`.
///
/// Trusted: the result depends on `value` alone.
#[verifier::external_body]
fn decode_basic_constraints(value: &[u8]) -> (ca: Option<bool>)
    ensures
        ca == basic_constraints_ca(value@),
{
    BasicConstraints::from_der(value).ok().map(|constraints| constraints.ca)
}

/// Whether basic constraints that decoded to the flag `ca`, or did not decode,
/// allow a certificate to issue others.
pub fn constraints_allow_issuing(ca: Option<bool>) -> (allowed: bool)
    ensures
        allowed == (ca == Some(true)),
{
    match ca {
        Some(flag) => flag,
        None => false,
    }
}

/// `list[i]` is the first basic-constraints extension of `list`.
pub open spec fn is_first_basic_constraints(list: Seq<ExtensionView>, i: int) -> bool {
    &&& 0 <= i < list.len()
    &&& list[i].oid == basic_constraints_oid()
    &&& forall|j: int| 0 <= j < i ==> (#[trigger] list[j]).oid != basic_constraints_oid()
}

impl CertificateView {
    /// The certificate may issue others: it has no basic constraints, or its
    /// first basic constraints decode and set the `cA` flag.
    pub open spec fn is_ca(self) -> bool {
        match self.extensions {
            Some(list) => forall|i: int| #[trigger]
                is_first_basic_constraints(list, i) ==> basic_constraints_ca(list[i].value)
                    == Some(true),
            None => true,
        }
    }

    /// `now` lies inside the validity window, whose ends belong to it.
    pub open spec fn valid_at(self, now: u64) -> bool {
        self.not_before <= now <= self.not_after
    }

    /// The certificate names its own holder as its issuer.
    pub open spec fn is_self_issued(self) -> bool {
        self.subject == self.issuer
    }
}

impl Certificate {
    /// Whether the certificate asserts the CA basic-constraint, or has no basic
    /// constraints at all.
    pub fn is_ca(&self) -> (allowed: bool)
        ensures
            allowed == self@.is_ca(),
    {
        match &self.extensions {
            None => true,
            Some(list) => {
                let wanted = id_ce_basic_constraints();
                let ghost views = list@.map_values(|e: Extension| e@);
                assert(self@.extensions == Some(views));
                let mut i: usize = 0;
                while i < list.len()
                    invariant
                        i <= list.len(),
                        wanted@ == basic_constraints_oid(),
                        views == list@.map_values(|e: Extension| e@),
                        self@.extensions == Some(views),
                        forall|j: int|
                            0 <= j < i ==> (#[trigger] views[j]).oid != basic_constraints_oid(),
                    decreases list.len() - i,
                {
                    assert(views[i as int] == list@[i as int]@);
                    if bytes_equal(list[i].oid.as_slice(), wanted.as_slice()) {
                        assert(is_first_basic_constraints(views, i as int));
                        let allowed = constraints_allow_issuing(
                            decode_basic_constraints(list[i].value.as_slice()),
                        );
                        assert forall|j: int| #[trigger]
                            is_first_basic_constraints(views, j) implies j == i by {
                            if j < i {
                                assert(views[j].oid != basic_constraints_oid());
                            }
                        }
                        return allowed;
                    }
                    i += 1;
                }
                assert forall|j: int| !#[trigger] is_first_basic_constraints(views, j) by {
                    if 0 <= j < views.len() {
                        assert(views[j].oid != basic_constraints_oid());
                    }
                }
                true
            },
        }
    }

    /// `not_before <= now <= not_after`, with `now` in seconds since the epoch.
    pub fn valid_at(&self, now_unix: u64) -> (valid: bool)
        ensures
            valid == self@.valid_at(now_unix),
            valid == (self.not_before <= now_unix && now_unix <= self.not_after),
    {
        self.not_before <= now_unix && now_unix <= self.not_after
    }
}

} // verus!
