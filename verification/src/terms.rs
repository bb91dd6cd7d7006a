//! What the terms of the contracts come down to: the fields of certificates, the
//! lists that callers hand over, and what the outside crates compute.

use crate::cert::all_parse_to;
use crate::cert::first_failure;
use crate::cert::parsed;
use crate::cert::Cert;
use crate::cert::CertView;
use crate::certificate::basic_constraints_ca;
use crate::certificate::decoded_certificate;
use crate::certificate::is_first_basic_constraints;
use crate::certificate::name_contents;
use crate::certificate::name_text;
use crate::certificate::Certificate;
use crate::certificate::CertificateView;
use crate::certificate::ExtensionView;
use crate::component::all_parse;
use crate::component::octets;
use crate::component::setting_of_ders;
use crate::component::Outcome;
use crate::component::Reason;
use crate::digest::sha256;
use crate::error::quoted;
use crate::error::PathError;
use crate::issuer_key::has_verifying_key;
use crate::issuer_key::key_verifies;
use crate::path::setting_of;
use crate::path::verdict_of;
use crate::path::Validated;
use crate::path::ValidatedView;
use crate::revocations::Revocations;
use crate::setting::answers_of;
use crate::setting::has_single_answers;
use crate::setting::Answers;
use crate::setting::Rules;
use crate::setting::Setting;
use crate::signature::CertVerifier;
use crate::signature::NativeVerifier;
use crate::store::is_pinned;
use crate::store::slices;
use crate::store::TrustStore;
use vstd::prelude::*;

verus! {

/// The view of a certificate has its fields, each in its place.
pub proof fn certificate_is_viewed_by_field(certificate: Certificate)
    ensures
        certificate@.issuer == name_contents(certificate.issuer),
        certificate@.subject == name_contents(certificate.subject),
        certificate@.not_before == certificate.not_before,
        certificate@.not_after == certificate.not_after,
        certificate@.extensions is Some <==> certificate.extensions is Some,
        certificate.extensions matches Some(list) ==> {
            &&& certificate@.extensions->Some_0.len() == list@.len()
            &&& forall|i: int|
                0 <= i < list@.len() ==> (#[trigger] certificate@.extensions->Some_0[i]).oid
                    == list@[i].oid@ && certificate@.extensions->Some_0[i].value == list@[i].value@
        },
        certificate@.key.algorithm == certificate.key.algorithm@,
        certificate@.key.bits == certificate.key.bits@,
        certificate@.key.info == certificate.key.info@,
{
}

/// An encoding parses exactly if `x509-cert` decodes it: to the certificate with
/// that encoding and with the decoded contents. Otherwise the message is that of
/// `x509-cert`.
pub proof fn parsing_is_decoding(der: Seq<u8>, cert: CertView, message: Seq<char>)
    ensures
        parsed(der) == Ok::<CertView, Seq<char>>(cert) <==> cert.der == der
            && decoded_certificate(der) == Ok::<CertificateView, Seq<char>>(cert.contents),
        parsed(der) == Err::<CertView, Seq<char>>(message) <==> decoded_certificate(der) == Err::<
            CertificateView,
            Seq<char>,
        >(message),
{
}

/// Encodings parse to as many certificates, each to the one in its own place, or
/// fail where the first of them fails.
pub proof fn lists_parse_place_by_place(
    ders: Seq<Seq<u8>>,
    certs: Seq<CertView>,
    i: int,
    message: Seq<char>,
)
    ensures
        all_parse_to(ders, certs) <==> {
            &&& certs.len() == ders.len()
            &&& forall|k: int|
                0 <= k < ders.len() ==> (#[trigger] certs[k]).der == ders[k]
                    && decoded_certificate(ders[k]) == Ok::<CertificateView, Seq<char>>(
                    certs[k].contents,
                )
        },
        first_failure(ders, i, message) <==> {
            &&& 0 <= i < ders.len()
            &&& decoded_certificate(ders[i]) == Err::<CertificateView, Seq<char>>(message)
            &&& forall|k: int| 0 <= k < i ==> decoded_certificate(#[trigger] ders[k]) is Ok
        },
        all_parse(ders) <==> forall|k: int|
            0 <= k < ders.len() ==> decoded_certificate(#[trigger] ders[k]) is Ok,
{
    if all_parse_to(ders, certs) {
        assert forall|k: int| 0 <= k < ders.len() implies (#[trigger] certs[k]).der == ders[k]
            && decoded_certificate(ders[k]) == Ok::<CertificateView, Seq<char>>(
            certs[k].contents,
        ) by {
            assert(ders[k] == ders[k]);
            parsing_is_decoding(ders[k], certs[k], message);
        }
    }
    if certs.len() == ders.len() && forall|k: int|
        0 <= k < ders.len() ==> (#[trigger] certs[k]).der == ders[k] && decoded_certificate(ders[k])
            == Ok::<CertificateView, Seq<char>>(certs[k].contents) {
        assert forall|k: int| 0 <= k < ders.len() implies parsed(#[trigger] ders[k]) == Ok::<
            CertView,
            Seq<char>,
        >(certs[k]) by {
            assert(certs[k].der == ders[k]);
            parsing_is_decoding(ders[k], certs[k], message);
        }
    }
}

/// The lists that callers hand over are taken entry by entry.
pub proof fn lists_are_taken_entry_by_entry(vecs: Seq<Vec<u8>>, refs: Seq<&[u8]>)
    ensures
        octets(vecs).len() == vecs.len(),
        forall|i: int| 0 <= i < vecs.len() ==> #[trigger] octets(vecs)[i] == vecs[i]@,
        slices(refs).len() == refs.len(),
        forall|i: int| 0 <= i < refs.len() ==> #[trigger] slices(refs)[i] == refs[i]@,
{
}

/// A certificate is known by the digest of its encoding and by the text of its
/// subject; it names an issuer by that issuer's subject.
pub proof fn certificate_is_known_by_digest_and_names(cert: CertView, issuer: CertView)
    ensures
        cert.fingerprint() == sha256(cert.der),
        cert.subject_text() == name_text(cert.contents.subject),
        cert.names_issuer(issuer) <==> issuer.contents.subject == cert.contents.issuer,
        cert.names_other(issuer) <==> issuer.contents.subject == cert.contents.issuer && sha256(
            issuer.der,
        ) != sha256(cert.der),
        cert.contents.is_self_issued() <==> cert.contents.subject == cert.contents.issuer,
{
}

/// A certificate is valid from its first to its last second and at no other time.
pub proof fn window_decides_validity(contents: CertificateView, now: u64)
    ensures
        now < contents.not_before ==> !contents.valid_at(now),
        now > contents.not_after ==> !contents.valid_at(now),
        contents.not_before <= now && now <= contents.not_after ==> contents.valid_at(now),
{
}

/// Wherever it stands, the first basic-constraints extension (2.5.29.19) decides
/// whether a certificate may issue: it may if its `cA` flag is set.
pub proof fn first_basic_constraints_decide(contents: CertificateView, i: int)
    requires
        contents.extensions is Some,
        0 <= i < contents.extensions->Some_0.len(),
        contents.extensions->Some_0[i].oid == seq![0x55u8, 0x1du8, 0x13u8],
        forall|j: int|
            0 <= j < i ==> (#[trigger] contents.extensions->Some_0[j]).oid
                != seq![0x55u8, 0x1du8, 0x13u8],
    ensures
        contents.is_ca() <==> basic_constraints_ca(contents.extensions->Some_0[i].value) == Some(
            true,
        ),
{
    let list = contents.extensions->Some_0;
    assert(is_first_basic_constraints(list, i));
    assert forall|j: int| #[trigger] is_first_basic_constraints(list, j) implies j == i by {
        if j < i {
            assert(list[j].oid != seq![0x55u8, 0x1du8, 0x13u8]);
        }
        if i < j {
            assert(list[i].oid != seq![0x55u8, 0x1du8, 0x13u8]);
        }
    }
}

/// A certificate without basic constraints may issue.
pub proof fn no_basic_constraints_allow_issuing(contents: CertificateView)
    requires
        contents.extensions matches Some(list) ==> forall|j: int|
            0 <= j < list.len() ==> (#[trigger] list[j]).oid != seq![0x55u8, 0x1du8, 0x13u8],
    ensures
        contents.is_ca(),
{
    if let Some(list) = contents.extensions {
        assert forall|j: int| !#[trigger] is_first_basic_constraints(list, j) by {
            if 0 <= j < list.len() {
                assert(list[j].oid != seq![0x55u8, 0x1du8, 0x13u8]);
            }
        }
    }
}

/// The first basic-constraints extension of a list that has one.
proof fn lemma_first_basic_constraints(list: Seq<ExtensionView>, k: int) -> (i: int)
    requires
        0 <= k < list.len(),
        list[k].oid == seq![0x55u8, 0x1du8, 0x13u8],
    ensures
        0 <= i <= k,
        list[i].oid == seq![0x55u8, 0x1du8, 0x13u8],
        forall|j: int|
            0 <= j < i ==> (#[trigger] list[j]).oid != seq![0x55u8, 0x1du8, 0x13u8],
    decreases k,
{
    if exists|j: int| 0 <= j < k && (#[trigger] list[j]).oid == seq![0x55u8, 0x1du8, 0x13u8] {
        let j = choose|j: int|
            0 <= j < k && (#[trigger] list[j]).oid == seq![0x55u8, 0x1du8, 0x13u8];
        lemma_first_basic_constraints(list, j)
    } else {
        k
    }
}

/// To put an extension of another kind anywhere in the list does not change
/// whether a certificate may issue, and neither does anything but the extensions.
pub proof fn other_extensions_do_not_matter(
    contents: CertificateView,
    other: CertificateView,
    k: int,
    extension: ExtensionView,
)
    requires
        contents.extensions is Some,
        0 <= k <= contents.extensions->Some_0.len(),
        extension.oid != seq![0x55u8, 0x1du8, 0x13u8],
        other.extensions == Some(contents.extensions->Some_0.insert(k, extension)),
    ensures
        other.is_ca() == contents.is_ca(),
{
    let list = contents.extensions->Some_0;
    let more = list.insert(k, extension);
    assert forall|j: int| 0 <= j < k implies #[trigger] more[j] == list[j] by {}
    assert forall|j: int| k < j < more.len() implies #[trigger] more[j] == list[j - 1] by {}
    assert(more[k] == extension);
    if exists|j: int| 0 <= j < list.len() && (#[trigger] list[j]).oid
        == seq![0x55u8, 0x1du8, 0x13u8] {
        let any = choose|j: int|
            0 <= j < list.len() && (#[trigger] list[j]).oid == seq![0x55u8, 0x1du8, 0x13u8];
        let i = lemma_first_basic_constraints(list, any);
        first_basic_constraints_decide(contents, i);
        let at = if i < k {
            i
        } else {
            i + 1
        };
        assert(more[at] == list[i]);
        assert forall|j: int| 0 <= j < at implies (#[trigger] more[j]).oid
            != seq![0x55u8, 0x1du8, 0x13u8] by {
            if j > k {
                assert(list[j - 1].oid != seq![0x55u8, 0x1du8, 0x13u8]);
            }
        }
        first_basic_constraints_decide(other, at);
    } else {
        no_basic_constraints_allow_issuing(contents);
        assert forall|j: int| 0 <= j < more.len() implies (#[trigger] more[j]).oid
            != seq![0x55u8, 0x1du8, 0x13u8] by {
            if j > k {
                assert(list[j - 1].oid != seq![0x55u8, 0x1du8, 0x13u8]);
            }
        }
        no_basic_constraints_allow_issuing(other);
    }
}

/// To take an extension of another kind out of the list does not change whether a
/// certificate may issue.
pub proof fn missing_other_extensions_do_not_matter(
    contents: CertificateView,
    other: CertificateView,
    k: int,
)
    requires
        contents.extensions is Some,
        0 <= k < contents.extensions->Some_0.len(),
        contents.extensions->Some_0[k].oid != seq![0x55u8, 0x1du8, 0x13u8],
        other.extensions == Some(contents.extensions->Some_0.remove(k)),
    ensures
        other.is_ca() == contents.is_ca(),
{
    let list = contents.extensions->Some_0;
    assert(list.remove(k).insert(k, list[k]) =~= list);
    other_extensions_do_not_matter(other, contents, k, list[k]);
}

/// A certificate is an anchor if it has the digest of one.
pub proof fn anchors_are_known_by_digest(anchors: Seq<CertView>, cert: CertView)
    ensures
        is_pinned(anchors, cert) <==> exists|i: int|
            0 <= i < anchors.len() && sha256((#[trigger] anchors[i]).der) == sha256(cert.der),
{
    if is_pinned(anchors, cert) {
        let i = choose|i: int|
            0 <= i < anchors.len() && (#[trigger] anchors[i]).fingerprint() == cert.fingerprint();
        assert(sha256(anchors[i].der) == sha256(cert.der));
    }
    if exists|i: int|
        0 <= i < anchors.len() && sha256((#[trigger] anchors[i]).der) == sha256(cert.der) {
        let i = choose|i: int|
            0 <= i < anchors.len() && sha256((#[trigger] anchors[i]).der) == sha256(cert.der);
        assert(anchors[i].fingerprint() == cert.fingerprint());
    }
}

/// What is wrong with a certificate: it is revoked by the digest of its encoding;
/// or it is not, and the time is before its first or after its last second.
pub proof fn objections_are_revocation_and_expiry(rules: Rules, cert: CertView)
    ensures
        rules.revoked.contains(sha256(cert.der)) ==> rules.objection(cert) == Some(
            PathError::Revoked,
        ),
        !rules.revoked.contains(sha256(cert.der)) && (rules.now < cert.contents.not_before
            || rules.now > cert.contents.not_after) ==> rules.objection(cert) == Some(
            PathError::Expired,
        ),
        !rules.revoked.contains(sha256(cert.der)) && cert.contents.not_before <= rules.now
            && rules.now <= cert.contents.not_after ==> rules.objection(cert) is None,
{
}

/// A certificate may issue exactly if its first basic constraints, where it has
/// any, set the `cA` flag.
proof fn lemma_may_issue(contents: CertificateView)
    ensures
        contents.is_ca() <==> (contents.extensions matches Some(list) ==> forall|i: int|
            0 <= i < list.len() && (#[trigger] list[i]).oid == seq![0x55u8, 0x1du8, 0x13u8] && (
            forall|j: int|
                0 <= j < i ==> (#[trigger] list[j]).oid != seq![0x55u8, 0x1du8, 0x13u8])
                ==> basic_constraints_ca(list[i].value) == Some(true)),
{
    if let Some(list) = contents.extensions {
        if exists|j: int| 0 <= j < list.len() && (#[trigger] list[j]).oid
            == seq![0x55u8, 0x1du8, 0x13u8] {
            let any = choose|j: int|
                0 <= j < list.len() && (#[trigger] list[j]).oid == seq![0x55u8, 0x1du8, 0x13u8];
            let i = lemma_first_basic_constraints(list, any);
            first_basic_constraints_decide(contents, i);
            assert forall|k: int|
                0 <= k < list.len() && (#[trigger] list[k]).oid == seq![0x55u8, 0x1du8, 0x13u8] && (
                forall|j: int|
                    0 <= j < k ==> (#[trigger] list[j]).oid != seq![0x55u8, 0x1du8, 0x13u8])
                implies k == i by {
                if i < k {
                    assert(list[i].oid != seq![0x55u8, 0x1du8, 0x13u8]);
                }
            }
        } else {
            no_basic_constraints_allow_issuing(contents);
        }
    } else {
        no_basic_constraints_allow_issuing(contents);
    }
}

/// A trusted path, certificate by certificate and link by link:
/// - no certificate's encoding has a revoked digest, and the time is between each
///   one's first and last second;
/// - each one's issuer is the next one's subject, the next one is another
///   certificate, and the verifier may confirm its signature;
/// - the first basic constraints of each but the first, where it has any, set the
///   `cA` flag;
/// - those between the first and the last are intermediates, and the last is an
///   anchor, behind at most 16 intermediates; or the last has the digest of an
///   anchor, and is itself one of at most 16 intermediates or the first.
pub proof fn trusted_path_link_by_link(setting: Setting, path: Seq<CertView>)
    ensures
        setting.is_trusted_path(path) <==> {
            let n = path.len();
            &&& n > 0
            &&& forall|k: int|
                0 <= k < n ==> {
                    &&& !setting.rules.revoked.contains(sha256((#[trigger] path[k]).der))
                    &&& path[k].contents.not_before <= setting.rules.now
                    &&& setting.rules.now <= path[k].contents.not_after
                }
            &&& forall|k: int|
                0 <= k < n - 1 ==> {
                    &&& path[k + 1].contents.subject == (#[trigger] path[k]).contents.issuer
                    &&& sha256(path[k + 1].der) != sha256(path[k].der)
                    &&& (setting.rules.answers)(path[k], path[k + 1], true)
                }
            &&& forall|k: int|
                0 < k < n ==> ((#[trigger] path[k]).contents.extensions matches Some(list)
                    ==> forall|i: int|
                    0 <= i < list.len() && (#[trigger] list[i]).oid == seq![
                        0x55u8,
                        0x1du8,
                        0x13u8,
                    ] && (forall|j: int|
                        0 <= j < i ==> (#[trigger] list[j]).oid != seq![0x55u8, 0x1du8, 0x13u8])
                        ==> basic_constraints_ca(list[i].value) == Some(true))
            &&& forall|k: int| 0 < k < n - 1 ==> setting.intermediates.contains(#[trigger] path[k])
            &&& {
                ||| 1 < n <= 18 && setting.anchors.contains(path[n - 1])
                ||| {
                    &&& n <= 17
                    &&& n > 1 ==> setting.intermediates.contains(path[n - 1])
                    &&& exists|i: int|
                        0 <= i < setting.anchors.len() && sha256(
                            (#[trigger] setting.anchors[i]).der,
                        ) == sha256(path[n - 1].der)
                }
            }
        },
{
    let n = path.len();
    if n > 0 {
        anchors_are_known_by_digest(setting.anchors, path[n - 1]);
    }
    assert forall|k: int| 0 <= k < n implies (#[trigger] path[k]).contents.is_ca() <==> (
    path[k].contents.extensions matches Some(list) ==> forall|i: int|
        0 <= i < list.len() && (#[trigger] list[i]).oid == seq![0x55u8, 0x1du8, 0x13u8] && (
        forall|j: int| 0 <= j < i ==> (#[trigger] list[j]).oid != seq![0x55u8, 0x1du8, 0x13u8])
            ==> basic_constraints_ca(list[i].value) == Some(true)) by {
        lemma_may_issue(path[k].contents);
    }
    if setting.is_trusted_path(path) {
        assert forall|k: int| 0 <= k < n implies {
            &&& !setting.rules.revoked.contains(sha256((#[trigger] path[k]).der))
            &&& path[k].contents.not_before <= setting.rules.now
            &&& setting.rules.now <= path[k].contents.not_after
        } by {
            assert(setting.rules.objection(path[k]) is None);
        }
        assert forall|k: int| 0 < k < n implies (#[trigger] path[k]).contents.is_ca() by {
            assert(setting.rules.is_link(path[k - 1], path[k - 1 + 1]));
        }
        assert forall|k: int| 0 <= k < n - 1 implies {
            &&& path[k + 1].contents.subject == (#[trigger] path[k]).contents.issuer
            &&& sha256(path[k + 1].der) != sha256(path[k].der)
            &&& (setting.rules.answers)(path[k], path[k + 1], true)
        } by {
            assert(setting.rules.is_link(path[k], path[k + 1]));
        }
    }
}

/// The setting of a validation is what its caller hands over.
pub proof fn setting_is_what_the_caller_hands_over<V: CertVerifier + ?Sized>(
    intermediates: Seq<Cert>,
    store: TrustStore,
    revoked: Revocations,
    now_unix: u64,
    verifier: &V,
)
    ensures
        ({
            let setting = setting_of(intermediates, store, revoked, now_unix, verifier);
            &&& setting.intermediates.len() == intermediates.len()
            &&& forall|i: int|
                0 <= i < intermediates.len() ==> #[trigger] setting.intermediates[i]
                    == intermediates[i]@
            &&& setting.anchors == store@
            &&& setting.rules.revoked == revoked@
            &&& setting.rules.now == now_unix
            &&& forall|cert: CertView, issuer: CertView, answer: bool| #[trigger]
                (setting.rules.answers)(cert, issuer, answer) <==> verifier.may_answer(
                    cert,
                    issuer,
                    answer,
                )
        }),
{
}

/// The setting of a validation of encodings: the intermediates and anchors that
/// they decode to, each in its place; the digests of all the revoked encodings and
/// of nothing else; the time; and the native verifier.
pub proof fn setting_is_what_the_encodings_say(
    intermediates: Seq<Vec<u8>>,
    anchors: Seq<Vec<u8>>,
    revoked: Seq<Vec<u8>>,
    now_unix: u64,
)
    requires
        forall|i: int|
            0 <= i < intermediates.len() ==> decoded_certificate(
                (#[trigger] intermediates[i])@,
            ) is Ok,
        forall|i: int|
            0 <= i < anchors.len() ==> decoded_certificate((#[trigger] anchors[i])@) is Ok,
    ensures
        ({
            let setting = setting_of_ders(
                octets(intermediates),
                octets(anchors),
                octets(revoked),
                now_unix,
            );
            &&& setting.intermediates.len() == intermediates.len()
            &&& forall|i: int|
                0 <= i < intermediates.len() ==> {
                    &&& (#[trigger] setting.intermediates[i]).der == intermediates[i]@
                    &&& decoded_certificate(intermediates[i]@) == Ok::<CertificateView, Seq<char>>(
                        setting.intermediates[i].contents,
                    )
                }
            &&& setting.anchors.len() == anchors.len()
            &&& forall|i: int|
                0 <= i < anchors.len() ==> {
                    &&& (#[trigger] setting.anchors[i]).der == anchors[i]@
                    &&& decoded_certificate(anchors[i]@) == Ok::<CertificateView, Seq<char>>(
                        setting.anchors[i].contents,
                    )
                }
            &&& forall|i: int|
                0 <= i < revoked.len() ==> setting.rules.revoked.contains(
                    sha256((#[trigger] revoked[i])@),
                )
            &&& forall|f: Seq<u8>| #[trigger]
                setting.rules.revoked.contains(f) ==> exists|i: int|
                    0 <= i < revoked.len() && f == sha256((#[trigger] revoked[i])@)
            &&& setting.rules.now == now_unix
            &&& forall|cert: CertView, issuer: CertView, answer: bool| #[trigger]
                (setting.rules.answers)(cert, issuer, answer) <==> NativeVerifier.may_answer(
                    cert,
                    issuer,
                    answer,
                )
        }),
{
    let setting = setting_of_ders(
        octets(intermediates),
        octets(anchors),
        octets(revoked),
        now_unix,
    );
    let digests = setting.rules.revoked;
    assert forall|i: int| 0 <= i < revoked.len() implies digests.contains(
        sha256((#[trigger] revoked[i])@),
    ) by {
        assert(octets(revoked)[i] == revoked[i]@);
    }
    assert forall|f: Seq<u8>| #[trigger] digests.contains(f) implies exists|i: int|
        0 <= i < revoked.len() && f == sha256((#[trigger] revoked[i])@) by {
        let i = choose|i: int|
            0 <= i < octets(revoked).len() && f == sha256(#[trigger] octets(revoked)[i]);
        assert(f == sha256(revoked[i]@));
    }
    assert forall|i: int| 0 <= i < intermediates.len() implies {
        &&& (#[trigger] setting.intermediates[i]).der == intermediates[i]@
        &&& decoded_certificate(intermediates[i]@) == Ok::<CertificateView, Seq<char>>(
            setting.intermediates[i].contents,
        )
    } by {
        assert(octets(intermediates)[i] == intermediates[i]@);
    }
    assert forall|i: int| 0 <= i < anchors.len() implies {
        &&& (#[trigger] setting.anchors[i]).der == anchors[i]@
        &&& decoded_certificate(anchors[i]@) == Ok::<CertificateView, Seq<char>>(
            setting.anchors[i].contents,
        )
    } by {
        assert(octets(anchors)[i] == anchors[i]@);
    }
}

/// A verdict has the fields of the result that it stands for, or its error.
pub proof fn verdict_has_the_fields_of_the_result(
    validated: Validated,
    error: PathError,
    verdict: ValidatedView,
)
    ensures
        verdict_of(Ok(validated)) == Ok::<ValidatedView, PathError>(verdict) <==> {
            &&& verdict.subject == validated.subject@
            &&& verdict.anchor_subject == validated.anchor_subject@
            &&& verdict.chain_len == validated.chain_len
        },
        verdict_of(Err(error)) == Err::<ValidatedView, PathError>(error),
{
}

/// An outcome reports a verdict field by field, or the reason of its error.
pub proof fn outcome_has_the_fields_of_the_verdict(
    outcome: Outcome,
    validated: ValidatedView,
    error: PathError,
)
    ensures
        outcome.reports(Ok(validated)) <==> (outcome matches Outcome::Valid(record) && {
            &&& record.subject@ == validated.subject
            &&& record.anchor_subject@ == validated.anchor_subject
            &&& record.chain_len == validated.chain_len
        }),
        outcome.reports(Err(error)) <==> outcome == Outcome::Rejected(
            match error {
                PathError::Parse(_) => Reason::Parse,
                PathError::Revoked => Reason::Revoked,
                PathError::Expired => Reason::Expired,
                PathError::NoIssuer => Reason::NoIssuer,
                PathError::BadSignature => Reason::BadSignature,
                PathError::ChainTooLong => Reason::ChainTooLong,
                PathError::NotACa => Reason::NotACa,
            },
        ),
{
}

/// The native verifier confirms a signature exactly if `x509-verify` loads the
/// issuer's key and the key verifies it, whatever the key's algorithm and size.
/// An Ed25519 key (1.3.101.112) of another length than 32 octets confirms nothing.
pub proof fn native_answer_is_that_of_the_key(cert: CertView, issuer: CertView, answer: bool)
    ensures
        !(issuer.contents.key.algorithm == seq![0x2bu8, 0x65u8, 0x70u8]
            && issuer.contents.key.bits.len() != 32) ==> (answers_of(&NativeVerifier)(
            cert,
            issuer,
            answer,
        ) <==> answer == (has_verifying_key(issuer.contents.key) && key_verifies(
            issuer.contents.key,
            cert.der,
        ))),
        issuer.contents.key.algorithm == seq![0x2bu8, 0x65u8, 0x70u8]
            && issuer.contents.key.bits.len() != 32 ==> (answers_of(&NativeVerifier)(
            cert,
            issuer,
            answer,
        ) <==> !answer),
{
}

/// A verifier has single answers if it cannot both confirm and deny.
pub proof fn single_answers_exclude_each_other(answers: Answers)
    ensures
        has_single_answers(answers) <==> forall|cert: CertView, issuer: CertView|
            !(#[trigger] answers(cert, issuer, true) && #[trigger] answers(cert, issuer, false)),
{
}

/// The text of an error is its name, with the quoted message of a parse error
/// behind it in parentheses.
pub proof fn errors_are_written_by_name(message: String)
    ensures
        PathError::Parse(message).text() == "Parse("@ + quoted(message@) + ")"@,
        PathError::Revoked.text() == "Revoked"@,
        PathError::Expired.text() == "Expired"@,
        PathError::NoIssuer.text() == "NoIssuer"@,
        PathError::BadSignature.text() == "BadSignature"@,
        PathError::ChainTooLong.text() == "ChainTooLong"@,
        PathError::NotACa.text() == "NotACa"@,
{
}

} // verus!
