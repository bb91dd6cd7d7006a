//! The validation of encoded certificates in one call, as a component exports it.

use crate::cert::all_parse_to;
use crate::cert::first_failure;
use crate::cert::parsed;
use crate::cert::parses_to;
use crate::cert::Cert;
use crate::cert::CertView;
use crate::digest::sha256;
use crate::error::PathError;
use crate::laws::chain_length_is_bounded;
use crate::path::may_conclude;
use crate::path::validate_chain;
use crate::path::verdict_of;
use crate::path::Validated;
use crate::path::ValidatedView;
use crate::path::Verdict;
use crate::revocations::Revocations;
use crate::setting::answers_of;
use crate::setting::views;
use crate::setting::Rules;
use crate::setting::Setting;
use crate::signature::NativeVerifier;
use crate::store::TrustStore;
use vstd::prelude::*;

verus! {

/// Why a certificate was rejected.
#[derive(Clone, Copy, Debug, PartialEq, Eq, Structural)]
pub enum Reason {
    Parse,
    Revoked,
    Expired,
    NoIssuer,
    BadSignature,
    ChainTooLong,
    NotACa,
}

/// What a valid certificate is reported with.
#[derive(Debug, PartialEq, Eq)]
pub struct Record {
    /// The leaf's subject DN.
    pub subject: String,
    /// The anchoring CA's subject DN.
    pub anchor_subject: String,
    /// Number of links from leaf to anchor.
    pub chain_len: u32,
}

impl View for Record {
    type V = ValidatedView;

    open spec fn view(&self) -> ValidatedView {
        ValidatedView {
            subject: self.subject@,
            anchor_subject: self.anchor_subject@,
            chain_len: self.chain_len as nat,
        }
    }
}

/// The outcome of a validation.
#[derive(Debug, PartialEq, Eq)]
pub enum Outcome {
    Valid(Record),
    Rejected(Reason),
}

/// The reason that an error is reported as.
pub open spec fn reason_of(error: PathError) -> Reason {
    match error {
        PathError::Parse(_) => Reason::Parse,
        PathError::Revoked => Reason::Revoked,
        PathError::Expired => Reason::Expired,
        PathError::NoIssuer => Reason::NoIssuer,
        PathError::BadSignature => Reason::BadSignature,
        PathError::ChainTooLong => Reason::ChainTooLong,
        PathError::NotACa => Reason::NotACa,
    }
}

/// Reports `error` as a reason.
pub fn map_err(error: PathError) -> (reason: Reason)
    ensures
        reason == reason_of(error),
{
    match error {
        PathError::Parse(_) => Reason::Parse,
        PathError::Revoked => Reason::Revoked,
        PathError::Expired => Reason::Expired,
        PathError::NoIssuer => Reason::NoIssuer,
        PathError::BadSignature => Reason::BadSignature,
        PathError::ChainTooLong => Reason::ChainTooLong,
        PathError::NotACa => Reason::NotACa,
    }
}

/// The encodings as mathematical values.
pub open spec fn octets(ders: Seq<Vec<u8>>) -> Seq<Seq<u8>> {
    ders.map_values(|d: Vec<u8>| d@)
}

/// Parse each of the encodings, up to the first that does not parse.
pub fn parse_all(ders: &[Vec<u8>]) -> (result: Result<Vec<Cert>, PathError>)
    ensures
        match result {
            Ok(certs) => all_parse_to(octets(ders@), views(certs@)),
            Err(error) => {
                &&& error is Parse
                &&& exists|i: int| first_failure(octets(ders@), i, error->Parse_0@)
            },
        },
{
    let mut certs: Vec<Cert> = Vec::new();
    let mut i: usize = 0;
    while i < ders.len()
        invariant
            i <= ders.len(),
            certs.len() == i,
            forall|j: int|
                0 <= j < i ==> parses_to(#[trigger] octets(ders@)[j], certs@[j]@),
        decreases ders.len() - i,
    {
        assert(octets(ders@)[i as int] == ders@[i as int]@);
        match Cert::from_der(ders[i].as_slice()) {
            Ok(cert) => certs.push(cert),
            Err(error) => {
                assert(first_failure(octets(ders@), i as int, error->Parse_0@));
                return Err(error);
            },
        }
        i += 1;
    }
    Ok(certs)
}

/// Every encoding parses.
pub open spec fn all_parse(ders: Seq<Seq<u8>>) -> bool {
    forall|i: int| 0 <= i < ders.len() ==> parsed(#[trigger] ders[i]) is Ok
}

/// The certificates that the encodings parse to.
pub open spec fn certs_of(ders: Seq<Seq<u8>>) -> Seq<CertView> {
    ders.map_values(|d: Seq<u8>| parsed(d)->Ok_0)
}

/// The fingerprints of the certificates with these encodings.
pub open spec fn fingerprints_of(ders: Seq<Seq<u8>>) -> Set<Seq<u8>> {
    Set::new(|f: Seq<u8>| exists|i: int| 0 <= i < ders.len() && f == sha256(#[trigger] ders[i]))
}

/// The setting that encoded certificates describe, with [`NativeVerifier`].
pub open spec fn setting_of_ders(
    intermediates: Seq<Seq<u8>>,
    anchors: Seq<Seq<u8>>,
    revoked: Seq<Seq<u8>>,
    now_unix: u64,
) -> Setting {
    Setting {
        intermediates: certs_of(intermediates),
        anchors: certs_of(anchors),
        rules: Rules {
            revoked: fingerprints_of(revoked),
            now: now_unix,
            answers: answers_of(&NativeVerifier),
        },
    }
}

impl Outcome {
    /// The outcome reports `verdict`.
    pub open spec fn reports(self, verdict: Verdict) -> bool {
        match verdict {
            Ok(validated) => self is Valid && self->Valid_0@ == validated,
            Err(error) => self == Outcome::Rejected(reason_of(error)),
        }
    }
}

/// Reports the result of a validation. The number of links is cut down to its
/// low 32 bits; that of an accepted chain fits.
pub fn report(result: Result<Validated, PathError>) -> (outcome: Outcome)
    ensures
        match result {
            Ok(validated) => outcome matches Outcome::Valid(record) && {
                &&& record.subject == validated.subject
                &&& record.anchor_subject == validated.anchor_subject
                &&& record.chain_len == validated.chain_len as u32
            },
            Err(error) => outcome == Outcome::Rejected(reason_of(error)),
        },
{
    match result {
        Ok(validated) => Outcome::Valid(
            Record {
                subject: validated.subject,
                anchor_subject: validated.anchor_subject,
                chain_len: #[verifier::truncate] (validated.chain_len as u32),
            },
        ),
        Err(error) => Outcome::Rejected(map_err(error)),
    }
}

/// The exported component.
pub struct Component;

impl Component {
    /// Validates the certificate that `leaf` encodes with [`NativeVerifier`]. A
    /// leaf, intermediate or anchor that does not parse rejects it.
    pub fn validate(
        leaf: Vec<u8>,
        intermediates: Vec<Vec<u8>>,
        anchors: Vec<Vec<u8>>,
        revoked: Vec<Vec<u8>>,
        now_unix: u64,
    ) -> (outcome: Outcome)
        ensures
            if parsed(leaf@) is Ok && all_parse(octets(intermediates@)) && all_parse(
                octets(anchors@),
            ) {
                let setting = setting_of_ders(
                    octets(intermediates@),
                    octets(anchors@),
                    octets(revoked@),
                    now_unix,
                );
                &&& exists|verdict: Verdict|
                    {
                        &&& may_conclude(setting, parsed(leaf@)->Ok_0, verdict)
                        &&& #[trigger] outcome.reports(verdict)
                    }
                &&& outcome is Valid <==> setting.trusts(parsed(leaf@)->Ok_0)
                &&& (exists|i: int| 0 <= i < revoked@.len() && (#[trigger] revoked@[i])@ == leaf@)
                    ==> outcome == Outcome::Rejected(Reason::Revoked)
            } else {
                outcome == Outcome::Rejected(Reason::Parse)
            },
    {
        let leaf_cert = match Cert::from_der(leaf.as_slice()) {
            Ok(cert) => cert,
            Err(error) => return Outcome::Rejected(map_err(error)),
        };
        let inters = match parse_all(intermediates.as_slice()) {
            Ok(certs) => certs,
            Err(error) => return Outcome::Rejected(map_err(error)),
        };
        let mut store = TrustStore::new();
        let mut i: usize = 0;
        while i < anchors.len()
            invariant
                i <= anchors.len(),
                store@.len() == i,
                parses_to(leaf@, leaf_cert@),
                all_parse_to(octets(intermediates@), views(inters@)),
                forall|j: int| 0 <= j < i ==> parses_to(#[trigger] octets(anchors@)[j], store@[j]),
            decreases anchors.len() - i,
        {
            assert(octets(anchors@)[i as int] == anchors@[i as int]@);
            match Cert::from_der(anchors[i].as_slice()) {
                Ok(cert) => store.add(cert),
                Err(error) => return Outcome::Rejected(map_err(error)),
            }
            i += 1;
        }
        let mut dbx = Revocations::empty();
        let mut k: usize = 0;
        assert(dbx@ =~= fingerprints_of(octets(revoked@).take(0)));
        while k < revoked.len()
            invariant
                k <= revoked.len(),
                parses_to(leaf@, leaf_cert@),
                all_parse_to(octets(intermediates@), views(inters@)),
                all_parse_to(octets(anchors@), store@),
                dbx@ == fingerprints_of(octets(revoked@).take(k as int)),
            decreases revoked.len() - k,
        {
            let ghost before = octets(revoked@).take(k as int);
            let ghost after = octets(revoked@).take(k + 1);
            dbx.revoke_der(revoked[k].as_slice());
            proof {
                assert(after =~= before.push(revoked@[k as int]@));
                assert forall|f: Seq<u8>|
                    fingerprints_of(after).contains(f) == fingerprints_of(before).insert(
                        sha256(revoked@[k as int]@),
                    ).contains(f) by {
                    if f == sha256(revoked@[k as int]@) {
                        assert(f == sha256(after[k as int]));
                    }
                    if fingerprints_of(before).contains(f) {
                        let j = choose|j: int|
                            0 <= j < before.len() && f == sha256(#[trigger] before[j]);
                        assert(f == sha256(after[j]));
                    }
                }
                assert(dbx@ =~= fingerprints_of(after));
            }
            k += 1;
        }
        assert(octets(revoked@).take(k as int) =~= octets(revoked@));
        assert(views(inters@) =~= certs_of(octets(intermediates@)));
        assert(store@ =~= certs_of(octets(anchors@)));
        let result = validate_chain(
            &leaf_cert,
            inters.as_slice(),
            &store,
            &dbx,
            now_unix,
            &NativeVerifier,
        );
        let ghost setting = setting_of_ders(
            octets(intermediates@),
            octets(anchors@),
            octets(revoked@),
            now_unix,
        );
        let ghost verdict = verdict_of(result);
        assert(may_conclude(setting, leaf_cert@, verdict));
        proof {
            if let Ok(validated) = verdict {
                chain_length_is_bounded(setting, leaf_cert@, validated);
            }
        }
        let outcome = report(result);
        assert(outcome.reports(verdict));
        proof {
            if exists|i: int| 0 <= i < revoked@.len() && (#[trigger] revoked@[i])@ == leaf@ {
                let i = choose|i: int|
                    0 <= i < revoked@.len() && (#[trigger] revoked@[i])@ == leaf@;
                assert(octets(revoked@)[i] == leaf@);
                assert(dbx@.contains(sha256(leaf@)));
            }
        }
        outcome
    }
}

} // verus!
