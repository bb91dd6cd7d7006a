//! What a path validation is carried out against, and the paths that it trusts.

use crate::cert::Cert;
use crate::cert::CertView;
use crate::error::PathError;
use crate::path::MAX_CHAIN;
use crate::revocations::Revocations;
use crate::signature::CertVerifier;
use crate::store::is_pinned;
use vstd::prelude::*;

verus! {

/// What a verifier may answer: whether the answer is possible when it is asked
/// about a certificate and an issuer.
pub type Answers = spec_fn(CertView, CertView, bool) -> bool;

/// What `verifier` may answer.
pub open spec fn answers_of<V: CertVerifier + ?Sized>(verifier: &V) -> Answers {
    |cert: CertView, issuer: CertView, answer: bool| verifier.may_answer(cert, issuer, answer)
}

/// The verifier has at most one answer to each question.
pub open spec fn has_single_answers(answers: Answers) -> bool {
    forall|cert: CertView, issuer: CertView|
        !(#[trigger] answers(cert, issuer, true) && #[trigger] answers(cert, issuer, false))
}

/// The certificates as mathematical values.
pub open spec fn views(certs: Seq<Cert>) -> Seq<CertView> {
    certs.map_values(|c: Cert| c@)
}

/// What every certificate and every link of a chain is held to.
pub struct Rules {
    /// The fingerprints of the revoked certificates.
    pub revoked: Set<Seq<u8>>,
    /// The time of the validation, in seconds since the epoch.
    pub now: u64,
    /// What the verifier may answer.
    pub answers: Answers,
}

impl Rules {
    /// Why `cert` cannot be in a chain, whatever its place there.
    pub open spec fn objection(self, cert: CertView) -> Option<PathError> {
        if self.revoked.contains(cert.fingerprint()) {
            Some(PathError::Revoked)
        } else if !cert.contents.valid_at(self.now) {
            Some(PathError::Expired)
        } else {
            None
        }
    }

    /// `issuer` may stand above `cert` in a chain: it is another certificate,
    /// `cert` names it as its issuer, the verifier may confirm its signature over
    /// `cert`, and it may issue.
    pub open spec fn is_link(self, cert: CertView, issuer: CertView) -> bool {
        &&& cert.names_other(issuer)
        &&& (self.answers)(cert, issuer, true)
        &&& issuer.contents.is_ca()
    }
}

/// The rules that `revoked`, `now_unix` and `verifier` make.
pub open spec fn rules_of<V: CertVerifier + ?Sized>(
    revoked: Revocations,
    now_unix: u64,
    verifier: &V,
) -> Rules {
    Rules { revoked: revoked@, now: now_unix, answers: answers_of(verifier) }
}

/// What a path validation is carried out against.
pub struct Setting {
    /// The certificates that can stand between the leaf and an anchor.
    pub intermediates: Seq<CertView>,
    /// The trusted certificates.
    pub anchors: Seq<CertView>,
    /// What certificates and links are held to.
    pub rules: Rules,
}

impl Setting {
    /// `path` leads from its first certificate to an anchor, through at most
    /// `limit` intermediates: every certificate is unrevoked and inside its
    /// validity window, and each is linked to the next. The last one is in the
    /// store, or the first or an intermediate with the fingerprint of an anchor.
    pub open spec fn is_path_within(self, path: Seq<CertView>, limit: int) -> bool {
        &&& path.len() > 0
        &&& forall|k: int| 0 <= k < path.len() ==> self.rules.objection(#[trigger] path[k]) is None
        &&& forall|k: int|
            0 <= k < path.len() - 1 ==> self.rules.is_link(#[trigger] path[k], path[k + 1])
        &&& forall|k: int|
            0 < k < path.len() - 1 ==> self.intermediates.contains(#[trigger] path[k])
        &&& {
            ||| path.len() > 1 && self.anchors.contains(path.last()) && path.len() - 2 <= limit
            ||| {
                &&& is_pinned(self.anchors, path.last())
                &&& path.len() > 1 ==> self.intermediates.contains(path.last())
                &&& path.len() - 1 <= limit
            }
        }
    }

    /// `path` leads from its first certificate to an anchor, through at most
    /// [`MAX_CHAIN`] intermediates.
    pub open spec fn is_trusted_path(self, path: Seq<CertView>) -> bool {
        self.is_path_within(path, MAX_CHAIN as int)
    }

    /// `leaf` chains to an anchor.
    pub open spec fn trusts(self, leaf: CertView) -> bool {
        exists|path: Seq<CertView>| #[trigger] self.is_trusted_path(path) && path[0] == leaf
    }
}

} // verus!
