//! Trusted anchors.

use crate::bytes::bytes_equal;
use crate::cert::all_parse_to;
use crate::cert::first_failure;
use crate::cert::parses_to;
use crate::cert::Cert;
use crate::cert::CertView;
use crate::digest::sha256;
use crate::error::PathError;
use crate::revocations::Revocations;
use crate::search::may_search_anchors;
use crate::search::reaches;
use crate::search::Reached;
use crate::search::Step;
use crate::search::Tally;
use crate::setting::rules_of;
use crate::setting::views;
use crate::setting::Rules;
use crate::signature::CertVerifier;
use vstd::prelude::*;

verus! {

/// Trusted anchors: the `db` equivalent (CA certs that may terminate a chain).
#[derive(Debug)]
pub struct TrustStore {
    anchors: Vec<Cert>,
}

impl View for TrustStore {
    type V = Seq<CertView>;

    /// The anchors in the order in which they were added.
    closed spec fn view(&self) -> Seq<CertView> {
        views(self.anchors@)
    }
}

/// `cert` has the fingerprint of one of the anchors.
pub open spec fn is_pinned(anchors: Seq<CertView>, cert: CertView) -> bool {
    exists|i: int|
        0 <= i < anchors.len() && (#[trigger] anchors[i]).fingerprint() == cert.fingerprint()
}

/// The encodings as mathematical values.
pub open spec fn slices(ders: Seq<&[u8]>) -> Seq<Seq<u8>> {
    ders.map_values(|d: &[u8]| d@)
}

/// The search for an anchor that issued `cert` went by these steps, and came
/// back with `found`: the anchor that was reached, and a tally of what stood in
/// the way.
pub open spec fn anchor_was_found(
    rules: Rules,
    anchors: Seq<CertView>,
    cert: CertView,
    found: (Option<&Cert>, Tally),
    steps: Seq<Step>,
) -> bool {
    &&& may_search_anchors(rules, anchors, cert, steps)
    &&& match found.0 {
        Some(anchor) => {
            &&& reaches(steps)
            &&& steps.last()->Reaches_0.anchor == anchor@
            &&& found.1.counts(steps.drop_last())
        },
        None => !reaches(steps) && found.1.counts(steps),
    }
}

impl Clone for TrustStore {
    fn clone(&self) -> (copy: Self)
        ensures
            copy@ == self@,
    {
        let mut anchors: Vec<Cert> = Vec::new();
        let mut i: usize = 0;
        while i < self.anchors.len()
            invariant
                i <= self.anchors.len(),
                anchors.len() == i,
                forall|j: int| 0 <= j < i ==> (#[trigger] anchors@[j])@ == self.anchors@[j]@,
            decreases self.anchors.len() - i,
        {
            anchors.push(self.anchors[i].clone());
            i += 1;
        }
        assert(views(anchors@) =~= views(self.anchors@));
        TrustStore { anchors }
    }
}

impl Default for TrustStore {
    fn default() -> (store: Self)
        ensures
            store@ == Seq::<CertView>::empty(),
    {
        let store = TrustStore { anchors: Vec::new() };
        assert(store@ =~= Seq::<CertView>::empty());
        store
    }
}

impl TrustStore {
    /// A store that trusts nothing.
    pub fn new() -> (store: Self)
        ensures
            store@ == Seq::<CertView>::empty(),
    {
        Self::default()
    }

    /// Trust `anchor`.
    pub fn add(&mut self, anchor: Cert)
        ensures
            final(self)@ == old(self)@.push(anchor@),
    {
        let ghost before = self@;
        let ghost added = anchor@;
        self.anchors.push(anchor);
        assert(self@ =~= before.push(added));
    }

    /// Build a store from anchor DER blobs.
    pub fn from_ders(ders: &[&[u8]]) -> (result: Result<Self, PathError>)
        ensures
            match result {
                Ok(store) => all_parse_to(slices(ders@), store@),
                Err(error) => {
                    &&& error is Parse
                    &&& exists|i: int| first_failure(slices(ders@), i, error->Parse_0@)
                },
            },
    {
        let mut store = TrustStore::new();
        let mut i: usize = 0;
        while i < ders.len()
            invariant
                i <= ders.len(),
                store@.len() == i,
                forall|j: int|
                    0 <= j < i ==> parses_to(#[trigger] slices(ders@)[j], store@[j]),
            decreases ders.len() - i,
        {
            assert(slices(ders@)[i as int] == ders@[i as int]@);
            match Cert::from_der(ders[i]) {
                Ok(anchor) => store.add(anchor),
                Err(error) => {
                    assert(first_failure(slices(ders@), i as int, error->Parse_0@));
                    return Err(error);
                },
            }
            i += 1;
        }
        Ok(store)
    }

    /// The first anchor that issued `cert` and can end a chain: `cert` names it as
    /// its issuer, `verifier` confirms its signature, it is unrevoked and inside
    /// its validity window, and it may issue. Beside it, what stood in the way of
    /// the anchors before it.
    pub fn anchor_for<'b, V: CertVerifier + ?Sized>(
        &'b self,
        cert: &Cert,
        revoked: &Revocations,
        now_unix: u64,
        verifier: &V,
    ) -> (found: (Option<&'b Cert>, Tally))
        ensures
            found.0 matches Some(anchor) ==> {
                &&& self@.contains(anchor@)
                &&& anchor@.contents.subject == cert@.contents.issuer
                &&& verifier.may_answer(cert@, anchor@, true)
                &&& !revoked@.contains(sha256(anchor@.der))
                &&& anchor@.contents.not_before <= now_unix
                &&& now_unix <= anchor@.contents.not_after
                &&& anchor@.contents.is_ca()
            },
            exists|steps: Seq<Step>| #[trigger]
                anchor_was_found(
                    rules_of(*revoked, now_unix, verifier),
                    self@,
                    cert@,
                    found,
                    steps,
                ),
    {
        let ghost rules = rules_of(*revoked, now_unix, verifier);
        let ghost mut steps: Seq<Step> = Seq::empty();
        let mut tally = Tally::new();
        let mut i: usize = 0;
        while i < self.anchors.len()
            invariant
                i <= self.anchors.len(),
                rules == rules_of(*revoked, now_unix, verifier),
                steps.len() == i,
                tally.counts(steps),
                forall|j: int|
                    0 <= j < i ==> rules.may_step_to_anchor(cert@, self@[j], #[trigger] steps[j])
                        && !(steps[j] is Reaches),
            decreases self.anchors.len() - i,
        {
            let anchor = &self.anchors[i];
            assert(self@[i as int] == anchor@);
            let ghost step;
            if !cert.names_issuer(anchor) {
                proof {
                    step = Step::PassedOver;
                    tally.pass_over(steps);
                }
            } else if !verifier.verify_signed_by(cert, anchor) {
                tally.deny();
                proof {
                    step = Step::Denied;
                }
            } else if revoked.contains(anchor) {
                tally.reject(PathError::Revoked);
                proof {
                    step = Step::Rejected(PathError::Revoked);
                }
            } else if !anchor.valid_at(now_unix) {
                tally.reject(PathError::Expired);
                proof {
                    step = Step::Rejected(PathError::Expired);
                }
            } else if !anchor.is_ca() {
                tally.exclude();
                proof {
                    step = Step::NotACa;
                }
            } else {
                let found = (Some(anchor), tally);
                proof {
                    let all = steps.push(Step::Reaches(Reached { anchor: anchor@, links: 1 }));
                    assert(all.drop_last() =~= steps);
                    assert(anchor_was_found(rules, self@, cert@, found, all));
                }
                return found;
            }
            proof {
                steps = steps.push(step);
            }
            i += 1;
        }
        let found = (None, tally);
        assert(anchor_was_found(rules, self@, cert@, found, steps));
        found
    }

    /// Whether `cert` itself is an anchor.
    pub fn is_anchor(&self, cert: &Cert) -> (pinned: bool)
        ensures
            pinned == is_pinned(self@, cert@),
            pinned == exists|i: int|
                0 <= i < self@.len() && sha256((#[trigger] self@[i]).der) == sha256(cert@.der),
    {
        let fingerprint = cert.fingerprint();
        let mut i: usize = 0;
        while i < self.anchors.len()
            invariant
                i <= self.anchors.len(),
                fingerprint@ == cert@.fingerprint(),
                forall|j: int|
                    0 <= j < i ==> (#[trigger] self@[j]).fingerprint() != cert@.fingerprint(),
            decreases self.anchors.len() - i,
        {
            assert(self@[i as int] == self.anchors@[i as int]@);
            let other = self.anchors[i].fingerprint();
            if bytes_equal(other.as_slice(), fingerprint.as_slice()) {
                return true;
            }
            i += 1;
        }
        false
    }
}

} // verus!
