//! Path validation.

use crate::cert::Cert;
use crate::cert::CertView;
use crate::certificate::name_text;
use crate::digest::sha256;
use crate::error::PathError;
use crate::laws::accepted_exactly_if_trusted;
use crate::laws::accepted_leaf_has_trusted_path;
use crate::revocations::Revocations;
use crate::search::lemma_search_ends;
use crate::search::may_end;
use crate::search::may_step_to_intermediate;
use crate::search::Ending;
use crate::search::Reached;
use crate::search::Step;
use crate::setting::answers_of;
use crate::setting::has_single_answers;
use crate::setting::rules_of;
use crate::setting::views;
use crate::setting::Setting;
use crate::signature::CertVerifier;
use crate::store::anchor_was_found;
use crate::store::is_pinned;
use crate::store::TrustStore;
use std::collections::BTreeMap;
use vstd::prelude::*;

verus! {

/// How many intermediates a chain can have at most.
pub const MAX_CHAIN: usize = 16;

/// The result of a successful path validation.
#[derive(Debug, PartialEq, Eq)]
pub struct Validated {
    /// The leaf's subject DN.
    pub subject: String,
    /// The anchoring CA's subject DN.
    pub anchor_subject: String,
    /// Number of links from leaf to anchor.
    pub chain_len: usize,
}

/// The result of a successful path validation as a mathematical value.
#[verifier::ext_equal]
pub struct ValidatedView {
    pub subject: Seq<char>,
    pub anchor_subject: Seq<char>,
    pub chain_len: nat,
}

impl View for Validated {
    type V = ValidatedView;

    open spec fn view(&self) -> ValidatedView {
        ValidatedView {
            subject: self.subject@,
            anchor_subject: self.anchor_subject@,
            chain_len: self.chain_len as nat,
        }
    }
}

impl Clone for Validated {
    fn clone(&self) -> (copy: Self)
        ensures
            copy@ == self@,
    {
        Validated {
            subject: self.subject.clone(),
            anchor_subject: self.anchor_subject.clone(),
            chain_len: self.chain_len,
        }
    }
}

/// How a path validation ends.
pub type Verdict = Result<ValidatedView, PathError>;

/// The verdict that a result stands for.
pub open spec fn verdict_of(result: Result<Validated, PathError>) -> Verdict {
    match result {
        Ok(validated) => Ok(validated@),
        Err(error) => Err(error),
    }
}

/// What an accepted `leaf` is reported with when a chain of `links` links leads
/// to `anchor`.
pub open spec fn accepted(leaf: CertView, anchor: CertView, links: nat) -> ValidatedView {
    ValidatedView {
        subject: leaf.subject_text(),
        anchor_subject: anchor.subject_text(),
        chain_len: links,
    }
}

/// A validation of `leaf` may end with `verdict`.
///
/// The validation looks for a way up from the leaf. At each certificate it turns
/// back if the certificate is revoked or outside its validity window, and accepts
/// if the certificate is an anchor. Otherwise it goes through the candidates for
/// the certificate's issuer, first the anchors, then the intermediates: from one
/// that is confirmed and may issue it goes on, and where that leads to no anchor
/// it takes the next. It climbs at most [`MAX_CHAIN`] times.
pub open spec fn may_conclude(setting: Setting, leaf: CertView, verdict: Verdict) -> bool {
    match verdict {
        Ok(validated) => exists|reached: Reached|
            {
                &&& #[trigger] may_end(setting, leaf, 0, Ok(reached))
                &&& validated == accepted(leaf, reached.anchor, reached.links)
            },
        Err(error) => may_end(setting, leaf, 0, Err(error)),
    }
}

/// The setting that the arguments of [`validate_chain`] describe.
pub open spec fn setting_of<V: CertVerifier + ?Sized>(
    intermediates: Seq<Cert>,
    store: TrustStore,
    revoked: Revocations,
    now_unix: u64,
    verifier: &V,
) -> Setting {
    Setting {
        intermediates: views(intermediates),
        anchors: store@,
        rules: rules_of(revoked, now_unix, verifier),
    }
}

/// The rejections are those of intermediates: each is kept under the number of
/// links that led to the intermediate and the intermediate's place.
spec fn are_rejections(setting: Setting, rejections: Map<(usize, usize), PathError>) -> bool {
    forall|key: (usize, usize)| #[trigger]
        rejections.contains_key(key) ==> key.1 < setting.intermediates.len() && may_end(
            setting,
            setting.intermediates[key.1 as int],
            key.0 as nat,
            Err(rejections[key]),
        )
}

/// The ending that the result of [`climb`] stands for.
spec fn ending_of(result: Result<(&Cert, usize), PathError>) -> Ending {
    match result {
        Ok((anchor, links)) => Ok(Reached { anchor: anchor@, links: links as nat }),
        Err(error) => Err(error),
    }
}

/// Looks for a way up to an anchor from `current`, which is `depth` links up:
/// gives the anchor and the number of links from `current` to it. What was
/// rejected at the same depth before is not tried again.
fn climb<'b, V: CertVerifier + ?Sized>(
    current: &'b Cert,
    depth: usize,
    intermediates: &'b [Cert],
    store: &'b TrustStore,
    revoked: &Revocations,
    now_unix: u64,
    verifier: &V,
    rejections: &mut BTreeMap<(usize, usize), PathError>,
) -> (result: Result<(&'b Cert, usize), PathError>)
    requires
        depth <= MAX_CHAIN,
        are_rejections(
            setting_of(intermediates@, *store, *revoked, now_unix, verifier),
            old(rejections)@,
        ),
    ensures
        may_end(
            setting_of(intermediates@, *store, *revoked, now_unix, verifier),
            current@,
            depth as nat,
            ending_of(result),
        ),
        result matches Ok((_, links)) ==> depth + links <= MAX_CHAIN + 1,
        are_rejections(
            setting_of(intermediates@, *store, *revoked, now_unix, verifier),
            final(rejections)@,
        ),
    decreases MAX_CHAIN - depth,
{
    let ghost setting = setting_of(intermediates@, *store, *revoked, now_unix, verifier);
    if revoked.contains(current) {
        return Err(PathError::Revoked);
    }
    if !current.valid_at(now_unix) {
        return Err(PathError::Expired);
    }

    // Already an anchor (or self-signed root that is itself anchored)?
    if store.is_anchor(current) {
        return Ok((current, 0));
    }

    // Terminate at an anchor that issued `current`.
    let found = store.anchor_for(current, revoked, now_unix, verifier);
    let ghost mut steps = choose|steps: Seq<Step>| #[trigger]
        anchor_was_found(setting.rules, store@, current@, found, steps);
    let (issuing, mut tally) = found;
    if let Some(anchor) = issuing {
        proof {
            lemma_search_ends(setting, current@, depth as nat, steps);
        }
        return Ok((anchor, 1));
    }
    if depth >= MAX_CHAIN {
        proof {
            lemma_search_ends(setting, current@, depth as nat, steps);
        }
        return Err(tally.error(depth));
    }

    // Climb to an intermediate CA that issued `current`.
    let mut i: usize = 0;
    while i < intermediates.len()
        invariant
            i <= intermediates.len(),
            depth < MAX_CHAIN,
            setting == setting_of(intermediates@, *store, *revoked, now_unix, verifier),
            are_rejections(setting, rejections@),
            setting.rules.objection(current@) is None,
            !is_pinned(setting.anchors, current@),
            steps.len() == setting.anchors.len() + i,
            tally.counts(steps),
            forall|j: int| 0 <= j < steps.len() ==> !(#[trigger] steps[j] is Reaches),
            forall|j: int|
                0 <= j < setting.anchors.len() ==> setting.rules.may_step_to_anchor(
                    current@,
                    setting.anchors[j],
                    #[trigger] steps[j],
                ),
            forall|j: int|
                setting.anchors.len() <= j < steps.len() ==> may_step_to_intermediate(
                    setting,
                    current@,
                    depth as nat,
                    setting.intermediates[j - setting.anchors.len()],
                    #[trigger] steps[j],
                ),
        decreases intermediates.len() - i,
    {
        let candidate = &intermediates[i];
        assert(setting.intermediates[i as int] == candidate@);
        let ghost step;
        if !current.names_other(candidate) {
            proof {
                step = Step::PassedOver;
                tally.pass_over(steps);
            }
        } else if !verifier.verify_signed_by(current, candidate) {
            tally.deny();
            proof {
                step = Step::Denied;
            }
        } else if !candidate.is_ca() {
            tally.exclude();
            proof {
                step = Step::NotACa;
            }
        } else {
            let key = (depth + 1, i);
            let known = match rejections.get(&key) {
                Some(error) => Some(error.clone()),
                None => None,
            };
            let error = match known {
                Some(error) => error,
                None => {
                    let result = climb(
                        candidate,
                        depth + 1,
                        intermediates,
                        store,
                        revoked,
                        now_unix,
                        verifier,
                        rejections,
                    );
                    match result {
                        Ok((anchor, links)) => {
                            proof {
                                let all = steps.push(
                                    Step::Reaches(
                                        Reached { anchor: anchor@, links: (links + 1) as nat },
                                    ),
                                );
                                lemma_search_ends(setting, current@, depth as nat, all);
                            }
                            return Ok((anchor, links + 1));
                        },
                        Err(error) => {
                            rejections.insert(key, error.clone());
                            error
                        },
                    }
                },
            };
            proof {
                step = Step::Rejected(error);
            }
            tally.reject(error);
        }
        proof {
            steps = steps.push(step);
        }
        i += 1;
    }
    proof {
        lemma_search_ends(setting, current@, depth as nat, steps);
    }
    Err(tally.error(depth))
}

/// Validate `leaf`'s path to a trusted anchor in `store`, drawing intermediate
/// CAs from `intermediates`. Verifies each link's signature (via `verifier`),
/// each certificate's validity at `now_unix`, CA constraints on issuers, and
/// that no certificate in the path is revoked.
///
/// With a verifier that has one answer to each question, `leaf` is accepted if
/// and only if it chains to an anchor. A candidate for an issuer that leads to no
/// anchor does not keep the next one from being tried.
pub fn validate_chain<V: CertVerifier + ?Sized>(
    leaf: &Cert,
    intermediates: &[Cert],
    store: &TrustStore,
    revoked: &Revocations,
    now_unix: u64,
    verifier: &V,
) -> (result: Result<Validated, PathError>)
    ensures
        may_conclude(
            setting_of(intermediates@, *store, *revoked, now_unix, verifier),
            leaf@,
            verdict_of(result),
        ),
        has_single_answers(answers_of(verifier)) ==> (result is Ok <==> setting_of(
            intermediates@,
            *store,
            *revoked,
            now_unix,
            verifier,
        ).trusts(leaf@)),
        result matches Ok(validated) ==> exists|path: Seq<CertView>|
            {
                &&& #[trigger] setting_of(
                    intermediates@,
                    *store,
                    *revoked,
                    now_unix,
                    verifier,
                ).is_trusted_path(path)
                &&& path[0] == leaf@
                &&& validated.subject@ == name_text(leaf@.contents.subject)
                &&& validated.anchor_subject@ == name_text(path[path.len() - 1].contents.subject)
                &&& validated.chain_len == path.len() - 1
            },
        revoked@.contains(sha256(leaf@.der)) ==> result == Err::<Validated, PathError>(
            PathError::Revoked,
        ),
        !revoked@.contains(sha256(leaf@.der)) && (now_unix < leaf@.contents.not_before || now_unix
            > leaf@.contents.not_after) ==> result == Err::<Validated, PathError>(
            PathError::Expired,
        ),
{
    let mut rejections: BTreeMap<(usize, usize), PathError> = BTreeMap::new();
    let found = climb(leaf, 0, intermediates, store, revoked, now_unix, verifier, &mut rejections);
    let result = match found {
        Ok((anchor, links)) => Ok(
            Validated {
                subject: leaf.subject(),
                anchor_subject: anchor.subject(),
                chain_len: links,
            },
        ),
        Err(error) => Err(error),
    };
    proof {
        let setting = setting_of(intermediates@, *store, *revoked, now_unix, verifier);
        assert(may_conclude(setting, leaf@, verdict_of(result)));
        if has_single_answers(answers_of(verifier)) {
            accepted_exactly_if_trusted(setting, leaf@, verdict_of(result));
        }
        if let Ok(validated) = verdict_of(result) {
            accepted_leaf_has_trusted_path(setting, leaf@, validated);
        }
    }
    result
}

} // verus!
