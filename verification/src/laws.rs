//! What holds of every path validation.

use crate::cert::parses_to;
use crate::cert::CertView;
use crate::certificate::name_text;
use crate::component::octets;
use crate::component::reason_of;
use crate::component::setting_of_ders;
use crate::digest::sha256;
use crate::error::PathError;
use crate::path::accepted;
use crate::path::may_conclude;
use crate::path::ValidatedView;
use crate::path::Verdict;
use crate::path::MAX_CHAIN;
use crate::search::first_rejection;
use crate::search::lemma_searched;
use crate::search::may_end;
use crate::search::may_search;
use crate::search::may_step_to_intermediate;
use crate::search::reaches;
use crate::search::Ending;
use crate::search::Reached;
use crate::search::Step;
use crate::setting::answers_of;
use crate::setting::has_single_answers;
use crate::setting::Rules;
use crate::setting::Setting;
use crate::signature::NativeVerifier;
use crate::store::is_pinned;
use vstd::prelude::*;

verus! {

proof fn lemma_reached_by_path(
    setting: Setting,
    cert: CertView,
    depth: nat,
    reached: Reached,
) -> (path: Seq<CertView>)
    requires
        depth <= MAX_CHAIN,
        may_end(setting, cert, depth, Ok(reached)),
    ensures
        setting.is_path_within(path, MAX_CHAIN - depth),
        path[0] == cert,
        path.last() == reached.anchor,
        path.len() == reached.links + 1,
    decreases MAX_CHAIN - depth,
{
    if is_pinned(setting.anchors, cert) {
        seq![cert]
    } else {
        let steps = lemma_searched(setting, cert, depth, Ok(reached));
        let n = setting.anchors.len() as int;
        let j = steps.len() - 1;
        assert(steps[j] == Step::Reaches(reached));
        if j < n {
            let anchor = setting.anchors[j];
            assert(setting.rules.may_step_to_anchor(cert, anchor, steps[j]));
            assert(setting.anchors.contains(anchor));
            assert(cert.names_other(anchor)) by {
                if anchor.fingerprint() == cert.fingerprint() {
                    assert(is_pinned(setting.anchors, cert));
                }
            }
            seq![cert, anchor]
        } else {
            let issuer = setting.intermediates[j - n];
            assert(may_step_to_intermediate(setting, cert, depth, issuer, steps[j]));
            assert(setting.intermediates.contains(issuer));
            let above = Reached { anchor: reached.anchor, links: (reached.links - 1) as nat };
            let rest = lemma_reached_by_path(setting, issuer, depth + 1, above);
            lemma_longer_path(setting, cert, rest, MAX_CHAIN - depth - 1);
            seq![cert] + rest
        }
    }
}

/// A path from an intermediate makes one from a certificate that it issued.
proof fn lemma_longer_path(setting: Setting, cert: CertView, rest: Seq<CertView>, limit: int)
    requires
        setting.is_path_within(rest, limit),
        setting.intermediates.contains(rest[0]),
        setting.rules.objection(cert) is None,
        setting.rules.is_link(cert, rest[0]),
    ensures
        setting.is_path_within(seq![cert] + rest, limit + 1),
        (seq![cert] + rest).last() == rest.last(),
{
    let path = seq![cert] + rest;
    assert(path.last() == rest.last());
    assert forall|k: int| 0 <= k < path.len() implies setting.rules.objection(
        #[trigger] path[k],
    ) is None by {
        if k > 0 {
            assert(path[k] == rest[k - 1]);
        }
    }
    assert forall|k: int| 0 <= k < path.len() - 1 implies setting.rules.is_link(
        #[trigger] path[k],
        path[k + 1],
    ) by {
        assert(path[k + 1] == rest[k]);
        if k > 0 {
            assert(path[k] == rest[k - 1]);
        }
    }
    assert forall|k: int| 0 < k < path.len() - 1 implies setting.intermediates.contains(
        #[trigger] path[k],
    ) by {
        assert(path[k] == rest[k - 1]);
    }
}

/// A leaf is accepted only where a trusted path leads from it to an anchor, and
/// it is reported with that anchor and with the number of links of that path.
pub proof fn accepted_leaf_has_trusted_path(
    setting: Setting,
    leaf: CertView,
    validated: ValidatedView,
)
    requires
        may_conclude(setting, leaf, Ok(validated)),
    ensures
        exists|path: Seq<CertView>|
            {
                &&& #[trigger] setting.is_trusted_path(path)
                &&& path[0] == leaf
                &&& validated.subject == name_text(leaf.contents.subject)
                &&& validated.anchor_subject == name_text(path[path.len() - 1].contents.subject)
                &&& validated.chain_len == path.len() - 1
            },
{
    let reached = choose|reached: Reached|
        {
            &&& #[trigger] may_end(setting, leaf, 0, Ok(reached))
            &&& validated == accepted(leaf, reached.anchor, reached.links)
        };
    let path = lemma_reached_by_path(setting, leaf, 0, reached);
    assert(setting.is_trusted_path(path));
}

/// The verifier does not deny any link of `path`.
pub open spec fn is_undenied(rules: Rules, path: Seq<CertView>) -> bool {
    forall|k: int|
        0 <= k < path.len() - 1 ==> !(rules.answers)(#[trigger] path[k], path[k + 1], false)
}

proof fn lemma_path_is_found(
    setting: Setting,
    path: Seq<CertView>,
    depth: nat,
    ending: Ending,
)
    requires
        depth <= MAX_CHAIN,
        setting.is_path_within(path, MAX_CHAIN - depth),
        is_undenied(setting.rules, path),
        may_end(setting, path[0], depth, ending),
    ensures
        ending is Ok,
    decreases path.len(),
{
    let cert = path[0];
    if !is_pinned(setting.anchors, cert) {
        let steps = lemma_searched(setting, cert, depth, ending);
        if !reaches(steps) {
            assert(forall|j: int| 0 <= j < steps.len() ==> !(#[trigger] steps[j] is Reaches));
            let next = path[1];
            let n = setting.anchors.len() as int;
            assert(setting.rules.is_link(path[0], path[1]));
            assert(setting.rules.objection(path[1]) is None);
            assert(!(setting.rules.answers)(path[0], path[1], false));
            if path.len() == 2 && setting.anchors.contains(next) {
                let j = setting.anchors.index_of(next);
                assert(setting.rules.may_step_to_anchor(cert, setting.anchors[j], steps[j]));
            } else {
                let j = setting.intermediates.index_of(next);
                assert(may_step_to_intermediate(
                    setting,
                    cert,
                    depth,
                    setting.intermediates[j],
                    steps[n + j],
                ));
                let rest = path.drop_first();
                assert(rest.last() == path.last());
                assert forall|k: int| 0 <= k < rest.len() - 1 implies setting.rules.is_link(
                    #[trigger] rest[k],
                    rest[k + 1],
                ) && !(setting.rules.answers)(rest[k], rest[k + 1], false) by {
                    assert(rest[k] == path[k + 1]);
                }
                lemma_path_is_found(
                    setting,
                    rest,
                    depth + 1,
                    Err(steps[n + j]->Rejected_0),
                );
            }
        }
    }
}

/// A leaf from which a trusted path leads to an anchor is accepted, whatever
/// other candidates there are, if the verifier does not deny that path's links.
pub proof fn trusted_path_is_found(setting: Setting, path: Seq<CertView>, verdict: Verdict)
    requires
        setting.is_trusted_path(path),
        is_undenied(setting.rules, path),
        may_conclude(setting, path[0], verdict),
    ensures
        verdict is Ok,
{
    if let Err(error) = verdict {
        lemma_path_is_found(setting, path, 0, Err(error));
    }
}

/// With a verifier that has at most one answer to each question, such as
/// [`NativeVerifier`], exactly those leaves are accepted from which a trusted
/// path leads to an anchor.
pub proof fn accepted_exactly_if_trusted(setting: Setting, leaf: CertView, verdict: Verdict)
    requires
        has_single_answers(setting.rules.answers),
        may_conclude(setting, leaf, verdict),
    ensures
        verdict is Ok <==> setting.trusts(leaf),
{
    if let Ok(validated) = verdict {
        accepted_leaf_has_trusted_path(setting, leaf, validated);
    }
    if setting.trusts(leaf) {
        let path = choose|path: Seq<CertView>| #[trigger]
            setting.is_trusted_path(path) && path[0] == leaf;
        assert forall|k: int| 0 <= k < path.len() - 1 implies !(setting.rules.answers)(
            #[trigger] path[k],
            path[k + 1],
            false,
        ) by {
            assert(setting.rules.is_link(path[k], path[k + 1]));
        }
        trusted_path_is_found(setting, path, verdict);
    }
}

/// An accepted chain has at most one link more than [`MAX_CHAIN`], and at most
/// one where there are no intermediates.
pub proof fn chain_length_is_bounded(setting: Setting, leaf: CertView, validated: ValidatedView)
    requires
        may_conclude(setting, leaf, Ok(validated)),
    ensures
        validated.chain_len <= MAX_CHAIN + 1,
        setting.intermediates.len() == 0 ==> validated.chain_len <= 1,
{
    accepted_leaf_has_trusted_path(setting, leaf, validated);
    let path = choose|path: Seq<CertView>|
        {
            &&& #[trigger] setting.is_trusted_path(path)
            &&& path[0] == leaf
            &&& validated.chain_len == path.len() - 1
        };
    if path.len() > 2 {
        assert(setting.intermediates.contains(path[1]));
    }
}

/// Nothing is accepted where nothing is trusted.
pub proof fn empty_store_accepts_nothing(setting: Setting, leaf: CertView, verdict: Verdict)
    requires
        may_conclude(setting, leaf, verdict),
        setting.anchors.len() == 0,
    ensures
        verdict is Err,
{
    if let Ok(validated) = verdict {
        accepted_leaf_has_trusted_path(setting, leaf, validated);
    }
}

/// A revoked leaf is rejected as revoked, whatever else holds of it.
pub proof fn revoked_leaf_is_rejected(setting: Setting, leaf: CertView, verdict: Verdict)
    requires
        setting.rules.revoked.contains(leaf.fingerprint()),
    ensures
        may_conclude(setting, leaf, verdict) <==> verdict == Err::<ValidatedView, PathError>(
            PathError::Revoked,
        ),
{
}

/// No trusted path leads through a certificate whose DER was revoked.
pub proof fn revoked_der_breaks_path(setting: Setting, path: Seq<CertView>, k: int)
    requires
        0 <= k < path.len(),
        setting.rules.revoked.contains(sha256(path[k].der)),
    ensures
        !setting.is_trusted_path(path),
{
    assert(setting.rules.objection(path[k]) is Some);
}

/// An unrevoked leaf outside its validity window is rejected as expired.
pub proof fn expired_leaf_is_rejected(setting: Setting, leaf: CertView, verdict: Verdict)
    requires
        !setting.rules.revoked.contains(leaf.fingerprint()),
        !leaf.contents.valid_at(setting.rules.now),
    ensures
        may_conclude(setting, leaf, verdict) <==> verdict == Err::<ValidatedView, PathError>(
            PathError::Expired,
        ),
{
}

/// An unrevoked leaf is rejected as expired before its first second and after its
/// last, whatever else holds of it, and at no other time if it is an anchor.
pub proof fn leaf_expires_at_the_ends_of_its_window(
    setting: Setting,
    leaf: CertView,
    verdict: Verdict,
)
    requires
        may_conclude(setting, leaf, verdict),
        !setting.rules.revoked.contains(sha256(leaf.der)),
    ensures
        setting.rules.now < leaf.contents.not_before || setting.rules.now > leaf.contents.not_after
            ==> verdict == Err::<ValidatedView, PathError>(PathError::Expired),
        setting.anchors.contains(leaf) && leaf.contents.not_before <= setting.rules.now
            && setting.rules.now <= leaf.contents.not_after ==> verdict is Ok,
{
    if setting.anchors.contains(leaf) {
        let i = setting.anchors.index_of(leaf);
        assert(setting.anchors[i].fingerprint() == leaf.fingerprint());
    }
}

/// On a trusted path the time is between the first and the last second of every
/// certificate, and no certificate's encoding has a revoked digest.
pub proof fn trusted_path_is_valid_throughout(setting: Setting, path: Seq<CertView>, k: int)
    requires
        setting.is_trusted_path(path),
        0 <= k < path.len(),
    ensures
        path[k].contents.not_before <= setting.rules.now,
        setting.rules.now <= path[k].contents.not_after,
        !setting.rules.revoked.contains(sha256(path[k].der)),
{
    assert(setting.rules.objection(path[k]) is None);
}

/// A leaf whose encoding is among the revoked ones is rejected as revoked, and no
/// trusted path leads through a certificate whose encoding is among them.
pub proof fn revoked_encodings_are_rejected(
    intermediates: Seq<Vec<u8>>,
    anchors: Seq<Vec<u8>>,
    revoked: Seq<Vec<u8>>,
    now_unix: u64,
    i: int,
    cert: CertView,
    verdict: Verdict,
    path: Seq<CertView>,
    k: int,
)
    requires
        0 <= i < revoked.len(),
        cert.der == revoked[i]@,
        0 <= k < path.len(),
        path[k] == cert,
    ensures
        ({
            let setting = setting_of_ders(
                octets(intermediates),
                octets(anchors),
                octets(revoked),
                now_unix,
            );
            &&& may_conclude(setting, cert, verdict) <==> verdict == Err::<
                ValidatedView,
                PathError,
            >(PathError::Revoked)
            &&& !setting.is_trusted_path(path)
        }),
{
    let setting = setting_of_ders(
        octets(intermediates),
        octets(anchors),
        octets(revoked),
        now_unix,
    );
    assert(octets(revoked)[i] == revoked[i]@);
    assert(setting.rules.revoked.contains(sha256(cert.der)));
    revoked_leaf_is_rejected(setting, cert, verdict);
    revoked_der_breaks_path(setting, path, k);
}

/// A leaf that is itself an anchor, unrevoked and inside its validity window, is
/// accepted with no links, whatever the verifier answers.
pub proof fn pinned_leaf_is_accepted(setting: Setting, leaf: CertView, verdict: Verdict)
    requires
        setting.rules.objection(leaf) is None,
        is_pinned(setting.anchors, leaf),
    ensures
        may_conclude(setting, leaf, verdict) <==> verdict == Ok::<ValidatedView, PathError>(
            accepted(leaf, leaf, 0),
        ),
{
    let reached = Reached { anchor: leaf, links: 0 };
    assert(may_end(setting, leaf, 0, Ok(reached)));
}

/// The certificate is a candidate for the issuer of another.
pub open spec fn is_candidate(setting: Setting, candidate: CertView) -> bool {
    setting.anchors.contains(candidate) || setting.intermediates.contains(candidate)
}

/// The candidate behind a step of a search that reached no anchor.
proof fn lemma_candidate_of_step(
    setting: Setting,
    cert: CertView,
    depth: nat,
    steps: Seq<Step>,
    j: int,
) -> (candidate: CertView)
    requires
        may_search(setting, cert, depth, steps),
        !is_pinned(setting.anchors, cert),
        0 <= j < steps.len(),
    ensures
        is_candidate(setting, candidate),
        !(steps[j] is PassedOver) ==> cert.names_other(candidate),
        steps[j] is Denied ==> (setting.rules.answers)(cert, candidate, false),
        steps[j] is NotACa || steps[j] is Rejected || steps[j] is Reaches ==> (
        setting.rules.answers)(cert, candidate, true),
        steps[j] is NotACa ==> !candidate.contents.is_ca(),
        steps[j] is Reaches ==> candidate.contents.is_ca(),
        steps[j] matches Step::Rejected(error) ==> {
            ||| setting.anchors.contains(candidate) && setting.rules.objection(candidate) == Some(
                error,
            )
            ||| {
                &&& depth < MAX_CHAIN
                &&& setting.intermediates.contains(candidate)
                &&& candidate.contents.is_ca()
                &&& may_end(setting, candidate, depth + 1, Err(error))
            }
        },
        steps[j] is Reaches ==> setting.intermediates.contains(candidate) || (
        setting.anchors.contains(candidate) && setting.rules.objection(candidate) is None),
{
    let n = setting.anchors.len() as int;
    if j < n {
        let anchor = setting.anchors[j];
        assert(setting.rules.may_step_to_anchor(cert, anchor, steps[j]));
        assert(setting.anchors.contains(anchor));
        assert(anchor.fingerprint() != cert.fingerprint());
        anchor
    } else {
        let issuer = setting.intermediates[j - n];
        assert(may_step_to_intermediate(setting, cert, depth, issuer, steps[j]));
        assert(setting.intermediates.contains(issuer));
        issuer
    }
}

/// The step of a search that reached no anchor for a candidate.
proof fn lemma_step_of_candidate(
    setting: Setting,
    cert: CertView,
    depth: nat,
    steps: Seq<Step>,
    candidate: CertView,
) -> (j: int)
    requires
        may_search(setting, cert, depth, steps),
        !reaches(steps),
        setting.anchors.contains(candidate) || (depth < MAX_CHAIN
            && setting.intermediates.contains(candidate)),
        cert.names_other(candidate),
    ensures
        0 <= j < steps.len(),
        !(steps[j] is PassedOver),
        !(steps[j] is Reaches),
        steps[j] is Denied ==> (setting.rules.answers)(cert, candidate, false),
{
    if setting.anchors.contains(candidate) {
        let j = setting.anchors.index_of(candidate);
        assert(setting.rules.may_step_to_anchor(cert, setting.anchors[j], steps[j]));
        j
    } else {
        let i = setting.intermediates.index_of(candidate);
        let j = setting.anchors.len() + i;
        assert(may_step_to_intermediate(setting, cert, depth, setting.intermediates[i], steps[j]));
        j
    }
}

/// A first rejection is one of the steps, with none before it, and steps without
/// one have none.
proof fn lemma_first_rejection(steps: Seq<Step>) -> (j: int)
    ensures
        first_rejection(steps) matches Some(error) ==> 0 <= j < steps.len() && steps[j]
            == Step::Rejected(error),
        first_rejection(steps) is None ==> j == steps.len(),
        forall|i: int| 0 <= i < j ==> !(#[trigger] steps[i] is Rejected),
    decreases steps.len(),
{
    if steps.len() == 0 {
        0
    } else {
        let j = lemma_first_rejection(steps.drop_last());
        assert forall|i: int| 0 <= i < j implies !(#[trigger] steps[i] is Rejected) by {
            assert(steps.drop_last()[i] == steps[i]);
        }
        if first_rejection(steps.drop_last()) is Some {
            j
        } else if steps.last() is Rejected {
            steps.len() - 1
        } else {
            steps.len() as int
        }
    }
}

/// A search that comes to a revoked certificate ends for that, and one that comes
/// to an unrevoked certificate before its first or after its last second for that.
pub proof fn search_ends_at_revoked_or_expired(
    setting: Setting,
    cert: CertView,
    depth: nat,
    ending: Ending,
)
    requires
        may_end(setting, cert, depth, ending),
    ensures
        setting.rules.revoked.contains(sha256(cert.der)) ==> ending == Err::<Reached, PathError>(
            PathError::Revoked,
        ),
        !setting.rules.revoked.contains(sha256(cert.der)) && (setting.rules.now
            < cert.contents.not_before || setting.rules.now > cert.contents.not_after) ==> ending
            == Err::<Reached, PathError>(PathError::Expired),
{
}

/// A search that comes to a certificate that is no anchor, and whose issuer is
/// not at hand, ends for want of an issuer, as long as the chain may grow.
pub proof fn search_ends_without_issuer(
    setting: Setting,
    cert: CertView,
    depth: nat,
    ending: Ending,
)
    requires
        depth < MAX_CHAIN,
        may_end(setting, cert, depth, ending),
        setting.rules.objection(cert) is None,
        !is_pinned(setting.anchors, cert),
        forall|c: CertView| #[trigger] is_candidate(setting, c) ==> !cert.names_other(c),
    ensures
        ending == Err::<Reached, PathError>(PathError::NoIssuer),
{
    let steps = lemma_searched(setting, cert, depth, ending);
    assert forall|j: int| 0 <= j < steps.len() implies #[trigger] steps[j] is PassedOver by {
        let candidate = lemma_candidate_of_step(setting, cert, depth, steps, j);
    }
    let j = lemma_first_rejection(steps);
}

/// A search that comes to a certificate that is no anchor, and whose issuer is at
/// hand but cannot be confirmed to have signed it, ends for its signature, as long
/// as the chain may grow.
pub proof fn search_ends_at_denied_signature(
    setting: Setting,
    cert: CertView,
    depth: nat,
    issuer: CertView,
    ending: Ending,
)
    requires
        depth < MAX_CHAIN,
        may_end(setting, cert, depth, ending),
        setting.rules.objection(cert) is None,
        !is_pinned(setting.anchors, cert),
        is_candidate(setting, issuer) && cert.names_other(issuer),
        forall|c: CertView| #[trigger]
            is_candidate(setting, c) && cert.names_other(c) ==> !(setting.rules.answers)(
                cert,
                c,
                true,
            ),
    ensures
        ending == Err::<Reached, PathError>(PathError::BadSignature),
{
    let steps = lemma_searched(setting, cert, depth, ending);
    assert forall|j: int| 0 <= j < steps.len() implies #[trigger] steps[j] is PassedOver
        || steps[j] is Denied by {
        let candidate = lemma_candidate_of_step(setting, cert, depth, steps, j);
    }
    let j = lemma_first_rejection(steps);
    let k = lemma_step_of_candidate(setting, cert, depth, steps, issuer);
    assert(steps[k] == Step::Denied);
}

/// A search that comes to a certificate that is no anchor, and whose issuer is at
/// hand and confirmed but may not issue, ends for that. Where the chain may not
/// grow any more, only anchors are candidates.
pub proof fn search_ends_at_non_ca(
    setting: Setting,
    cert: CertView,
    depth: nat,
    issuer: CertView,
    ending: Ending,
)
    requires
        depth <= MAX_CHAIN,
        may_end(setting, cert, depth, ending),
        setting.rules.objection(cert) is None,
        !is_pinned(setting.anchors, cert),
        setting.anchors.contains(issuer) || (depth < MAX_CHAIN && setting.intermediates.contains(
            issuer,
        )),
        cert.names_other(issuer),
        !(setting.rules.answers)(cert, issuer, false),
        forall|c: CertView| #[trigger]
            setting.anchors.contains(c) && cert.names_other(c) && (setting.rules.answers)(
                cert,
                c,
                true,
            ) ==> setting.rules.objection(c) is None && !c.contents.is_ca(),
        forall|c: CertView| #[trigger]
            setting.intermediates.contains(c) && cert.names_other(c) && (setting.rules.answers)(
                cert,
                c,
                true,
            ) ==> !c.contents.is_ca(),
    ensures
        ending == Err::<Reached, PathError>(PathError::NotACa),
{
    let steps = lemma_searched(setting, cert, depth, ending);
    assert forall|j: int| 0 <= j < steps.len() implies !(#[trigger] steps[j] is Rejected) && !(
    steps[j] is Reaches) by {
        let candidate = lemma_candidate_of_step(setting, cert, depth, steps, j);
    }
    let j = lemma_first_rejection(steps);
    let k = lemma_step_of_candidate(setting, cert, depth, steps, issuer);
    assert(steps[k] == Step::NotACa);
}

/// A search that has climbed [`MAX_CHAIN`] times, to a certificate that is no
/// anchor and that no anchor can be confirmed to have signed, ends for the length
/// of the chain.
pub proof fn search_ends_at_the_limit(setting: Setting, cert: CertView, ending: Ending)
    requires
        may_end(setting, cert, MAX_CHAIN as nat, ending),
        setting.rules.objection(cert) is None,
        !is_pinned(setting.anchors, cert),
        forall|c: CertView| #[trigger]
            setting.anchors.contains(c) && cert.names_issuer(c) ==> !(setting.rules.answers)(
                cert,
                c,
                true,
            ),
    ensures
        ending == Err::<Reached, PathError>(PathError::ChainTooLong),
{
    let steps = lemma_searched(setting, cert, MAX_CHAIN as nat, ending);
    assert forall|j: int| 0 <= j < steps.len() implies #[trigger] steps[j] is PassedOver
        || steps[j] is Denied by {
        assert(setting.rules.may_step_to_anchor(cert, setting.anchors[j], steps[j]));
        assert(setting.anchors.contains(setting.anchors[j]));
    }
    let j = lemma_first_rejection(steps);
}

/// Where a search fails, and an anchor is confirmed but revoked or outside its
/// validity window, the first such anchor gives the reason.
pub proof fn first_rejected_anchor_gives_the_reason(
    setting: Setting,
    cert: CertView,
    depth: nat,
    j: int,
    error: PathError,
)
    requires
        depth <= MAX_CHAIN,
        may_end(setting, cert, depth, Err(error)),
        setting.rules.objection(cert) is None,
        0 <= j < setting.anchors.len(),
        cert.names_issuer(setting.anchors[j]),
        !(setting.rules.answers)(cert, setting.anchors[j], false),
        setting.rules.objection(setting.anchors[j]) is Some,
        forall|i: int|
            0 <= i < j && cert.names_issuer(#[trigger] setting.anchors[i]) && (
            setting.rules.answers)(cert, setting.anchors[i], true) ==> setting.rules.objection(
                setting.anchors[i],
            ) is None,
    ensures
        setting.rules.revoked.contains(sha256(setting.anchors[j].der)) ==> error is Revoked,
        !setting.rules.revoked.contains(sha256(setting.anchors[j].der)) ==> error is Expired,
{
    let steps = lemma_searched(setting, cert, depth, Err(error));
    let k = lemma_first_rejection(steps);
    assert(setting.rules.may_step_to_anchor(cert, setting.anchors[j], steps[j]));
    if k < j {
        assert(setting.rules.may_step_to_anchor(cert, setting.anchors[k], steps[k]));
    }
}

/// Where a search fails, and no confirmed anchor is rejected, the first
/// intermediate that can be climbed to gives the reason: the search from there
/// fails for it.
pub proof fn first_climb_gives_the_reason(
    setting: Setting,
    cert: CertView,
    depth: nat,
    j: int,
    error: PathError,
)
    requires
        depth < MAX_CHAIN,
        may_end(setting, cert, depth, Err(error)),
        setting.rules.objection(cert) is None,
        !is_pinned(setting.anchors, cert),
        forall|i: int|
            0 <= i < setting.anchors.len() && cert.names_issuer(#[trigger] setting.anchors[i]) && (
            setting.rules.answers)(cert, setting.anchors[i], true) ==> setting.rules.objection(
                setting.anchors[i],
            ) is None,
        0 <= j < setting.intermediates.len(),
        setting.rules.is_link(cert, setting.intermediates[j]),
        !(setting.rules.answers)(cert, setting.intermediates[j], false),
        forall|i: int|
            0 <= i < j ==> !setting.rules.is_link(cert, #[trigger] setting.intermediates[i]),
    ensures
        may_end(setting, setting.intermediates[j], depth + 1, Err(error)),
{
    let steps = lemma_searched(setting, cert, depth, Err(error));
    let n = setting.anchors.len() as int;
    let k = lemma_first_rejection(steps);
    assert(may_step_to_intermediate(
        setting,
        cert,
        depth,
        setting.intermediates[j],
        steps[n + j],
    ));
    if k < n {
        assert(setting.rules.may_step_to_anchor(cert, setting.anchors[k], steps[k]));
    } else if k < n + j {
        assert(may_step_to_intermediate(
            setting,
            cert,
            depth,
            setting.intermediates[k - n],
            steps[k],
        ));
    }
}

/// A leaf that is no anchor and whose issuer is not at hand is rejected for want
/// of an issuer. A self-signed certificate that nobody trusts is one.
pub proof fn leaf_without_issuer_is_rejected(setting: Setting, leaf: CertView, verdict: Verdict)
    requires
        may_conclude(setting, leaf, verdict),
        setting.rules.objection(leaf) is None,
        !is_pinned(setting.anchors, leaf),
        forall|c: CertView| #[trigger] is_candidate(setting, c) ==> !leaf.names_other(c),
    ensures
        verdict == Err::<ValidatedView, PathError>(PathError::NoIssuer),
{
    let ending = lemma_ending_of(setting, leaf, verdict);
    search_ends_without_issuer(setting, leaf, 0, ending);
}

/// A leaf that is no anchor, and whose issuer is at hand but cannot be confirmed
/// to have signed it, is rejected for its signature.
pub proof fn leaf_with_denied_signature_is_rejected(
    setting: Setting,
    leaf: CertView,
    issuer: CertView,
    verdict: Verdict,
)
    requires
        may_conclude(setting, leaf, verdict),
        setting.rules.objection(leaf) is None,
        !is_pinned(setting.anchors, leaf),
        is_candidate(setting, issuer) && leaf.names_other(issuer),
        forall|c: CertView| #[trigger]
            is_candidate(setting, c) && leaf.names_other(c) ==> !(setting.rules.answers)(
                leaf,
                c,
                true,
            ),
    ensures
        verdict == Err::<ValidatedView, PathError>(PathError::BadSignature),
{
    let ending = lemma_ending_of(setting, leaf, verdict);
    search_ends_at_denied_signature(setting, leaf, 0, issuer, ending);
}

/// A leaf that is no anchor, and whose issuer is at hand and confirmed but may
/// not issue, is rejected for that, be the issuer an anchor or an intermediate.
pub proof fn leaf_of_non_ca_is_rejected(
    setting: Setting,
    leaf: CertView,
    issuer: CertView,
    verdict: Verdict,
)
    requires
        may_conclude(setting, leaf, verdict),
        setting.rules.objection(leaf) is None,
        !is_pinned(setting.anchors, leaf),
        is_candidate(setting, issuer) && leaf.names_other(issuer),
        !(setting.rules.answers)(leaf, issuer, false),
        forall|c: CertView| #[trigger]
            setting.anchors.contains(c) && leaf.names_other(c) && (setting.rules.answers)(
                leaf,
                c,
                true,
            ) ==> setting.rules.objection(c) is None && !c.contents.is_ca(),
        forall|c: CertView| #[trigger]
            setting.intermediates.contains(c) && leaf.names_other(c) && (setting.rules.answers)(
                leaf,
                c,
                true,
            ) ==> !c.contents.is_ca(),
    ensures
        verdict == Err::<ValidatedView, PathError>(PathError::NotACa),
{
    let ending = lemma_ending_of(setting, leaf, verdict);
    search_ends_at_non_ca(setting, leaf, 0, issuer, ending);
}

impl Setting {
    /// A search may have gone up along `path` without coming to an end before its
    /// last certificate: each one before the last is unrevoked, inside its
    /// validity window and no anchor, names the next as its issuer, and the
    /// verifier may confirm that. Each one behind the first is a candidate.
    pub open spec fn is_climb(self, path: Seq<CertView>) -> bool {
        &&& path.len() > 0
        &&& forall|k: int| 0 < k < path.len() ==> is_candidate(self, #[trigger] path[k])
        &&& forall|k: int|
            0 <= k < path.len() - 1 ==> {
                &&& self.rules.objection(#[trigger] path[k]) is None
                &&& !is_pinned(self.anchors, path[k])
                &&& path[k].names_other(path[k + 1])
                &&& (self.rules.answers)(path[k], path[k + 1], true)
            }
    }

    /// `error` is what is wrong with the last certificate of `path`, which took
    /// `depth` links to reach.
    pub open spec fn explains(self, path: Seq<CertView>, depth: int, error: PathError) -> bool {
        let last = path.last();
        match error {
            PathError::Revoked | PathError::Expired => self.rules.objection(last) == Some(error),
            PathError::NotACa => {
                path.len() > 1 && is_candidate(self, last) && !last.contents.is_ca()
            },
            PathError::ChainTooLong => {
                &&& depth == MAX_CHAIN
                &&& !is_pinned(self.anchors, last)
                &&& forall|c: CertView| #[trigger]
                    self.anchors.contains(c) && last.names_issuer(c) ==> (self.rules.answers)(
                        last,
                        c,
                        false,
                    )
            },
            PathError::BadSignature => {
                &&& !is_pinned(self.anchors, last)
                &&& exists|c: CertView| #[trigger]
                    is_candidate(self, c) && last.names_other(c) && (self.rules.answers)(
                        last,
                        c,
                        false,
                    )
                &&& forall|c: CertView| #[trigger]
                    is_candidate(self, c) && last.names_other(c) ==> (self.rules.answers)(
                        last,
                        c,
                        false,
                    )
            },
            PathError::NoIssuer => {
                &&& !is_pinned(self.anchors, last)
                &&& forall|c: CertView| #[trigger]
                    is_candidate(self, c) ==> !last.names_other(c)
            },
            PathError::Parse(_) => false,
        }
    }
}

/// What the steps of a search without a rejection, a confirmed candidate or an
/// anchor say of a candidate.
proof fn lemma_fruitless_search(
    setting: Setting,
    cert: CertView,
    depth: nat,
    steps: Seq<Step>,
    c: CertView,
)
    requires
        may_search(setting, cert, depth, steps),
        !reaches(steps),
        forall|j: int|
            0 <= j < steps.len() ==> #[trigger] steps[j] is PassedOver || steps[j] is Denied,
        setting.anchors.contains(c) || (setting.intermediates.contains(c) && depth < MAX_CHAIN),
        cert.names_other(c),
    ensures
        (setting.rules.answers)(cert, c, false),
        steps.contains(Step::Denied),
{
    if setting.anchors.contains(c) {
        let j = setting.anchors.index_of(c);
        assert(setting.rules.may_step_to_anchor(cert, setting.anchors[j], steps[j]));
        assert(steps[j] == Step::Denied);
    } else {
        let i = setting.intermediates.index_of(c);
        let j = setting.anchors.len() + i;
        assert(may_step_to_intermediate(setting, cert, depth, setting.intermediates[i], steps[j]));
        assert(steps[j] == Step::Denied);
    }
}

proof fn lemma_rejected_path(
    setting: Setting,
    cert: CertView,
    depth: nat,
    error: PathError,
) -> (path: Seq<CertView>)
    requires
        depth <= MAX_CHAIN,
        may_end(setting, cert, depth, Err(error)),
    ensures
        setting.is_climb(path),
        path[0] == cert,
        setting.explains(path, depth + path.len() - 1, error),
    decreases MAX_CHAIN - depth,
{
    if setting.rules.objection(cert) is Some {
        seq![cert]
    } else {
        let steps = lemma_searched(setting, cert, depth, Err(error));
        assert(!reaches(steps));
        assert(forall|j: int| 0 <= j < steps.len() ==> !(#[trigger] steps[j] is Reaches));
        let j = lemma_first_rejection(steps);
        if first_rejection(steps) is Some {
            let candidate = lemma_candidate_of_step(setting, cert, depth, steps, j);
            if setting.anchors.contains(candidate) && setting.rules.objection(candidate) == Some(
                error,
            ) {
                seq![cert, candidate]
            } else {
                let rest = lemma_rejected_path(setting, candidate, depth + 1, error);
                let path = seq![cert] + rest;
                assert(path.last() == rest.last());
                assert forall|k: int| 0 < k < path.len() implies is_candidate(
                    setting,
                    #[trigger] path[k],
                ) by {
                    assert(path[k] == rest[k - 1]);
                }
                assert forall|k: int| 0 <= k < path.len() - 1 implies {
                    &&& setting.rules.objection(#[trigger] path[k]) is None
                    &&& !is_pinned(setting.anchors, path[k])
                    &&& path[k].names_other(path[k + 1])
                    &&& (setting.rules.answers)(path[k], path[k + 1], true)
                } by {
                    assert(path[k + 1] == rest[k]);
                    if k > 0 {
                        assert(path[k] == rest[k - 1]);
                    }
                }
                path
            }
        } else if steps.contains(Step::NotACa) {
            let k = steps.index_of(Step::NotACa);
            let candidate = lemma_candidate_of_step(setting, cert, depth, steps, k);
            seq![cert, candidate]
        } else {
            assert forall|i: int| 0 <= i < steps.len() implies #[trigger] steps[i] is PassedOver
                || steps[i] is Denied by {
                assert(steps.contains(steps[i]));
            }
            assert forall|c: CertView| #[trigger]
                setting.anchors.contains(c) && cert.names_issuer(c) implies (
            setting.rules.answers)(cert, c, false) by {
                let i = setting.anchors.index_of(c);
                assert(setting.anchors[i].fingerprint() != cert.fingerprint());
                lemma_fruitless_search(setting, cert, depth, steps, c);
            }
            if depth < MAX_CHAIN {
                assert forall|c: CertView| #[trigger]
                    is_candidate(setting, c) && cert.names_other(c) implies (
                setting.rules.answers)(cert, c, false) && error is BadSignature by {
                    lemma_fruitless_search(setting, cert, depth, steps, c);
                }
                if steps.contains(Step::Denied) {
                    let k = steps.index_of(Step::Denied);
                    let candidate = lemma_candidate_of_step(setting, cert, depth, steps, k);
                }
            }
            seq![cert]
        }
    }
}

/// A rejection has its cause at the end of a climb from the leaf: a certificate
/// that is revoked or expired; a confirmed issuer that may not issue; a
/// certificate whose named issuers were all denied, or that has none at hand; or
/// one that took [`MAX_CHAIN`] links to reach and that no anchor issued.
pub proof fn rejection_is_explained(setting: Setting, leaf: CertView, error: PathError)
    requires
        may_conclude(setting, leaf, Err(error)),
    ensures
        exists|path: Seq<CertView>|
            {
                &&& #[trigger] setting.is_climb(path)
                &&& path[0] == leaf
                &&& setting.explains(path, path.len() - 1, error)
            },
{
    let path = lemma_rejected_path(setting, leaf, 0, error);
}

/// A leaf is rejected as revoked only where it or a candidate has a revoked
/// digest, as expired only where the time is outside the window of one of them,
/// and for an issuer that may not issue only where there is such a candidate.
pub proof fn rejection_has_a_cause(setting: Setting, leaf: CertView, error: PathError)
    requires
        may_conclude(setting, leaf, Err(error)),
    ensures
        error is Revoked ==> setting.rules.revoked.contains(sha256(leaf.der)) || exists|
            c: CertView,
        | #[trigger]
            is_candidate(setting, c) && setting.rules.revoked.contains(sha256(c.der)),
        error is Expired ==> setting.rules.now < leaf.contents.not_before || setting.rules.now
            > leaf.contents.not_after || exists|c: CertView| #[trigger]
            is_candidate(setting, c) && (setting.rules.now < c.contents.not_before
                || setting.rules.now > c.contents.not_after),
        error is NotACa ==> exists|c: CertView| #[trigger]
            is_candidate(setting, c) && !c.contents.is_ca(),
        !(error is Parse),
{
    let path = lemma_rejected_path(setting, leaf, 0, error);
    let last = path[path.len() - 1];
    assert(last == leaf || is_candidate(setting, last));
}

proof fn lemma_single_ending(setting: Setting, cert: CertView, depth: nat, a: Ending, b: Ending)
    requires
        has_single_answers(setting.rules.answers),
        depth <= MAX_CHAIN,
        may_end(setting, cert, depth, a),
        may_end(setting, cert, depth, b),
    ensures
        a == b,
    decreases MAX_CHAIN - depth,
{
    if setting.rules.objection(cert) is None && !is_pinned(setting.anchors, cert) {
        let x = lemma_searched(setting, cert, depth, a);
        let y = lemma_searched(setting, cert, depth, b);
        let n = setting.anchors.len() as int;
        assert forall|j: int| 0 <= j < x.len() && j < y.len() implies #[trigger] x[j] == y[j] by {
            if j < n {
                assert(setting.rules.may_step_to_anchor(cert, setting.anchors[j], x[j]));
                assert(setting.rules.may_step_to_anchor(cert, setting.anchors[j], y[j]));
            } else {
                let issuer = setting.intermediates[j - n];
                assert(may_step_to_intermediate(setting, cert, depth, issuer, x[j]));
                assert(may_step_to_intermediate(setting, cert, depth, issuer, y[j]));
                if setting.rules.is_link(cert, issuer) {
                    let p = ending_above(x[j]);
                    let q = ending_above(y[j]);
                    lemma_single_ending(setting, issuer, depth + 1, p, q);
                }
            }
        }
        if x.len() < y.len() {
            assert(y[x.len() - 1] == x[x.len() - 1]);
        }
        if y.len() < x.len() {
            assert(x[y.len() - 1] == y[y.len() - 1]);
        }
        assert(x =~= y);
    }
}

impl Setting {
    /// `anchor` can end a chain above `cert`: `cert` names it as its issuer, the
    /// verifier may confirm that, it is unrevoked and inside its validity window,
    /// and it may issue.
    pub open spec fn is_usable(self, cert: CertView, anchor: CertView) -> bool {
        &&& cert.names_issuer(anchor)
        &&& (self.rules.answers)(cert, anchor, true)
        &&& self.rules.objection(anchor) is None
        &&& anchor.contents.is_ca()
    }

    /// A path from `cert` through `issuer` leads to an anchor, through at most
    /// `limit` intermediates.
    pub open spec fn leads_up(self, cert: CertView, issuer: CertView, limit: int) -> bool {
        exists|path: Seq<CertView>| #[trigger]
            self.is_path_within(path, limit) && path.len() > 1 && path[0] == cert && path[1]
                == issuer
    }

    /// `path` is the first way up from its first certificate, which is `depth`
    /// links up. It ends as soon as it can, and at each of its certificates it goes
    /// on to the first candidate in `places` that leads to an anchor: to an anchor
    /// that can end the chain, where there is one, and else to an intermediate.
    pub open spec fn is_first_way(
        self,
        path: Seq<CertView>,
        places: Seq<int>,
        depth: int,
    ) -> bool {
        &&& path.len() == places.len() + 1
        &&& forall|k: int| 0 <= k < places.len() ==> !is_pinned(self.anchors, #[trigger] path[k])
        &&& forall|k: int|
            0 <= k < places.len() - 1 ==> self.goes_to_first_intermediate(
                #[trigger] path[k],
                path[k + 1],
                places[k],
                MAX_CHAIN - depth - k,
            )
        &&& places.len() > 0 ==> {
            let k = places.len() - 1;
            ||| self.goes_to_first_anchor(path[k], path[k + 1], places[k])
            ||| {
                &&& is_pinned(self.anchors, path[k + 1])
                &&& self.goes_to_first_intermediate(
                    path[k],
                    path[k + 1],
                    places[k],
                    MAX_CHAIN - depth - k,
                )
            }
        }
    }

    /// `anchor` is the first anchor, in the place `i`, that can end a chain above
    /// `cert`.
    pub open spec fn goes_to_first_anchor(self, cert: CertView, anchor: CertView, i: int) -> bool {
        &&& 0 <= i < self.anchors.len()
        &&& self.anchors[i] == anchor
        &&& self.is_usable(cert, anchor)
        &&& forall|j: int| 0 <= j < i ==> !self.is_usable(cert, #[trigger] self.anchors[j])
    }

    /// No anchor can end a chain above `cert`, and `issuer` is the first
    /// intermediate, in the place `i`, through which a path leads up from `cert`.
    pub open spec fn goes_to_first_intermediate(
        self,
        cert: CertView,
        issuer: CertView,
        i: int,
        limit: int,
    ) -> bool {
        &&& forall|j: int|
            0 <= j < self.anchors.len() ==> !self.is_usable(cert, #[trigger] self.anchors[j])
        &&& 0 <= i < self.intermediates.len()
        &&& self.intermediates[i] == issuer
        &&& forall|j: int|
            0 <= j < i ==> !self.leads_up(cert, #[trigger] self.intermediates[j], limit)
    }
}

/// A path from `cert` through an intermediate goes on from that intermediate.
proof fn lemma_shorter_path(setting: Setting, path: Seq<CertView>, limit: int)
    requires
        setting.is_path_within(path, limit),
        path.len() > 1,
        limit > 0,
    ensures
        setting.is_path_within(path.drop_first(), limit - 1),
{
    let rest = path.drop_first();
    assert(rest.last() == path.last());
    assert forall|k: int| 0 <= k < rest.len() implies setting.rules.objection(
        #[trigger] rest[k],
    ) is None by {
        assert(rest[k] == path[k + 1]);
    }
    assert forall|k: int| 0 <= k < rest.len() - 1 implies setting.rules.is_link(
        #[trigger] rest[k],
        rest[k + 1],
    ) by {
        assert(rest[k] == path[k + 1]);
    }
    assert forall|k: int| 0 < k < rest.len() - 1 implies setting.intermediates.contains(
        #[trigger] rest[k],
    ) by {
        assert(rest[k] == path[k + 1]);
    }
    if path.len() == 2 && setting.anchors.contains(path.last()) {
        let i = setting.anchors.index_of(path.last());
        assert(setting.anchors[i].fingerprint() == rest.last().fingerprint());
    }
}

/// An intermediate from which a search failed does not lead up.
proof fn lemma_failed_climb(
    setting: Setting,
    cert: CertView,
    depth: nat,
    issuer: CertView,
    step: Step,
)
    requires
        has_single_answers(setting.rules.answers),
        depth < MAX_CHAIN,
        may_step_to_intermediate(setting, cert, depth, issuer, step),
        !(step is Reaches),
    ensures
        !setting.leads_up(cert, issuer, MAX_CHAIN - depth),
{
    let limit = MAX_CHAIN - depth;
    if setting.leads_up(cert, issuer, limit) {
        let path = choose|path: Seq<CertView>| #[trigger]
            setting.is_path_within(path, limit) && path.len() > 1 && path[0] == cert && path[1]
                == issuer;
        assert(setting.rules.is_link(path[0], path[1]));
        assert(step is Rejected);
        let rest = path.drop_first();
        lemma_shorter_path(setting, path, limit);
        assert forall|k: int| 0 <= k < rest.len() - 1 implies !(setting.rules.answers)(
            #[trigger] rest[k],
            rest[k + 1],
            false,
        ) by {
            assert(setting.rules.is_link(rest[k], rest[k + 1]));
        }
        lemma_path_is_found(setting, rest, depth + 1, Err(step->Rejected_0));
    }
}

/// A step that does not reach an anchor is to none that can end the chain.
proof fn lemma_unusable_anchor(setting: Setting, cert: CertView, anchor: CertView, step: Step)
    requires
        has_single_answers(setting.rules.answers),
        setting.rules.may_step_to_anchor(cert, anchor, step),
        !(step is Reaches),
    ensures
        !setting.is_usable(cert, anchor),
{
}

proof fn lemma_first_way(setting: Setting, cert: CertView, depth: nat, reached: Reached) -> (way: (
    Seq<CertView>,
    Seq<int>,
))
    requires
        has_single_answers(setting.rules.answers),
        depth <= MAX_CHAIN,
        may_end(setting, cert, depth, Ok(reached)),
    ensures
        setting.is_path_within(way.0, MAX_CHAIN - depth),
        setting.is_first_way(way.0, way.1, depth as int),
        way.0[0] == cert,
        way.0.last() == reached.anchor,
        way.0.len() == reached.links + 1,
        is_pinned(setting.anchors, cert) ==> way.0.len() == 1,
    decreases MAX_CHAIN - depth,
{
    if is_pinned(setting.anchors, cert) {
        (seq![cert], Seq::empty())
    } else {
        let steps = lemma_searched(setting, cert, depth, Ok(reached));
        let n = setting.anchors.len() as int;
        let j = steps.len() - 1;
        assert(steps[j] == Step::Reaches(reached));
        assert forall|i: int| 0 <= i < n && i < j implies !setting.is_usable(
            cert,
            #[trigger] setting.anchors[i],
        ) by {
            lemma_unusable_anchor(setting, cert, setting.anchors[i], steps[i]);
        }
        if j < n {
            let anchor = setting.anchors[j];
            assert(setting.rules.may_step_to_anchor(cert, anchor, steps[j]));
            assert(setting.anchors.contains(anchor));
            assert(anchor.fingerprint() != cert.fingerprint());
            let path = seq![cert, anchor];
            assert(setting.goes_to_first_anchor(cert, anchor, j));
            assert(setting.rules.is_link(path[0], path[1]));
            (path, seq![j])
        } else {
            let issuer = setting.intermediates[j - n];
            assert(may_step_to_intermediate(setting, cert, depth, issuer, steps[j]));
            assert(setting.intermediates.contains(issuer));
            let above = Reached { anchor: reached.anchor, links: (reached.links - 1) as nat };
            let (rest, later) = lemma_first_way(setting, issuer, depth + 1, above);
            lemma_longer_path(setting, cert, rest, MAX_CHAIN - depth - 1);
            assert forall|i: int| 0 <= i < j - n implies !setting.leads_up(
                cert,
                #[trigger] setting.intermediates[i],
                MAX_CHAIN - depth,
            ) by {
                lemma_failed_climb(setting, cert, depth, setting.intermediates[i], steps[n + i]);
            }
            if later.len() == 0 {
                lemma_short_way(setting, issuer, depth + 1, above);
            }
            lemma_longer_way(setting, cert, j - n, rest, later, depth as int);
            (seq![cert] + rest, seq![j - n] + later)
        }
    }
}

/// The first way up from the first intermediate that leads up makes the first way
/// up from a certificate that it issued.
proof fn lemma_longer_way(
    setting: Setting,
    cert: CertView,
    i: int,
    rest: Seq<CertView>,
    later: Seq<int>,
    depth: int,
)
    requires
        setting.is_first_way(rest, later, depth + 1),
        !is_pinned(setting.anchors, cert),
        later.len() == 0 ==> is_pinned(setting.anchors, rest[0]),
        setting.goes_to_first_intermediate(cert, rest[0], i, MAX_CHAIN - depth),
    ensures
        setting.is_first_way(seq![cert] + rest, seq![i] + later, depth),
{
    let path = seq![cert] + rest;
    let places = seq![i] + later;
    assert forall|k: int| 0 <= k < places.len() implies !is_pinned(
        setting.anchors,
        #[trigger] path[k],
    ) by {
        if k > 0 {
            assert(path[k] == rest[k - 1]);
        }
    }
    assert forall|k: int| 0 <= k < places.len() - 1 implies setting.goes_to_first_intermediate(
        #[trigger] path[k],
        path[k + 1],
        places[k],
        MAX_CHAIN - depth - k,
    ) by {
        assert(path[k + 1] == rest[k]);
        if k > 0 {
            assert(path[k] == rest[k - 1]);
            assert(places[k] == later[k - 1]);
            assert(MAX_CHAIN - (depth + 1) - (k - 1) == MAX_CHAIN - depth - k);
        }
    }
    let k = places.len() - 1;
    assert(path[k + 1] == rest[k]);
    if later.len() > 0 {
        assert(path[k] == rest[k - 1]);
        assert(places[k] == later[k - 1]);
        assert(MAX_CHAIN - (depth + 1) - (k - 1) == MAX_CHAIN - depth - k);
    }
}

/// A search that ends without a link ends at an anchor.
proof fn lemma_short_way(setting: Setting, cert: CertView, depth: nat, reached: Reached)
    requires
        may_end(setting, cert, depth, Ok(reached)),
        reached.links == 0,
    ensures
        is_pinned(setting.anchors, cert),
{
    if !is_pinned(setting.anchors, cert) {
        let steps = lemma_searched(setting, cert, depth, Ok(reached));
        let n = setting.anchors.len() as int;
        let j = steps.len() - 1;
        if j < n {
            assert(setting.rules.may_step_to_anchor(cert, setting.anchors[j], steps[j]));
        } else {
            assert(may_step_to_intermediate(
                setting,
                cert,
                depth,
                setting.intermediates[j - n],
                steps[j],
            ));
        }
    }
}

/// With a verifier that has at most one answer to each question, an accepted leaf
/// is reported with the first way up: with the leaf itself where it is an anchor;
/// else with the first anchor that issued it and can end a chain; else with the
/// first way up from the first intermediate that leads to an anchor.
pub proof fn first_way_up_is_reported(setting: Setting, leaf: CertView, validated: ValidatedView)
    requires
        has_single_answers(setting.rules.answers),
        may_conclude(setting, leaf, Ok(validated)),
    ensures
        exists|path: Seq<CertView>, places: Seq<int>|
            {
                &&& setting.is_trusted_path(path)
                &&& #[trigger] setting.is_first_way(path, places, 0)
                &&& path[0] == leaf
                &&& validated.subject == name_text(leaf.contents.subject)
                &&& validated.anchor_subject == name_text(path[path.len() - 1].contents.subject)
                &&& validated.chain_len == path.len() - 1
            },
{
    let reached = choose|reached: Reached|
        {
            &&& #[trigger] may_end(setting, leaf, 0, Ok(reached))
            &&& validated == accepted(leaf, reached.anchor, reached.links)
        };
    let (path, places) = lemma_first_way(setting, leaf, 0, reached);
    assert(setting.is_trusted_path(path));
    assert(setting.is_first_way(path, places, 0));
}

/// The ending at an intermediate that a step to it stands for.
spec fn ending_above(step: Step) -> Ending {
    match step {
        Step::Reaches(reached) => Ok(
            Reached { anchor: reached.anchor, links: (reached.links - 1) as nat },
        ),
        _ => Err(step->Rejected_0),
    }
}

/// With a verifier that has at most one answer to each question, such as
/// [`NativeVerifier`], a validation has one verdict.
pub proof fn verdict_is_single(setting: Setting, leaf: CertView, a: Verdict, b: Verdict)
    requires
        has_single_answers(setting.rules.answers),
        may_conclude(setting, leaf, a),
        may_conclude(setting, leaf, b),
    ensures
        a == b,
{
    let x = lemma_ending_of(setting, leaf, a);
    let y = lemma_ending_of(setting, leaf, b);
    lemma_single_ending(setting, leaf, 0, x, y);
}

/// The ending that a verdict reports.
proof fn lemma_ending_of(setting: Setting, leaf: CertView, verdict: Verdict) -> (ending: Ending)
    requires
        may_conclude(setting, leaf, verdict),
    ensures
        may_end(setting, leaf, 0, ending),
        verdict == match ending {
            Ok(reached) => Ok::<ValidatedView, PathError>(
                accepted(leaf, reached.anchor, reached.links),
            ),
            Err(error) => Err(error),
        },
{
    match verdict {
        Ok(validated) => {
            let reached = choose|reached: Reached|
                {
                    &&& #[trigger] may_end(setting, leaf, 0, Ok(reached))
                    &&& validated == accepted(leaf, reached.anchor, reached.links)
                };
            Ok(reached)
        },
        Err(error) => Err(error),
    }
}

/// [`NativeVerifier`] has exactly one answer to each question: whether the
/// issuer's key can be loaded and verifies the signature.
pub proof fn native_answers_are_single(cert: CertView, issuer: CertView, answer: bool)
    ensures
        has_single_answers(answers_of(&NativeVerifier)),
        answers_of(&NativeVerifier)(cert, issuer, answer) <==> answer == NativeVerifier::accepts(
            cert,
            issuer,
        ),
{
}

/// [`NativeVerifier`] looks at the issuer's public key alone: its name, validity
/// and extensions play no part in the check of a signature.
pub proof fn native_looks_at_the_key_alone(cert: CertView, a: CertView, b: CertView)
    requires
        a.contents.key == b.contents.key,
    ensures
        NativeVerifier::accepts(cert, a) == NativeVerifier::accepts(cert, b),
{
}

impl Setting {
    /// Everything that is at hand or trusted here is so in `wider`, and nothing
    /// else is revoked there.
    pub open spec fn is_within(self, wider: Setting) -> bool {
        &&& forall|c: CertView| #[trigger]
            self.intermediates.contains(c) ==> wider.intermediates.contains(c)
        &&& forall|c: CertView| #[trigger] self.anchors.contains(c) ==> wider.anchors.contains(c)
        &&& wider.rules.revoked.subset_of(self.rules.revoked)
        &&& wider.rules.now == self.rules.now
        &&& wider.rules.answers == self.rules.answers
    }
}

/// To trust more, to have more intermediates at hand or to revoke less makes no
/// leaf unacceptable.
pub proof fn wider_setting_accepts_no_less(
    setting: Setting,
    wider: Setting,
    leaf: CertView,
    validated: ValidatedView,
    verdict: Verdict,
)
    requires
        has_single_answers(setting.rules.answers),
        setting.is_within(wider),
        may_conclude(setting, leaf, Ok(validated)),
        may_conclude(wider, leaf, verdict),
    ensures
        verdict is Ok,
{
    accepted_leaf_has_trusted_path(setting, leaf, validated);
    let path = choose|path: Seq<CertView>| #[trigger]
        setting.is_trusted_path(path) && path[0] == leaf;
    assert forall|k: int| 0 <= k < path.len() implies wider.rules.objection(
        #[trigger] path[k],
    ) is None by {
        assert(setting.rules.objection(path[k]) is None);
    }
    assert forall|k: int| 0 <= k < path.len() - 1 implies wider.rules.is_link(
        #[trigger] path[k],
        path[k + 1],
    ) by {
        assert(setting.rules.is_link(path[k], path[k + 1]));
    }
    if is_pinned(setting.anchors, path.last()) {
        let i = choose|i: int|
            0 <= i < setting.anchors.len() && (#[trigger] setting.anchors[i]).fingerprint()
                == path.last().fingerprint();
        assert(setting.anchors.contains(setting.anchors[i]));
        let j = wider.anchors.index_of(setting.anchors[i]);
        assert(wider.anchors[j].fingerprint() == path.last().fingerprint());
    }
    assert(wider.is_trusted_path(path));
    accepted_exactly_if_trusted(wider, leaf, verdict);
}

/// To parse the DER of a parsed certificate gives the same certificate again.
pub proof fn reparsing_gives_the_same(cert: CertView)
    requires
        cert.is_decoded(),
    ensures
        parses_to(cert.der, cert),
{
}

/// Reported reasons tell errors apart, but for the message of a parse error.
pub proof fn reasons_tell_errors_apart(a: PathError, b: PathError)
    requires
        reason_of(a) == reason_of(b),
    ensures
        a == b || (a is Parse && b is Parse),
{
}

} // verus!
