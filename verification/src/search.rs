//! How the search for a way up to an anchor ends.

use crate::cert::CertView;
use crate::error::PathError;
use crate::path::MAX_CHAIN;
use crate::setting::Rules;
use crate::setting::Setting;
use crate::store::is_pinned;
use vstd::prelude::*;

verus! {

/// An anchor, and the number of links that lead up to it.
pub struct Reached {
    pub anchor: CertView,
    pub links: nat,
}

/// How a search ends: at an anchor, or with the reason why there is none.
pub type Ending = Result<Reached, PathError>;

/// What came of one candidate for the issuer of a certificate.
pub enum Step {
    /// It is not the issuer that the certificate names, or no other certificate.
    PassedOver,
    /// The verifier denied that it signed the certificate.
    Denied,
    /// The verifier confirmed it, but it may not issue.
    NotACa,
    /// The verifier confirmed it, but it leads to no anchor.
    Rejected(PathError),
    /// The verifier confirmed it, and it is an anchor or leads to one.
    Reaches(Reached),
}

impl Rules {
    /// `step` may be what comes of `anchor` as a candidate for the issuer of
    /// `cert`.
    pub open spec fn may_step_to_anchor(
        self,
        cert: CertView,
        anchor: CertView,
        step: Step,
    ) -> bool {
        match step {
            Step::PassedOver => !cert.names_issuer(anchor),
            Step::Denied => cert.names_issuer(anchor) && (self.answers)(cert, anchor, false),
            Step::NotACa => {
                &&& cert.names_issuer(anchor)
                &&& (self.answers)(cert, anchor, true)
                &&& self.objection(anchor) is None
                &&& !anchor.contents.is_ca()
            },
            Step::Rejected(error) => {
                &&& cert.names_issuer(anchor)
                &&& (self.answers)(cert, anchor, true)
                &&& self.objection(anchor) == Some(error)
            },
            Step::Reaches(reached) => {
                &&& cert.names_issuer(anchor)
                &&& (self.answers)(cert, anchor, true)
                &&& self.objection(anchor) is None
                &&& anchor.contents.is_ca()
                &&& reached == Reached { anchor, links: 1 }
            },
        }
    }
}

/// The last of the steps reaches an anchor.
pub open spec fn reaches(steps: Seq<Step>) -> bool {
    steps.len() > 0 && steps.last() is Reaches
}

/// The steps are those of a search through `n` candidates, in order, that stops
/// where one reaches an anchor.
pub open spec fn stops_at_first(steps: Seq<Step>, n: nat) -> bool {
    &&& steps.len() <= n
    &&& steps.len() < n ==> reaches(steps)
    &&& forall|j: int| 0 <= j < steps.len() - 1 ==> !(#[trigger] steps[j] is Reaches)
}

/// The steps may be those of a search through `anchors` for one that issued
/// `cert`.
pub open spec fn may_search_anchors(
    rules: Rules,
    anchors: Seq<CertView>,
    cert: CertView,
    steps: Seq<Step>,
) -> bool {
    &&& stops_at_first(steps, anchors.len())
    &&& forall|j: int|
        0 <= j < steps.len() ==> rules.may_step_to_anchor(cert, anchors[j], #[trigger] steps[j])
}

/// The first rejection among the steps.
pub open spec fn first_rejection(steps: Seq<Step>) -> Option<PathError>
    decreases steps.len(),
{
    if steps.len() == 0 {
        None
    } else {
        match first_rejection(steps.drop_last()) {
            Some(error) => Some(error),
            None => match steps.last() {
                Step::Rejected(error) => Some(error),
                _ => None,
            },
        }
    }
}

/// What follows from the steps of a search that started `depth` links up: the
/// anchor that was reached, or else the first rejection. Where nothing could be
/// tried, the reason is a confirmed candidate that may not issue, the length of
/// the chain, a denied candidate, or that there is no candidate at all.
pub open spec fn conclusion(steps: Seq<Step>, depth: nat) -> Ending {
    if reaches(steps) {
        Ok(steps.last()->Reaches_0)
    } else {
        match first_rejection(steps) {
            Some(error) => Err(error),
            None => if steps.contains(Step::NotACa) {
                Err(PathError::NotACa)
            } else if depth >= MAX_CHAIN {
                Err(PathError::ChainTooLong)
            } else if steps.contains(Step::Denied) {
                Err(PathError::BadSignature)
            } else {
                Err(PathError::NoIssuer)
            },
        }
    }
}

/// `step` may be what comes of `intermediate` as a candidate for the issuer of
/// `cert`, which is `depth` links up.
pub open spec fn may_step_to_intermediate(
    setting: Setting,
    cert: CertView,
    depth: nat,
    intermediate: CertView,
    step: Step,
) -> bool
    decreases MAX_CHAIN - depth, 0int,
{
    let rules = setting.rules;
    match step {
        Step::PassedOver => !cert.names_other(intermediate),
        Step::Denied => cert.names_other(intermediate) && (rules.answers)(
            cert,
            intermediate,
            false,
        ),
        Step::NotACa => {
            &&& cert.names_other(intermediate)
            &&& (rules.answers)(cert, intermediate, true)
            &&& !intermediate.contents.is_ca()
        },
        Step::Rejected(error) => {
            &&& depth < MAX_CHAIN
            &&& rules.is_link(cert, intermediate)
            &&& may_end(setting, intermediate, depth + 1, Err(error))
        },
        Step::Reaches(reached) => {
            &&& depth < MAX_CHAIN
            &&& rules.is_link(cert, intermediate)
            &&& reached.links > 0
            &&& may_end(
                setting,
                intermediate,
                depth + 1,
                Ok(Reached { anchor: reached.anchor, links: (reached.links - 1) as nat }),
            )
        },
    }
}

/// The steps may be those of a search for a way up from `cert`, which is `depth`
/// links up: first through the anchors, then through the intermediates, as long
/// as another one fits in the chain.
pub open spec fn may_search(setting: Setting, cert: CertView, depth: nat, steps: Seq<Step>) -> bool
    decreases MAX_CHAIN - depth, 1int,
{
    let anchors = setting.anchors;
    let intermediates = if depth < MAX_CHAIN {
        setting.intermediates
    } else {
        Seq::empty()
    };
    &&& stops_at_first(steps, anchors.len() + intermediates.len())
    &&& forall|j: int|
        0 <= j < steps.len() && j < anchors.len() ==> setting.rules.may_step_to_anchor(
            cert,
            anchors[j],
            #[trigger] steps[j],
        )
    &&& forall|j: int|
        anchors.len() <= j < steps.len() ==> may_step_to_intermediate(
            setting,
            cert,
            depth,
            intermediates[j - anchors.len()],
            #[trigger] steps[j],
        )
}

/// A search for an anchor that comes to `cert` after `depth` links may end with
/// `ending`. A certificate that is revoked or outside its validity window is the
/// end, and so is one that is itself an anchor.
pub open spec fn may_end(setting: Setting, cert: CertView, depth: nat, ending: Ending) -> bool
    decreases MAX_CHAIN - depth, 2int,
{
    match setting.rules.objection(cert) {
        Some(error) => ending == Err::<Reached, PathError>(error),
        None => if is_pinned(setting.anchors, cert) {
            ending == Ok::<Reached, PathError>(Reached { anchor: cert, links: 0 })
        } else {
            exists|steps: Seq<Step>|
                may_search(setting, cert, depth, steps) && ending == #[trigger] conclusion(
                    steps,
                    depth,
                )
        },
    }
}

/// A search that went by these steps ends with what follows from them.
pub(crate) proof fn lemma_search_ends(
    setting: Setting,
    cert: CertView,
    depth: nat,
    steps: Seq<Step>,
)
    requires
        setting.rules.objection(cert) is None,
        !is_pinned(setting.anchors, cert),
        may_search(setting, cert, depth, steps),
    ensures
        may_end(setting, cert, depth, conclusion(steps, depth)),
{
}

/// The steps of a search that ended with `ending`.
pub(crate) proof fn lemma_searched(
    setting: Setting,
    cert: CertView,
    depth: nat,
    ending: Ending,
) -> (steps: Seq<Step>)
    requires
        setting.rules.objection(cert) is None,
        !is_pinned(setting.anchors, cert),
        may_end(setting, cert, depth, ending),
    ensures
        may_search(setting, cert, depth, steps),
        ending == conclusion(steps, depth),
{
    choose|steps: Seq<Step>|
        may_search(setting, cert, depth, steps) && ending == #[trigger] conclusion(steps, depth)
}

/// What stood in the way of a search.
pub struct Tally {
    rejection: Option<PathError>,
    not_a_ca: bool,
    denied: bool,
}

impl Tally {
    /// The tally is that of these steps.
    pub closed spec fn counts(self, steps: Seq<Step>) -> bool {
        &&& self.rejection == first_rejection(steps)
        &&& self.not_a_ca == steps.contains(Step::NotACa)
        &&& self.denied == steps.contains(Step::Denied)
    }

    /// Nothing stood in the way yet.
    pub fn new() -> (tally: Self)
        ensures
            tally.counts(Seq::empty()),
    {
        Tally { rejection: None, not_a_ca: false, denied: false }
    }

    /// A candidate that was passed over is not counted.
    pub proof fn pass_over(self, steps: Seq<Step>)
        requires
            self.counts(steps),
        ensures
            self.counts(steps.push(Step::PassedOver)),
    {
        lemma_one_more_step(steps, Step::PassedOver);
    }

    /// A candidate was denied.
    pub fn deny(&mut self)
        ensures
            forall|steps: Seq<Step>| #[trigger]
                old(self).counts(steps) ==> final(self).counts(steps.push(Step::Denied)),
    {
        self.denied = true;
        proof {
            assert forall|steps: Seq<Step>| #[trigger] old(self).counts(steps) implies self.counts(
                steps.push(Step::Denied),
            ) by {
                lemma_one_more_step(steps, Step::Denied);
            }
        }
    }

    /// A candidate may not issue.
    pub fn exclude(&mut self)
        ensures
            forall|steps: Seq<Step>| #[trigger]
                old(self).counts(steps) ==> final(self).counts(steps.push(Step::NotACa)),
    {
        self.not_a_ca = true;
        proof {
            assert forall|steps: Seq<Step>| #[trigger] old(self).counts(steps) implies self.counts(
                steps.push(Step::NotACa),
            ) by {
                lemma_one_more_step(steps, Step::NotACa);
            }
        }
    }

    /// A candidate leads to no anchor, because of `error`.
    pub fn reject(&mut self, error: PathError)
        ensures
            forall|steps: Seq<Step>| #[trigger]
                old(self).counts(steps) ==> final(self).counts(steps.push(Step::Rejected(error))),
    {
        if self.rejection.is_none() {
            self.rejection = Some(error);
        }
        proof {
            assert forall|steps: Seq<Step>| #[trigger] old(self).counts(steps) implies self.counts(
                steps.push(Step::Rejected(error)),
            ) by {
                lemma_one_more_step(steps, Step::Rejected(error));
            }
        }
    }

    /// Why a search that started `depth` links up reached no anchor.
    pub fn error(self, depth: usize) -> (error: PathError)
        ensures
            forall|steps: Seq<Step>| #[trigger]
                self.counts(steps) && !reaches(steps) ==> conclusion(steps, depth as nat) == Err::<
                    Reached,
                    PathError,
                >(error),
    {
        match self.rejection {
            Some(error) => error,
            None => {
                if self.not_a_ca {
                    PathError::NotACa
                } else if depth >= MAX_CHAIN {
                    PathError::ChainTooLong
                } else if self.denied {
                    PathError::BadSignature
                } else {
                    PathError::NoIssuer
                }
            },
        }
    }
}

/// How one more step changes what a tally counts.
proof fn lemma_one_more_step(steps: Seq<Step>, step: Step)
    ensures
        first_rejection(steps.push(step)) == match first_rejection(steps) {
            Some(error) => Some(error),
            None => match step {
                Step::Rejected(error) => Some(error),
                _ => None,
            },
        },
        forall|s: Step| #[trigger]
            steps.push(step).contains(s) <==> (steps.contains(s) || s == step),
{
    let more = steps.push(step);
    assert(more.drop_last() =~= steps);
    assert forall|s: Step| #[trigger] more.contains(s) <==> (steps.contains(s) || s == step) by {
        if steps.contains(s) {
            let i = steps.index_of(s);
            assert(more[i] == s);
        }
        assert(more[steps.len() as int] == step);
    }
}

} // verus!
