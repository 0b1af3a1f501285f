//! What the watchdog does with each open pull request. For every open pull
//! request that is either created by a trusted login (the authenticated user or
//! anyone in `TRUSTED_USERS`) or approved by a trusted login:
//! - if it is behind its base branch, its branch is updated via the GitHub API;
//! - if it is ready to merge, it is merged.
//! Drafts are skipped without being looked at.
//!
//! The decision is taken in steps, each from what the previous request returned;
//! the caller performs the request a step asks for and hands its result to the
//! next step.

use vstd::prelude::*;
use crate::github::{
    approved_by, approved_by_any, trusted_users_approved, PullRequest, PullRequestDetail, Review,
};
use crate::config::TrustedUserList;
use crate::text::same_text;

verus! {

/// Why a pull request is left alone.
#[derive(Debug, Clone, Copy, PartialEq, Eq, Structural)]
pub enum SkipReason {
    /// It is a draft.
    Draft,
    /// Neither created nor approved by a trusted login.
    NotTrusted,
    /// GitHub does not report it as clean and mergeable.
    NotReady,
}

/// Why a pull request is merged.
#[derive(Debug, Clone, Copy, PartialEq, Eq, Structural)]
pub enum MergeReason {
    CreatedByTrusted,
    ApprovedByTrusted,
}

/// What to do next with a pull request.
#[derive(Debug, Clone, Copy, PartialEq, Eq, Structural)]
pub enum PullRequestStep {
    /// Fetch its detail (merge state and author).
    FetchDetail,
    /// Fetch its reviews.
    FetchReviews,
    /// Update its branch with the base branch.
    UpdateBranch,
    /// Merge it.
    Merge(MergeReason),
    /// Leave it alone.
    Skip(SkipReason),
}

/// Whether the pull request's author is one of the trusted logins.
pub open spec fn created_by(detail: PullRequestDetail, trusted_logins: Seq<String>) -> bool {
    exists|k: int| 0 <= k < trusted_logins.len() && #[trigger] trusted_logins[k]@ == detail.user.login@
}

/// What is done with a pull request that is not a draft, given whether a trusted
/// login created it and whether (not having created it) one approved it.
pub open spec fn verdict(detail: PullRequestDetail, created: bool, approved: bool) -> PullRequestStep {
    if !created && !approved {
        PullRequestStep::Skip(SkipReason::NotTrusted)
    } else if detail.mergeable_state@ == "behind"@ {
        PullRequestStep::UpdateBranch
    } else if detail.mergeable == Some(true) && detail.mergeable_state@ == "clean"@ {
        PullRequestStep::Merge(
            if created {
                MergeReason::CreatedByTrusted
            } else {
                MergeReason::ApprovedByTrusted
            },
        )
    } else {
        PullRequestStep::Skip(SkipReason::NotReady)
    }
}

/// The step for a pull request as listed.
pub open spec fn listed_step(pr: PullRequest) -> PullRequestStep {
    if pr.draft {
        PullRequestStep::Skip(SkipReason::Draft)
    } else {
        PullRequestStep::FetchDetail
    }
}

/// The step once the pull request's detail is known: the reviews are needed only
/// when no trusted login created it.
pub open spec fn detail_step(detail: PullRequestDetail, trusted_logins: Seq<String>) -> PullRequestStep {
    if created_by(detail, trusted_logins) {
        verdict(detail, true, false)
    } else {
        PullRequestStep::FetchReviews
    }
}

/// The step once the pull request's reviews are known.
pub open spec fn reviews_step(
    detail: PullRequestDetail,
    reviews: Seq<Review>,
    trusted_logins: Seq<String>,
) -> PullRequestStep {
    let created = created_by(detail, trusted_logins);
    verdict(detail, created, !created && approved_by_any(reviews, trusted_logins))
}

/// What the watchdog does with a pull request, given everything GitHub reports
/// about it.
pub open spec fn pull_request_outcome(
    pr: PullRequest,
    detail: PullRequestDetail,
    reviews: Seq<Review>,
    trusted_logins: Seq<String>,
) -> PullRequestStep {
    if pr.draft {
        PullRequestStep::Skip(SkipReason::Draft)
    } else {
        let created = created_by(detail, trusted_logins);
        verdict(detail, created, !created && approved_by_any(reviews, trusted_logins))
    }
}

/// The logins trusted with merges: the authenticated user first, then every
/// login in `TRUSTED_USERS`, in order.
pub fn trusted_logins(me: &str, trusted_users: &TrustedUserList) -> (r: Vec<String>)
    ensures
        r@.map_values(|s: String| s@) == seq![me@] + trusted_users@,
{
    let mut out: Vec<String> = Vec::new();
    out.push(String::from_str(me));
    let mut i: usize = 0;
    proof {
        assert(out@.map_values(|s: String| s@) =~= seq![me@] + trusted_users@.take(0));
    }
    while i < trusted_users.0.len()
        invariant
            i <= trusted_users.0@.len(),
            out@.map_values(|s: String| s@) == seq![me@] + trusted_users@.take(i as int),
        decreases trusted_users.0@.len() - i,
    {
        let ghost prev = out@;
        out.push(trusted_users.0[i].clone());
        i = i + 1;
        proof {
            assert(out@.map_values(|s: String| s@) =~= prev.map_values(|s: String| s@).push(
                trusted_users.0@[i - 1]@,
            ));
            assert(trusted_users@.take(i as int) =~= trusted_users@.take(i - 1).push(
                trusted_users.0@[i - 1]@,
            ));
        }
    }
    proof {
        assert(trusted_users@.take(i as int) =~= trusted_users@);
    }
    out
}

/// The positions, in list order, of the listed pull requests whose first step is
/// to fetch their detail: every one that is not a draft.
pub open spec fn inspected_positions(prs: Seq<PullRequest>) -> Seq<int>
    decreases prs.len(),
{
    if prs.len() == 0 {
        Seq::empty()
    } else if listed_step(prs.last()) == PullRequestStep::FetchDetail {
        inspected_positions(prs.drop_last()).push(prs.len() - 1)
    } else {
        inspected_positions(prs.drop_last())
    }
}

/// The positions of the listed pull requests to look at, in list order; drafts
/// are left out.
pub fn pull_requests_to_inspect(prs: &[PullRequest]) -> (r: Vec<usize>)
    ensures
        r@.map_values(|i: usize| i as int) == inspected_positions(prs@),
{
    let mut out: Vec<usize> = Vec::new();
    let mut i: usize = 0;
    proof {
        assert(prs@.take(0) =~= Seq::<PullRequest>::empty());
        assert(out@.map_values(|k: usize| k as int) =~= Seq::<int>::empty());
    }
    while i < prs.len()
        invariant
            i <= prs@.len(),
            out@.map_values(|k: usize| k as int) == inspected_positions(prs@.take(i as int)),
        decreases prs@.len() - i,
    {
        let ghost prev = out@;
        proof {
            assert(prs@.take(i + 1).drop_last() =~= prs@.take(i as int));
            assert(prs@.take(i + 1).last() == prs@[i as int]);
        }
        if step_for_listed(&prs[i]) == PullRequestStep::FetchDetail {
            out.push(i);
            proof {
                assert(out@.map_values(|k: usize| k as int) =~= prev.map_values(|k: usize| k as int).push(
                    i as int,
                ));
            }
        }
        i = i + 1;
    }
    proof {
        assert(prs@.take(i as int) =~= prs@);
    }
    out
}

/// The pull requests looked at are exactly the ones that are not drafts, each
/// once, in list order.
pub proof fn law_inspected_are_the_non_drafts(prs: Seq<PullRequest>)
    ensures
        forall|k: int| 0 <= k < inspected_positions(prs).len() ==> {
            let j = #[trigger] inspected_positions(prs)[k];
            0 <= j < prs.len() && !prs[j].draft
        },
        forall|k1: int, k2: int|
            0 <= k1 < k2 < inspected_positions(prs).len() ==> #[trigger] inspected_positions(prs)[k1]
                < #[trigger] inspected_positions(prs)[k2],
        forall|j: int| 0 <= j < prs.len() && !(#[trigger] prs[j]).draft ==> inspected_positions(
            prs,
        ).contains(j),
    decreases prs.len(),
{
    if prs.len() > 0 {
        let q = prs.drop_last();
        law_inspected_are_the_non_drafts(q);
        let p = inspected_positions(q);
        let r = inspected_positions(prs);
        assert forall|k: int| 0 <= k < p.len() implies #[trigger] p[k] < q.len() && prs[p[k]] == q[p[k]] by {}
        assert forall|k: int| 0 <= k < r.len() implies {
            let j = #[trigger] r[k];
            0 <= j < prs.len() && !prs[j].draft
        } by {
            if k < p.len() {
                assert(r[k] == p[k]);
                assert(prs[p[k]] == q[p[k]]);
            }
        }
        assert forall|k1: int, k2: int|
            0 <= k1 < k2 < r.len() implies #[trigger] r[k1] < #[trigger] r[k2] by {
            if k2 < p.len() {
                assert(r[k1] == p[k1] && r[k2] == p[k2]);
            } else {
                assert(r[k1] == p[k1]);
                assert(p[k1] < q.len());
            }
        }
        assert forall|j: int| 0 <= j < prs.len() && !(#[trigger] prs[j]).draft implies r.contains(j) by {
            if j < q.len() {
                assert(q[j] == prs[j]);
                assert(p.contains(j));
                let k = choose|k: int| 0 <= k < p.len() && p[k] == j;
                assert(r[k] == p[k]);
            } else {
                assert(r[r.len() - 1] == j);
            }
        }
    }
}

/// Whether one of the trusted logins created the pull request.
pub fn created_by_trusted(detail: &PullRequestDetail, trusted_logins: &[String]) -> (r: bool)
    ensures
        r == created_by(*detail, trusted_logins@),
        forall|k: int|
            0 <= k < trusted_logins@.len() && #[trigger] trusted_logins@[k]@ == detail.user.login@ ==> r,
        r ==> exists|k: int|
            0 <= k < trusted_logins@.len() && #[trigger] trusted_logins@[k]@ == detail.user.login@,
{
    let mut i: usize = 0;
    while i < trusted_logins.len()
        invariant
            i <= trusted_logins@.len(),
            forall|k: int| 0 <= k < i ==> #[trigger] trusted_logins@[k]@ != detail.user.login@,
        decreases trusted_logins@.len() - i,
    {
        if same_text(trusted_logins[i].as_str(), detail.user.login.as_str()) {
            return true;
        }
        i = i + 1;
    }
    false
}

fn decide(detail: &PullRequestDetail, created: bool, approved: bool) -> (r: PullRequestStep)
    ensures
        r == verdict(*detail, created, approved),
{
    if !created && !approved {
        return PullRequestStep::Skip(SkipReason::NotTrusted);
    }
    let state = detail.mergeable_state.as_str();
    // A PR that is behind its base branch needs to be updated first.
    if same_text(state, "behind") {
        return PullRequestStep::UpdateBranch;
    }
    // Only attempt to merge when GitHub reports the branch as clean & mergeable.
    let mergeable = match detail.mergeable {
        Some(m) => m,
        None => false,
    };
    if mergeable && same_text(state, "clean") {
        if created {
            PullRequestStep::Merge(MergeReason::CreatedByTrusted)
        } else {
            PullRequestStep::Merge(MergeReason::ApprovedByTrusted)
        }
    } else {
        PullRequestStep::Skip(SkipReason::NotReady)
    }
}

/// The first step for a listed pull request: drafts are skipped.
pub fn step_for_listed(pr: &PullRequest) -> (r: PullRequestStep)
    ensures
        r == listed_step(*pr),
{
    if pr.draft {
        PullRequestStep::Skip(SkipReason::Draft)
    } else {
        PullRequestStep::FetchDetail
    }
}

/// The step once the detail is known.
pub fn step_for_detail(detail: &PullRequestDetail, trusted_logins: &[String]) -> (r: PullRequestStep)
    ensures
        r == detail_step(*detail, trusted_logins@),
        forall|k: int|
            0 <= k < trusted_logins@.len() && #[trigger] trusted_logins@[k]@ == detail.user.login@
                ==> r == verdict(*detail, true, false),
        (forall|k: int| 0 <= k < trusted_logins@.len() ==> #[trigger] trusted_logins@[k]@
            != detail.user.login@) ==> r == PullRequestStep::FetchReviews,
{
    if created_by_trusted(detail, trusted_logins) {
        decide(detail, true, false)
    } else {
        PullRequestStep::FetchReviews
    }
}

/// The step once the reviews are known.
pub fn step_for_reviews(
    detail: &PullRequestDetail,
    reviews: &[Review],
    trusted_logins: &[String],
) -> (r: PullRequestStep)
    ensures
        r == reviews_step(*detail, reviews@, trusted_logins@),
        forall|k: int|
            0 <= k < trusted_logins@.len() && (#[trigger] trusted_logins@[k]@ == detail.user.login@
                || approved_by(reviews@, trusted_logins@[k]@)) ==> r != PullRequestStep::Skip(
                SkipReason::NotTrusted,
            ),
{
    let created = created_by_trusted(detail, trusted_logins);
    let approved = !created && trusted_users_approved(reviews, trusted_logins);
    decide(detail, created, approved)
}


/// A pull request written by any one of the trusted logins, wherever that login
/// stands in the list, counts as created by a trusted login: its reviews are not
/// fetched, and when it is clean and mergeable it is merged for that reason.
pub proof fn law_any_trusted_author_counts(
    pr: PullRequest,
    detail: PullRequestDetail,
    reviews: Seq<Review>,
    trusted_logins: Seq<String>,
    k: int,
)
    requires
        0 <= k < trusted_logins.len(),
        trusted_logins[k]@ == detail.user.login@,
    ensures
        created_by(detail, trusted_logins),
        detail_step(detail, trusted_logins) != PullRequestStep::FetchReviews,
        detail.mergeable == Some(true) && detail.mergeable_state@ == "clean"@ ==> detail_step(
            detail,
            trusted_logins,
        ) == PullRequestStep::Merge(MergeReason::CreatedByTrusted),
        !pr.draft && detail.mergeable == Some(true) && detail.mergeable_state@ == "clean"@
            ==> pull_request_outcome(pr, detail, reviews, trusted_logins) == PullRequestStep::Merge(
            MergeReason::CreatedByTrusted,
        ),
{
    reveal_strlit("clean");
    reveal_strlit("behind");
    assert("clean"@ != "behind"@) by {
        assert("clean"@[0] != "behind"@[0]);
    }
}

/// A pull request approved by any one of the trusted logins, wherever that login
/// stands in the list, is trusted: it is never skipped as untrusted, and when it
/// is clean and mergeable it is merged.
pub proof fn law_any_trusted_approver_counts(
    pr: PullRequest,
    detail: PullRequestDetail,
    reviews: Seq<Review>,
    trusted_logins: Seq<String>,
    k: int,
)
    requires
        0 <= k < trusted_logins.len(),
        approved_by(reviews, trusted_logins[k]@),
    ensures
        approved_by_any(reviews, trusted_logins),
        reviews_step(detail, reviews, trusted_logins) != PullRequestStep::Skip(SkipReason::NotTrusted),
        !pr.draft && detail.mergeable == Some(true) && detail.mergeable_state@ == "clean"@
            ==> pull_request_outcome(pr, detail, reviews, trusted_logins) is Merge,
{
    reveal_strlit("clean");
    reveal_strlit("behind");
    assert("clean"@ != "behind"@) by {
        assert("clean"@[0] != "behind"@[0]);
    }
}

/// Trusting more logins, before or after the others, never withdraws the trust
/// that the author of a pull request had.
pub proof fn law_more_trusted_logins_keep_authors(
    detail: PullRequestDetail,
    trusted_logins: Seq<String>,
    more: Seq<String>,
)
    requires
        created_by(detail, trusted_logins),
    ensures
        created_by(detail, trusted_logins + more),
        created_by(detail, more + trusted_logins),
{
    let k = choose|k: int|
        0 <= k < trusted_logins.len() && #[trigger] trusted_logins[k]@ == detail.user.login@;
    assert((trusted_logins + more)[k] == trusted_logins[k]);
    assert((more + trusted_logins)[more.len() + k] == trusted_logins[k]);
}

/// Following the steps reaches the outcome: a draft is skipped at once; otherwise
/// the detail step either decides or asks for the reviews, and the reviews step
/// then decides.
pub proof fn law_steps_reach_outcome(
    pr: PullRequest,
    detail: PullRequestDetail,
    reviews: Seq<Review>,
    trusted_logins: Seq<String>,
)
    ensures
        pr.draft ==> listed_step(pr) == pull_request_outcome(pr, detail, reviews, trusted_logins),
        !pr.draft ==> listed_step(pr) == PullRequestStep::FetchDetail,
        !pr.draft && detail_step(detail, trusted_logins) != PullRequestStep::FetchReviews
            ==> detail_step(detail, trusted_logins) == pull_request_outcome(
            pr,
            detail,
            reviews,
            trusted_logins,
        ),
        !pr.draft && detail_step(detail, trusted_logins) == PullRequestStep::FetchReviews
            ==> reviews_step(detail, reviews, trusted_logins) == pull_request_outcome(
            pr,
            detail,
            reviews,
            trusted_logins,
        ),
{
}

/// A pull request is merged only when it is not a draft, a trusted login created
/// or approved it, and GitHub reports it mergeable and clean.
pub proof fn law_merge_requires_trust_and_readiness(
    pr: PullRequest,
    detail: PullRequestDetail,
    reviews: Seq<Review>,
    trusted_logins: Seq<String>,
)
    ensures
        pull_request_outcome(pr, detail, reviews, trusted_logins) is Merge ==> {
            &&& !pr.draft
            &&& created_by(detail, trusted_logins) || approved_by_any(reviews, trusted_logins)
            &&& detail.mergeable == Some(true)
            &&& detail.mergeable_state@ == "clean"@
        },
{
}

/// A trusted, non-draft pull request that is clean and mergeable is merged, for
/// the reason that made it trusted.
pub proof fn law_trusted_clean_pull_requests_are_merged(
    pr: PullRequest,
    detail: PullRequestDetail,
    reviews: Seq<Review>,
    trusted_logins: Seq<String>,
)
    requires
        !pr.draft,
        detail.mergeable == Some(true),
        detail.mergeable_state@ == "clean"@,
    ensures
        created_by(detail, trusted_logins) ==> pull_request_outcome(pr, detail, reviews, trusted_logins)
            == PullRequestStep::Merge(MergeReason::CreatedByTrusted),
        !created_by(detail, trusted_logins) && approved_by_any(reviews, trusted_logins)
            ==> pull_request_outcome(pr, detail, reviews, trusted_logins) == PullRequestStep::Merge(
            MergeReason::ApprovedByTrusted,
        ),
{
    reveal_strlit("clean");
    reveal_strlit("behind");
    assert("clean"@ != "behind"@) by {
        assert("clean"@[0] != "behind"@[0]);
    }
}

/// A branch is updated exactly when the pull request is not a draft, is trusted,
/// and is behind its base branch.
pub proof fn law_update_exactly_when_trusted_and_behind(
    pr: PullRequest,
    detail: PullRequestDetail,
    reviews: Seq<Review>,
    trusted_logins: Seq<String>,
)
    ensures
        pull_request_outcome(pr, detail, reviews, trusted_logins) == PullRequestStep::UpdateBranch
            <==> {
            &&& !pr.draft
            &&& created_by(detail, trusted_logins) || approved_by_any(reviews, trusted_logins)
            &&& detail.mergeable_state@ == "behind"@
        },
{
}

/// A pull request that no trusted login created or approved is never updated or
/// merged.
pub proof fn law_untrusted_left_alone(
    pr: PullRequest,
    detail: PullRequestDetail,
    reviews: Seq<Review>,
    trusted_logins: Seq<String>,
)
    requires
        !created_by(detail, trusted_logins),
        !approved_by_any(reviews, trusted_logins),
    ensures
        pull_request_outcome(pr, detail, reviews, trusted_logins) is Skip,
{
}

/// Draft pull requests are always skipped, whatever else holds of them.
pub proof fn law_drafts_skipped(
    pr: PullRequest,
    detail: PullRequestDetail,
    reviews: Seq<Review>,
    trusted_logins: Seq<String>,
)
    requires
        pr.draft,
    ensures
        pull_request_outcome(pr, detail, reviews, trusted_logins) == PullRequestStep::Skip(
            SkipReason::Draft,
        ),
{
}

/// When a trusted login created the pull request its reviews do not matter, which
/// is why they are not fetched.
pub proof fn law_reviews_irrelevant_for_trusted_authors(
    pr: PullRequest,
    detail: PullRequestDetail,
    reviews1: Seq<Review>,
    reviews2: Seq<Review>,
    trusted_logins: Seq<String>,
)
    requires
        created_by(detail, trusted_logins),
    ensures
        pull_request_outcome(pr, detail, reviews1, trusted_logins) == pull_request_outcome(
            pr,
            detail,
            reviews2,
            trusted_logins,
        ),
{
}

} // verus!
