use pr_watchdog::github::{PullRequest, PullRequestDetail, Review, User};
use pr_watchdog::config::TrustedUserList;
use pr_watchdog::watcher::{
    created_by_trusted, pull_requests_to_inspect, trusted_logins, step_for_detail, step_for_listed, step_for_reviews, MergeReason,
    PullRequestStep, SkipReason,
};

fn pr(draft: bool) -> PullRequest {
    PullRequest { number: 1, title: "a pr".to_string(), draft }
}

fn detail(mergeable: Option<bool>, state: &str, author: &str) -> PullRequestDetail {
    PullRequestDetail {
        draft: false,
        mergeable,
        mergeable_state: state.to_string(),
        user: User { login: author.to_string() },
    }
}

fn approval(login: &str) -> Review {
    Review { user: Some(User { login: login.to_string() }), state: "APPROVED".to_string() }
}

fn me() -> Vec<String> {
    vec!["me".to_string()]
}

#[test]
fn drafts_are_skipped_before_any_detail() {
    assert_eq!(step_for_listed(&pr(true)), PullRequestStep::Skip(SkipReason::Draft));
    assert_eq!(step_for_listed(&pr(false)), PullRequestStep::FetchDetail);
}

#[test]
fn pr_created_by_me_and_clean_is_merged_without_reviews() {
    let d = detail(Some(true), "clean", "me");
    assert!(created_by_trusted(&d, &me()));
    assert_eq!(step_for_detail(&d, &me()), PullRequestStep::Merge(MergeReason::CreatedByTrusted));
}

#[test]
fn pr_approved_by_me_and_clean_is_merged() {
    let d = detail(Some(true), "clean", "someone-else");
    assert_eq!(step_for_detail(&d, &me()), PullRequestStep::FetchReviews);
    assert_eq!(
        step_for_reviews(&d, &[approval("me")], &me()),
        PullRequestStep::Merge(MergeReason::ApprovedByTrusted)
    );
}

#[test]
fn behind_branch_is_updated() {
    let d = detail(None, "behind", "me");
    assert_eq!(step_for_detail(&d, &me()), PullRequestStep::UpdateBranch);
    let approved = detail(Some(false), "behind", "other");
    assert_eq!(step_for_reviews(&approved, &[approval("me")], &me()), PullRequestStep::UpdateBranch);
}

#[test]
fn untrusted_pr_is_skipped() {
    let d = detail(Some(true), "clean", "someone-else");
    assert_eq!(step_for_reviews(&d, &[], &me()), PullRequestStep::Skip(SkipReason::NotTrusted));
    let behind = detail(None, "behind", "someone-else");
    assert_eq!(
        step_for_reviews(&behind, &[approval("stranger")], &me()),
        PullRequestStep::Skip(SkipReason::NotTrusted)
    );
}

#[test]
fn not_ready_pr_is_skipped() {
    for (m, s) in [(Some(false), "dirty"), (None, "clean"), (Some(true), "blocked"), (Some(true), "unknown"), (Some(false), "clean")] {
        let d = detail(m, s, "me");
        assert_eq!(step_for_detail(&d, &me()), PullRequestStep::Skip(SkipReason::NotReady));
    }
}

#[test]
fn trusted_users_count_as_authors_and_approvers() {
    let trusted = vec!["me".to_string(), "trusted-colleague".to_string()];
    let d = detail(Some(true), "clean", "trusted-colleague");
    assert_eq!(step_for_detail(&d, &trusted), PullRequestStep::Merge(MergeReason::CreatedByTrusted));
    let d2 = detail(Some(true), "clean", "x");
    assert_eq!(
        step_for_reviews(&d2, &[approval("trusted-colleague")], &trusted),
        PullRequestStep::Merge(MergeReason::ApprovedByTrusted)
    );
    // Author matching is exact.
    let d3 = detail(Some(true), "clean", "Me");
    assert!(!created_by_trusted(&d3, &trusted));
}

#[test]
fn reviews_do_not_matter_for_trusted_authors() {
    let d = detail(Some(true), "clean", "me");
    let veto = Review { user: Some(User { login: "me".to_string() }), state: "CHANGES_REQUESTED".to_string() };
    assert_eq!(step_for_reviews(&d, &[veto], &me()), step_for_detail(&d, &me()));
}

#[test]
fn trusted_logins_are_me_then_trusted_users() {
    let extra = TrustedUserList(vec!["alice".to_string(), "bob".to_string()]);
    assert_eq!(trusted_logins("me", &extra), vec!["me", "alice", "bob"]);
    assert_eq!(trusted_logins("me", &TrustedUserList::default()), vec!["me"]);
}

#[test]
fn only_non_drafts_are_inspected_in_order() {
    let prs = vec![pr(false), pr(true), pr(false), pr(true), pr(true), pr(false)];
    assert_eq!(pull_requests_to_inspect(&prs), vec![0, 2, 5]);
    assert!(pull_requests_to_inspect(&[pr(true)]).is_empty());
    assert!(pull_requests_to_inspect(&[]).is_empty());
}
