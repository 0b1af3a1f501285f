use pr_watchdog::config::Repo;
use pr_watchdog::github::{
    authorization_value, backoff, header_text, failure_message, is_success, is_transient, merge_endpoint,
    normalize_base_url, open_pulls_endpoint, pull_endpoint, retry_delay, reviews_endpoint,
    should_retry_status, status_display, status_text_with_reason, trusted_users_approved,
    update_branch_endpoint, user_endpoint, MergeMethod, Pages, RequestFailure, ResponseMeta,
    RetryDecision, RetryPolicy, RetryState, Review, SendOutcome, User, MAX_RETRY_DELAY_NANOS,
    PER_PAGE,
};

const SEC: u128 = 1_000_000_000;

fn repo() -> Repo {
    Repo { owner: "octo".to_string(), name: "demo".to_string() }
}

fn meta(status: u16, remaining: Option<&str>, retry_after: Option<&str>) -> ResponseMeta {
    ResponseMeta {
        status,
        rate_limit_remaining: remaining.map(|s| s.as_bytes().to_vec()),
        retry_after: retry_after.map(|s| s.as_bytes().to_vec()),
    }
}

#[test]
fn merge_method_names_round_trip() {
    for m in [MergeMethod::Merge, MergeMethod::Squash, MergeMethod::Rebase] {
        let back = MergeMethod::from_name(m.as_str()).unwrap();
        assert_eq!(back.as_str(), m.as_str());
    }
    assert_eq!(MergeMethod::Squash.as_str(), "squash");
    assert!(matches!(MergeMethod::default(), MergeMethod::Merge));
    assert!(matches!(MergeMethod::from_lowercase_name("rebase"), Some(MergeMethod::Rebase)));
    assert!(MergeMethod::from_lowercase_name("Rebase").is_none());
}

#[test]
fn endpoints_are_built_from_the_base() {
    let base = normalize_base_url("http://127.0.0.1:8080//");
    assert_eq!(base, "http://127.0.0.1:8080");
    assert_eq!(normalize_base_url(&base), base);
    assert_eq!(user_endpoint(&base), "http://127.0.0.1:8080/user");
    assert_eq!(
        open_pulls_endpoint(&base, &repo(), 2),
        "http://127.0.0.1:8080/repos/octo/demo/pulls?state=open&per_page=100&page=2"
    );
    assert_eq!(pull_endpoint(&base, &repo(), 7), "http://127.0.0.1:8080/repos/octo/demo/pulls/7");
    assert_eq!(
        reviews_endpoint(&base, &repo(), 7, 1),
        "http://127.0.0.1:8080/repos/octo/demo/pulls/7/reviews?per_page=100&page=1"
    );
    assert_eq!(
        merge_endpoint(&base, &repo(), 1234567890123),
        "http://127.0.0.1:8080/repos/octo/demo/pulls/1234567890123/merge"
    );
    assert_eq!(
        update_branch_endpoint(&base, &repo(), 0),
        "http://127.0.0.1:8080/repos/octo/demo/pulls/0/update-branch"
    );
    assert_eq!(authorization_value("test-token").unwrap(), "Bearer test-token");
    assert_eq!(authorization_value("tab\tand é ok").unwrap(), "Bearer tab\tand é ok");
    assert_eq!(authorization_value("line\nbreak").unwrap_err(), "invalid GITHUB_TOKEN value");
    assert_eq!(authorization_value("del\u{7f}").unwrap_err(), "invalid GITHUB_TOKEN value");
    assert_eq!(authorization_value("").unwrap(), "Bearer ");
}

#[test]
fn status_classification_and_messages() {
    assert!(is_success(200) && is_success(202) && is_success(299));
    assert!(!is_success(199) && !is_success(300) && !is_success(404));
    assert_eq!(status_display(404), "404 Not Found");
    assert_eq!(status_display(500), "500 Internal Server Error");
    assert_eq!(status_display(599), "599 <unknown status code>");
    assert_eq!(status_text_with_reason(418, Some("I'm a teapot")), "418 I'm a teapot");
    assert_eq!(
        failure_message(404, "http://x/repos/octo/demo/pulls/7", "missing"),
        "GitHub API request to http://x/repos/octo/demo/pulls/7 failed with 404 Not Found: resource not found (check repository name/permissions)"
    );
    assert_eq!(
        failure_message(401, "u", "b"),
        "GitHub API request to u failed with 401 Unauthorized: authentication failed (check GITHUB_TOKEN)"
    );
    assert_eq!(
        failure_message(403, "u", "slow down"),
        "GitHub API request to u failed with 403 Forbidden: forbidden (rate limit or insufficient scope): slow down"
    );
    let err = failure_message(500, "u", "boom");
    assert!(err.contains("500"));
    assert!(err.ends_with(": boom"));
}

#[test]
fn retryable_responses_and_failures() {
    assert!(should_retry_status(&meta(429, None, None)));
    assert!(should_retry_status(&meta(500, None, None)));
    assert!(should_retry_status(&meta(503, None, None)));
    assert!(should_retry_status(&meta(599, None, None)));
    assert!(should_retry_status(&meta(403, Some(" 0 "), None)));
    assert!(!should_retry_status(&meta(403, Some("12"), None)));
    assert!(!should_retry_status(&meta(403, None, None)));
    assert!(!should_retry_status(&meta(404, Some("0"), None)));
    assert!(!should_retry_status(&meta(200, None, None)));
    // Header values that are not visible ASCII are not read as text.
    let raw = ResponseMeta { status: 403, rate_limit_remaining: Some(vec![b'0', 0xff]), retry_after: None };
    assert!(!should_retry_status(&raw));
    assert!(should_retry_status(&ResponseMeta { status: 403, rate_limit_remaining: Some(b"\t0".to_vec()), retry_after: None }));
    let none = RequestFailure { timeout: false, connect: false, request: false };
    assert!(!is_transient(&none));
    assert!(is_transient(&RequestFailure { timeout: true, ..none }));
    assert!(is_transient(&RequestFailure { connect: true, ..none }));
    assert!(is_transient(&RequestFailure { request: true, ..none }));
}

#[test]
fn backoff_doubles_then_caps() {
    assert_eq!(backoff(0, SEC), SEC);
    assert_eq!(backoff(1, SEC), 2 * SEC);
    assert_eq!(backoff(5, SEC), 32 * SEC);
    assert_eq!(backoff(6, SEC), MAX_RETRY_DELAY_NANOS);
    assert_eq!(backoff(31, 1), 1u128 << 31);
    assert_eq!(backoff(32, 1), u32::MAX as u128);
    assert_eq!(backoff(u32::MAX, 1), u32::MAX as u128);
    assert_eq!(backoff(3, 1_000_000), 8_000_000);
    let max_duration = std::time::Duration::MAX.as_nanos();
    assert_eq!(backoff(u32::MAX, max_duration), MAX_RETRY_DELAY_NANOS);
    let mut last = 0;
    for attempt in 0..40 {
        let d = backoff(attempt, 3 * SEC / 7);
        assert!(d >= last && d <= MAX_RETRY_DELAY_NANOS);
        last = d;
    }
}

#[test]
fn retry_delay_honours_retry_after() {
    assert_eq!(retry_delay(&meta(429, None, Some("5")), 0, SEC), 5 * SEC);
    assert_eq!(retry_delay(&meta(429, None, Some(" +7 ")), 3, SEC), 7 * SEC);
    assert_eq!(retry_delay(&meta(429, None, Some("120")), 0, SEC), 60 * SEC);
    assert_eq!(retry_delay(&meta(429, None, Some("18446744073709551615")), 0, SEC), 60 * SEC);
    assert_eq!(retry_delay(&meta(429, None, Some("18446744073709551616")), 2, SEC), 4 * SEC);
    assert_eq!(retry_delay(&meta(429, None, Some("soon")), 2, SEC), 4 * SEC);
    assert_eq!(retry_delay(&meta(503, None, None), 1, SEC), 2 * SEC);
    assert_eq!(retry_delay(&meta(503, None, Some("")), 0, SEC), SEC);
    let raw = ResponseMeta { status: 429, rate_limit_remaining: None, retry_after: Some(vec![b'5', 0x80]) };
    assert_eq!(retry_delay(&raw, 1, SEC), 2 * SEC);
    assert_eq!(header_text(b"12 s"), Some(vec!['1', '2', ' ', 's']));
    assert_eq!(header_text(&[b'a', 0x7f]), None);
}

#[test]
fn retry_state_stops_after_max_retries() {
    let policy = RetryPolicy { max_retries: 3, base_delay_nanos: 1_000_000 };
    let busy = SendOutcome::Response(meta(503, None, None));
    let mut state = RetryState::new();
    let mut delays = Vec::new();
    loop {
        match state.on_outcome(&policy, &busy) {
            RetryDecision::RetryAfter(d) => delays.push(d),
            RetryDecision::Finish => break,
        }
    }
    assert_eq!(delays, vec![1_000_000, 2_000_000, 4_000_000]);
    assert_eq!(state.retries_made(), 3);
}

#[test]
fn retry_state_finishes_on_success_and_permanent_errors() {
    let policy = RetryPolicy::standard();
    assert_eq!(policy.max_retries, 3);
    assert_eq!(policy.base_delay_nanos, SEC);
    let mut state = RetryState::new();
    assert!(matches!(
        state.on_outcome(&policy, &SendOutcome::Response(meta(200, None, None))),
        RetryDecision::Finish
    ));
    assert!(matches!(
        state.on_outcome(&policy, &SendOutcome::Response(meta(404, None, None))),
        RetryDecision::Finish
    ));
    let refused = RequestFailure { timeout: false, connect: false, request: false };
    assert!(matches!(state.on_outcome(&policy, &SendOutcome::Failure(refused)), RetryDecision::Finish));
    let timeout = RequestFailure { timeout: true, connect: false, request: false };
    assert!(matches!(
        state.on_outcome(&policy, &SendOutcome::Failure(timeout)),
        RetryDecision::RetryAfter(d) if d == SEC
    ));
    assert!(matches!(
        state.on_outcome(&policy, &SendOutcome::Response(meta(403, Some("0"), Some("9")))),
        RetryDecision::RetryAfter(d) if d == 9 * SEC
    ));
    assert_eq!(state.retries_made(), 2);
    let none = RetryPolicy { max_retries: 0, base_delay_nanos: SEC };
    let mut fresh = RetryState::new();
    assert!(matches!(fresh.on_outcome(&none, &SendOutcome::Failure(timeout)), RetryDecision::Finish));
}

#[test]
fn pages_stop_at_the_first_short_page() {
    let mut pages: Pages<u32> = Pages::new();
    assert_eq!(pages.next_page(), 1);
    pages.absorb((0..PER_PAGE as u32).collect());
    assert!(!pages.is_finished());
    assert_eq!(pages.next_page(), 2);
    pages.absorb(vec![100]);
    assert!(pages.is_finished());
    assert_eq!(pages.next_page(), 2);
    let items = pages.into_items();
    assert_eq!(items.len(), 101);
    assert_eq!(items[100], 100);
    let mut empty: Pages<u32> = Pages::new();
    empty.absorb(Vec::new());
    assert!(empty.is_finished());
    assert!(empty.into_items().is_empty());
}

#[test]
fn any_trusted_login_may_approve() {
    let reviews = vec![
        Review { user: Some(User { login: "carol".to_string() }), state: "APPROVED".to_string() },
        Review { user: Some(User { login: "dave".to_string() }), state: "APPROVED".to_string() },
        Review { user: Some(User { login: "dave".to_string() }), state: "DISMISSED".to_string() },
    ];
    let trusted = vec!["me".to_string(), "carol".to_string()];
    assert!(trusted_users_approved(&reviews, &trusted));
    assert!(!trusted_users_approved(&reviews, &["me".to_string(), "dave".to_string()]));
    assert!(!trusted_users_approved(&reviews, &[]));
}
