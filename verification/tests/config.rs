use chrono_tz::Tz;
use pr_watchdog::config::{
    parse_merge_method, parse_repos, parse_trusted_users, parse_tz, Config, RepoList, Repo,
    TrustedUserList,
};
use pr_watchdog::github::MergeMethod;

fn names(list: &RepoList) -> Vec<String> {
    list.0.iter().map(|r| r.to_string()).collect()
}

#[test]
fn parse_repos_single() {
    let list = parse_repos("owner/repo").unwrap();
    assert_eq!(names(&list), vec!["owner/repo"]);
}

#[test]
fn parse_repos_mixed_separators() {
    let list = parse_repos("a/b, c/d\ne/f\tg/h i/j").unwrap();
    assert_eq!(names(&list), vec!["a/b", "c/d", "e/f", "g/h", "i/j"]);
}

#[test]
fn parse_repos_trims_whitespace_around_parts() {
    let list = parse_repos("  owner/repo  ").unwrap();
    assert_eq!(names(&list), vec!["owner/repo"]);
}

#[test]
fn parse_repos_skips_empty_entries() {
    let list = parse_repos(",,a/b,, ,c/d,").unwrap();
    assert_eq!(names(&list), vec!["a/b", "c/d"]);
}

#[test]
fn parse_repos_rejects_missing_slash() {
    assert!(parse_repos("ownerrepo").is_err());
}

#[test]
fn parse_repos_rejects_empty_owner_or_name() {
    assert!(parse_repos("/repo").is_err());
    assert!(parse_repos("owner/").is_err());
}

#[test]
fn parse_repos_rejects_empty_input() {
    assert!(parse_repos("   ").is_err());
    assert!(parse_repos("").is_err());
}

#[test]
fn parse_merge_method_accepts_known_values() {
    assert!(matches!(
        parse_merge_method("merge").unwrap(),
        MergeMethod::Merge
    ));
    assert!(matches!(
        parse_merge_method("SQUASH").unwrap(),
        MergeMethod::Squash
    ));
    assert!(matches!(
        parse_merge_method("  Rebase ").unwrap(),
        MergeMethod::Rebase
    ));
}

#[test]
fn parse_merge_method_rejects_unknown() {
    assert!(parse_merge_method("fast-forward").is_err());
}

#[test]
fn parse_tz_accepts_iana_names() {
    assert!(matches!(parse_tz("UTC").unwrap(), Tz::UTC));
    assert!(matches!(parse_tz("Europe/Rome").unwrap(), Tz::Europe__Rome));
    assert!(matches!(
        parse_tz("America/New_York").unwrap(),
        Tz::America__New_York
    ));
}

#[test]
fn parse_tz_accepts_iana_names_with_surrounding_whitespace() {
    assert!(matches!(
        parse_tz("  Europe/Rome  ").unwrap(),
        Tz::Europe__Rome
    ));
}

#[test]
fn parse_tz_rejects_empty() {
    assert!(parse_tz("").is_err());
    assert!(parse_tz("   ").is_err());
}

#[test]
fn parse_tz_rejects_unknown() {
    assert!(parse_tz("Atlantis").is_err());
    assert!(parse_tz("Europe/Atlantis").is_err());
}

#[test]
fn parse_trusted_users_empty_is_ok() {
    let list = parse_trusted_users("").unwrap();
    assert!(list.0.is_empty());
}

#[test]
fn parse_trusted_users_whitespace_only_is_ok() {
    let list = parse_trusted_users("   ").unwrap();
    assert!(list.0.is_empty());
}

#[test]
fn parse_trusted_users_single() {
    let list = parse_trusted_users("alice").unwrap();
    assert_eq!(list.0, vec!["alice".to_string()]);
}

#[test]
fn parse_trusted_users_mixed_separators() {
    let list = parse_trusted_users("alice, bob\ncarol\tdave eve").unwrap();
    assert_eq!(
        list.0,
        vec![
            "alice".to_string(),
            "bob".to_string(),
            "carol".to_string(),
            "dave".to_string(),
            "eve".to_string()
        ]
    );
}

#[test]
fn parse_trusted_users_trims_whitespace_around_entries() {
    let list = parse_trusted_users("  alice  ,  bob  ").unwrap();
    assert_eq!(list.0, vec!["alice".to_string(), "bob".to_string()]);
}

#[test]
fn parse_trusted_users_skips_empty_entries() {
    let list = parse_trusted_users(",,alice,, ,bob,").unwrap();
    assert_eq!(list.0, vec!["alice".to_string(), "bob".to_string()]);
}

#[test]
fn parse_trusted_users_dedupes_preserving_first_case() {
    let list = parse_trusted_users("alice, Alice, ALICE, bob").unwrap();
    assert_eq!(list.0, vec!["alice".to_string(), "bob".to_string()]);
}

// Further cases.

#[test]
fn parse_repos_error_messages() {
    assert_eq!(
        parse_repos("a/b, ownerrepo, /x").unwrap_err(),
        "invalid repository 'ownerrepo', expected 'owner/repo'"
    );
    assert_eq!(
        parse_repos("a/b /x").unwrap_err(),
        "invalid repository '/x', expected 'owner/repo'"
    );
    assert_eq!(
        parse_repos(" , \n").unwrap_err(),
        "no valid repositories provided"
    );
}

#[test]
fn parse_repos_splits_at_first_slash_only() {
    let list = parse_repos("a/b/c").unwrap();
    assert_eq!(list.0[0].owner, "a");
    assert_eq!(list.0[0].name, "b/c");
}

#[test]
fn parse_repos_trims_unicode_whitespace_and_carriage_returns() {
    let list = parse_repos("a/b\r\n\u{00a0}c/d\u{3000}").unwrap();
    assert_eq!(names(&list), vec!["a/b", "c/d"]);
}

#[test]
fn parse_repos_keeps_duplicates_in_order() {
    let list = parse_repos("x/y,a/b,x/y").unwrap();
    assert_eq!(names(&list), vec!["x/y", "a/b", "x/y"]);
    assert_eq!(list.len(), 3);
}

#[test]
fn parse_merge_method_error_message() {
    assert_eq!(
        parse_merge_method("fast-forward").unwrap_err(),
        "invalid merge method 'fast-forward', expected 'merge', 'squash', or 'rebase'"
    );
    assert!(parse_merge_method("").is_err());
    assert!(parse_merge_method("merge squash").is_err());
}

#[test]
fn parse_merge_method_from_str_matches() {
    let m: MergeMethod = "\tsquash\n".parse().unwrap();
    assert!(matches!(m, MergeMethod::Squash));
}

#[test]
fn parse_tz_error_messages() {
    assert_eq!(parse_tz("  ").unwrap_err(), "TZ must not be empty");
    assert_eq!(
        parse_tz("Atlantis").unwrap_err(),
        "invalid TZ 'Atlantis', expected an IANA name like 'UTC' or 'Europe/Rome'"
    );
    // The lookup is case-sensitive.
    assert!(parse_tz("utc").is_err());
}

#[test]
fn parse_trusted_users_dedupe_only_folds_ascii_case() {
    let list = parse_trusted_users("Bob,bob,BOB,ÉVE,éve").unwrap();
    assert_eq!(list.0, vec!["Bob".to_string(), "ÉVE".to_string(), "éve".to_string()]);
    assert_eq!(list.len(), 3);
}

fn config(token: &str, repos: Vec<Repo>) -> Config {
    Config {
        github_token: token.to_string(),
        repos: RepoList(repos),
        cron: "0 */5 8-18 * * Mon-Fri *".to_string(),
        merge_method: MergeMethod::default(),
        tz: Tz::UTC,
        trusted_users: TrustedUserList::default(),
    }
}

#[test]
fn config_validation() {
    let repo = Repo { owner: "o".to_string(), name: "r".to_string() };
    assert!(config("tok", vec![repo.clone()]).validated().is_ok());
    assert_eq!(
        config(" \t", vec![repo]).validated().err().unwrap(),
        "GITHUB_TOKEN must not be empty"
    );
    assert_eq!(
        config("tok", vec![]).validated().err().unwrap(),
        "WATCHED_REPOS did not contain any valid repositories"
    );
    assert_eq!(
        config("", vec![]).validated().err().unwrap(),
        "GITHUB_TOKEN must not be empty"
    );
}

#[test]
fn repo_list_round_trips_through_its_text() {
    let list = parse_repos(" a/b ,c/d/e\n\u{3000}x/y\u{3000}").unwrap();
    let text = names(&list).join(",");
    let again = parse_repos(&text).unwrap();
    assert_eq!(names(&again), names(&list));
    assert_eq!(again.0[1].name, "d/e");
}

#[test]
fn trusted_users_round_trip_through_their_text() {
    let list = parse_trusted_users("alice, Alice\tbob ,BOB carol").unwrap();
    let again = parse_trusted_users(&list.0.join(",")).unwrap();
    assert_eq!(again.0, list.0);
    assert_eq!(list.0, vec!["alice", "bob", "carol"]);
}
