//! The GitHub side of the watchdog: merge methods, the pull-request and review
//! records the API returns, review evaluation, endpoint construction, response
//! classification and the retry and pagination policies that drive requests.

use vstd::prelude::*;
use vstd::utf8::is_ascii_chars;
use vstd::arithmetic::power2::{lemma2_to64, lemma_pow2_strictly_increases, lemma_pow2_unfold, pow2};
use crate::config::Repo;
use crate::text::{
    ascii_lowercase, chars_between, decimal, decimal_text, parse_u64_chars, parsed_u64, trim_bounds, same_text, to_lowercase, trim,
    trim_end_matches, trimmed, unicode_lowercase, without_trailing, ascii_case_variant, ascii_lower_char,
};

verus! {

/// Merge method used when merging a pull request.
#[derive(Debug, Clone, Copy)]
pub enum MergeMethod {
    Merge,
    Squash,
    Rebase,
}

impl MergeMethod {
    /// The name GitHub's merge endpoint expects for this method.
    pub open spec fn name(self) -> Seq<char> {
        match self {
            MergeMethod::Merge => "merge"@,
            MergeMethod::Squash => "squash"@,
            MergeMethod::Rebase => "rebase"@,
        }
    }

    /// The name of a merge method, as GitHub's merge endpoint expects it.
    pub fn as_str(&self) -> (r: &'static str)
        ensures
            r@ == self.name(),
    {
        match self {
            MergeMethod::Merge => "merge",
            MergeMethod::Squash => "squash",
            MergeMethod::Rebase => "rebase",
        }
    }

    /// The method whose name is exactly `key`, if any.
    pub open spec fn with_name(key: Seq<char>) -> Option<MergeMethod> {
        if key == "merge"@ {
            Some(MergeMethod::Merge)
        } else if key == "squash"@ {
            Some(MergeMethod::Squash)
        } else if key == "rebase"@ {
            Some(MergeMethod::Rebase)
        } else {
            None
        }
    }

    /// The message of a refused merge method name.
    pub open spec fn invalid_message(raw: Seq<char>) -> Seq<char> {
        "invalid merge method '"@ + raw + "', expected 'merge', 'squash', or 'rebase'"@
    }

    /// The text a method name is compared in: the trimmed text lower-cased as
    /// `str::to_lowercase` does, which for ASCII text is the ASCII lower-case mapping.
    pub open spec fn key_of(raw: Seq<char>) -> Seq<char> {
        if is_ascii_chars(trimmed(raw)) {
            ascii_lowercase(trimmed(raw))
        } else {
            unicode_lowercase(trimmed(raw))
        }
    }

    /// What parsing `raw` gives: its key must be one of the three names.
    pub open spec fn parsed(raw: Seq<char>) -> Result<MergeMethod, Seq<char>> {
        match MergeMethod::with_name(MergeMethod::key_of(raw)) {
            Some(m) => Ok(m),
            None => Err(MergeMethod::invalid_message(raw)),
        }
    }

    /// Looks up a method by its exact, already lower-cased name.
    pub fn from_lowercase_name(key: &str) -> (r: Option<MergeMethod>)
        ensures
            r == MergeMethod::with_name(key@),
    {
        if same_text(key, "merge") {
            Some(MergeMethod::Merge)
        } else if same_text(key, "squash") {
            Some(MergeMethod::Squash)
        } else if same_text(key, "rebase") {
            Some(MergeMethod::Rebase)
        } else {
            None
        }
    }

    /// Parses a merge method name: surrounding whitespace is ignored and case
    /// does not matter.
    pub fn from_name(raw: &str) -> (r: Result<MergeMethod, String>)
        ensures
            match r {
                Ok(m) => MergeMethod::parsed(raw@) == Ok::<MergeMethod, Seq<char>>(m),
                Err(e) => MergeMethod::parsed(raw@) == Err::<MergeMethod, Seq<char>>(e@),
            },
    {
        let key = to_lowercase(trim(raw));
        match MergeMethod::from_lowercase_name(key.as_str()) {
            Some(m) => Ok(m),
            None => {
                let msg = String::from_str("invalid merge method '").concat(raw).concat(
                    "', expected 'merge', 'squash', or 'rebase'",
                );
                Err(msg)
            },
        }
    }
}

impl Default for MergeMethod {
    fn default() -> (r: MergeMethod)
        ensures
            r == MergeMethod::Merge,
    {
        MergeMethod::Merge
    }
}

impl std::str::FromStr for MergeMethod {
    type Err = String;

    fn from_str(s: &str) -> (r: Result<MergeMethod, String>)
        ensures
            match r {
                Ok(m) => MergeMethod::parsed(s@) == Ok::<MergeMethod, Seq<char>>(m),
                Err(e) => MergeMethod::parsed(s@) == Err::<MergeMethod, Seq<char>>(e@),
            },
    {
        MergeMethod::from_name(s)
    }
}


/// The author of a pull request or review.
#[derive(Debug, Clone)]
pub struct User {
    pub login: String,
}

/// A pull request review.
#[derive(Debug, Clone)]
pub struct Review {
    pub user: Option<User>,
    /// "APPROVED", "CHANGES_REQUESTED", "COMMENTED", "DISMISSED", "PENDING".
    pub state: String,
}

/// Minimal representation of a pull request from the list endpoint.
#[derive(Debug, Clone)]
pub struct PullRequest {
    pub number: u64,
    pub title: String,
    pub draft: bool,
}

/// Detailed pull request info including merge state.
#[derive(Debug, Clone)]
pub struct PullRequestDetail {
    pub draft: bool,
    /// Whether GitHub considers the PR mergeable. `None` while still computing.
    pub mergeable: Option<bool>,
    /// e.g. "clean", "behind", "blocked", "dirty", "unstable", "unknown".
    pub mergeable_state: String,
    pub user: User,
}

/// Whether the review was written by `login`.
pub open spec fn written_by(review: Review, login: Seq<char>) -> bool {
    review.user matches Some(u) && u.login@ == login
}

/// Whether `login` approves after the given reviews, read oldest first: the
/// latest of that login's `APPROVED`, `CHANGES_REQUESTED` and `DISMISSED`
/// reviews decides, other states and other logins' reviews change nothing, and
/// without such a review there is no approval.
pub open spec fn approved_by(reviews: Seq<Review>, login: Seq<char>) -> bool
    decreases reviews.len(),
{
    if reviews.len() == 0 {
        false
    } else {
        let r = reviews.last();
        if written_by(r, login) && r.state@ == "APPROVED"@ {
            true
        } else if written_by(r, login) && (r.state@ == "CHANGES_REQUESTED"@ || r.state@
            == "DISMISSED"@) {
            false
        } else {
            approved_by(reviews.drop_last(), login)
        }
    }
}

/// Determine whether the given login approved the pull request.
pub fn user_approved(reviews: &[Review], login: &str) -> (r: bool)
    ensures
        r == approved_by(reviews@, login@),
{
    // The latest review state per user wins; iterate in order and track.
    let mut approved = false;
    let mut i: usize = 0;
    proof {
        assert(reviews@.take(0) =~= Seq::<Review>::empty());
    }
    while i < reviews.len()
        invariant
            i <= reviews@.len(),
            approved == approved_by(reviews@.take(i as int), login@),
        decreases reviews@.len() - i,
    {
        let review = &reviews[i];
        proof {
            assert(reviews@.take(i + 1).drop_last() =~= reviews@.take(i as int));
            assert(reviews@.take(i + 1).last() == reviews@[i as int]);
        }
        let mine = match &review.user {
            Some(u) => same_text(u.login.as_str(), login),
            None => false,
        };
        if mine {
            if same_text(review.state.as_str(), "APPROVED") {
                approved = true;
            } else if same_text(review.state.as_str(), "CHANGES_REQUESTED") || same_text(
                review.state.as_str(),
                "DISMISSED",
            ) {
                approved = false;
            }
        }
        i = i + 1;
    }
    proof {
        assert(reviews@.take(i as int) =~= reviews@);
    }
    approved
}

/// Whether any of the trusted logins approves after the given reviews.
pub open spec fn approved_by_any(reviews: Seq<Review>, logins: Seq<String>) -> bool {
    exists|k: int| 0 <= k < logins.len() && approved_by(reviews, #[trigger] logins[k]@)
}

/// Determine whether any trusted login approved the pull request.
pub fn trusted_users_approved(reviews: &[Review], trusted_logins: &[String]) -> (r: bool)
    ensures
        r == approved_by_any(reviews@, trusted_logins@),
        forall|k: int|
            0 <= k < trusted_logins@.len() && approved_by(reviews@, #[trigger] trusted_logins@[k]@) ==> r,
        r ==> exists|k: int|
            0 <= k < trusted_logins@.len() && approved_by(reviews@, #[trigger] trusted_logins@[k]@),
{
    let mut i: usize = 0;
    while i < trusted_logins.len()
        invariant
            i <= trusted_logins@.len(),
            forall|k: int| 0 <= k < i ==> !approved_by(reviews@, #[trigger] trusted_logins@[k]@),
        decreases trusted_logins@.len() - i,
    {
        if user_approved(reviews, trusted_logins[i].as_str()) {
            return true;
        }
        i = i + 1;
    }
    false
}


/// The number of items requested per page of a listing.
pub const PER_PAGE: usize = 100;

/// The API base with any trailing `/` removed.
pub fn normalize_base_url(base_url: &str) -> (r: String)
    ensures
        r@ == without_trailing(base_url@, '/'),
{
    String::from_str(trim_end_matches(base_url, '/'))
}

/// A character that an HTTP header value may hold: a tab, or anything from the
/// space upward except DEL. (Every byte of a non-ASCII character's UTF-8 encoding
/// is 0x80 or above, so the byte rule reads the same per character.)
pub open spec fn header_char_ok(c: char) -> bool {
    c == '\t' || (c as u32 >= 0x20 && c as u32 != 0x7f)
}

/// Calls `HeaderValue::from_str` (the `http` crate's, re-exported by reqwest) and
/// reports whether it accepts the text: it refuses exactly the text holding a
/// byte below 0x20 other than tab, or DEL.
#[verifier::external_body]
fn header_value_accepted(value: &str) -> (r: bool)
    ensures
        r == (forall|i: int| 0 <= i < value@.len() ==> header_char_ok(#[trigger] value@[i])),
{
    reqwest::header::HeaderValue::from_str(value).is_ok()
}

/// The value of the `Authorization` header for a token, `Bearer {token}`, or the
/// error that refuses a token a header cannot carry.
pub fn authorization_value(token: &str) -> (r: Result<String, String>)
    ensures
        match r {
            Ok(v) => v@ == "Bearer "@ + token@ && forall|i: int|
                0 <= i < token@.len() ==> header_char_ok(#[trigger] token@[i]),
            Err(e) => e@ == "invalid GITHUB_TOKEN value"@ && exists|i: int|
                0 <= i < token@.len() && !header_char_ok(#[trigger] token@[i]),
        },
{
    let value = String::from_str("Bearer ").concat(token);
    let accepted = header_value_accepted(value.as_str());
    proof {
        reveal_strlit("Bearer ");
        let p = "Bearer "@;
        assert(p.len() == 7);
        assert forall|i: int| 0 <= i < p.len() implies header_char_ok(#[trigger] p[i]) by {}
        assert forall|i: int| 0 <= i < token@.len() implies #[trigger] token@[i] == value@[i + 7] by {}
        if accepted {
            assert forall|i: int| 0 <= i < token@.len() implies header_char_ok(#[trigger] token@[i]) by {
                assert(value@[i + 7] == token@[i]);
            }
        } else {
            let j = choose|j: int| 0 <= j < value@.len() && !header_char_ok(#[trigger] value@[j]);
            assert(j >= 7);
            assert(token@[j - 7] == value@[j]);
        }
    }
    if accepted {
        Ok(value)
    } else {
        Err(String::from_str("invalid GITHUB_TOKEN value"))
    }
}

/// `{base}/user`: the authenticated user.
pub fn user_endpoint(base_url: &str) -> (r: String)
    ensures
        r@ == base_url@ + "/user"@,
{
    String::from_str(base_url).concat("/user")
}

/// `{base}/repos/{owner}/{name}`.
pub open spec fn repo_path(base_url: Seq<char>, repo: Repo) -> Seq<char> {
    base_url + "/repos/"@ + repo.owner@ + "/"@ + repo.name@
}

fn repo_prefix(base_url: &str, repo: &Repo) -> (r: String)
    ensures
        r@ == repo_path(base_url@, *repo),
{
    String::from_str(base_url).concat("/repos/").concat(repo.owner.as_str()).concat("/").concat(
        repo.name.as_str(),
    )
}

/// `{base}/repos/{owner}/{name}/pulls/{number}`.
pub open spec fn pull_path(base_url: Seq<char>, repo: Repo, number: u64) -> Seq<char> {
    repo_path(base_url, repo) + "/pulls/"@ + decimal(number as nat)
}

/// One page of the repository's open pull requests.
pub fn open_pulls_endpoint(base_url: &str, repo: &Repo, page: u32) -> (r: String)
    ensures
        r@ == repo_path(base_url@, *repo) + "/pulls?state=open&per_page=100&page="@ + decimal(
            page as nat,
        ),
{
    repo_prefix(base_url, repo).concat("/pulls?state=open&per_page=100&page=").concat(
        decimal_text(page as u64).as_str(),
    )
}

/// The detail of one pull request.
pub fn pull_endpoint(base_url: &str, repo: &Repo, number: u64) -> (r: String)
    ensures
        r@ == pull_path(base_url@, *repo, number),
{
    repo_prefix(base_url, repo).concat("/pulls/").concat(decimal_text(number).as_str())
}

/// One page of a pull request's reviews.
pub fn reviews_endpoint(base_url: &str, repo: &Repo, number: u64, page: u32) -> (r: String)
    ensures
        r@ == pull_path(base_url@, *repo, number) + "/reviews?per_page=100&page="@ + decimal(
            page as nat,
        ),
{
    pull_endpoint(base_url, repo, number).concat("/reviews?per_page=100&page=").concat(
        decimal_text(page as u64).as_str(),
    )
}

/// The merge endpoint of a pull request.
pub fn merge_endpoint(base_url: &str, repo: &Repo, number: u64) -> (r: String)
    ensures
        r@ == pull_path(base_url@, *repo, number) + "/merge"@,
{
    pull_endpoint(base_url, repo, number).concat("/merge")
}

/// The update-branch endpoint of a pull request.
pub fn update_branch_endpoint(base_url: &str, repo: &Repo, number: u64) -> (r: String)
    ensures
        r@ == pull_path(base_url@, *repo, number) + "/update-branch"@,
{
    pull_endpoint(base_url, repo, number).concat("/update-branch")
}

/// A successful status: 200 to 299.
pub open spec fn is_success_status(status: u16) -> bool {
    200 <= status && status < 300
}

/// Whether a response status is a success.
pub fn is_success(status: u16) -> (r: bool)
    ensures
        r == is_success_status(status),
{
    200 <= status && status < 300
}

/// The reason phrase that the `http` crate's table gives for a status code.
pub uninterp spec fn reason_phrase(status: u16) -> Option<Seq<char>>;

/// Calls `StatusCode::from_u16` and `StatusCode::canonical_reason` (the `http`
/// crate's, re-exported by reqwest): the standard reason phrase of a status code,
/// if the code is valid and has one.
#[verifier::external_body]
fn canonical_reason(status: u16) -> (r: Option<&'static str>)
    ensures
        match r {
            Some(p) => reason_phrase(status) == Some(p@),
            None => reason_phrase(status) is None,
        },
{
    match reqwest::StatusCode::from_u16(status) {
        Ok(code) => code.canonical_reason(),
        Err(_) => None,
    }
}

/// How `StatusCode` displays: the code, a space and the reason phrase, or
/// `<unknown status code>` when there is none.
pub open spec fn status_text(status: u16, reason: Option<Seq<char>>) -> Seq<char> {
    decimal(status as nat) + " "@ + match reason {
        Some(p) => p,
        None => "<unknown status code>"@,
    }
}

/// The display text of a status code once its reason phrase is known.
pub fn status_text_with_reason(status: u16, reason: Option<&str>) -> (r: String)
    ensures
        r@ == status_text(status, match reason {
            Some(p) => Some(p@),
            None => None,
        }),
{
    let head = decimal_text(status as u64).concat(" ");
    match reason {
        Some(p) => head.concat(p),
        None => head.concat("<unknown status code>"),
    }
}

/// The display text of a status code, as `StatusCode`'s `Display` writes it.
pub fn status_display(status: u16) -> (r: String)
    ensures
        r@ == status_text(status, reason_phrase(status)),
{
    status_text_with_reason(status, canonical_reason(status))
}

/// What a failed response is reported as, after the status.
pub open spec fn failure_detail(status: u16, body: Seq<char>) -> Seq<char> {
    if status == 401 {
        "authentication failed (check GITHUB_TOKEN)"@
    } else if status == 403 {
        "forbidden (rate limit or insufficient scope): "@ + body
    } else if status == 404 {
        "resource not found (check repository name/permissions)"@
    } else {
        body
    }
}

/// The message of a request that got an unsuccessful response.
pub open spec fn failure_message_text(status: u16, url: Seq<char>, body: Seq<char>) -> Seq<char> {
    "GitHub API request to "@ + url + " failed with "@ + status_text(status, reason_phrase(status))
        + ": "@ + failure_detail(status, body)
}

/// Describes an unsuccessful response: where the request went, its status and
/// what the status means (or the body GitHub sent).
pub fn failure_message(status: u16, url: &str, body: &str) -> (r: String)
    ensures
        r@ == failure_message_text(status, url@, body@),
{
    let detail = if status == 401 {
        String::from_str("authentication failed (check GITHUB_TOKEN)")
    } else if status == 403 {
        String::from_str("forbidden (rate limit or insufficient scope): ").concat(body)
    } else if status == 404 {
        String::from_str("resource not found (check repository name/permissions)")
    } else {
        String::from_str(body)
    };
    String::from_str("GitHub API request to ").concat(url).concat(" failed with ").concat(
        status_display(status).as_str(),
    ).concat(": ").concat(detail.as_str())
}


/// Upper bound on how long a single retry will ever wait: one minute, in nanoseconds.
pub const MAX_RETRY_DELAY_NANOS: u128 = 60_000_000_000;

/// The longest `std::time::Duration`, in nanoseconds.
pub open spec fn max_duration_nanos() -> nat {
    18446744073709551615nat * 1000000000nat + 999999999nat
}

/// What a response tells the retry policy: its status and the bytes of its
/// `x-ratelimit-remaining` and `Retry-After` headers, when present.
#[derive(Debug, Clone)]
pub struct ResponseMeta {
    pub status: u16,
    pub rate_limit_remaining: Option<Vec<u8>>,
    pub retry_after: Option<Vec<u8>>,
}

/// A byte that `HeaderValue::to_str` accepts: visible ASCII or a tab.
pub open spec fn is_visible_ascii(b: u8) -> bool {
    (32 <= b && b < 127) || b == 9
}

/// The text of a header value as `HeaderValue::to_str` reads it: the bytes as
/// characters when every one is visible ASCII, else none.
pub open spec fn header_text_of(bytes: Seq<u8>) -> Option<Seq<char>> {
    if forall|i: int| 0 <= i < bytes.len() ==> is_visible_ascii(#[trigger] bytes[i]) {
        Some(Seq::new(bytes.len(), |i: int| bytes[i] as char))
    } else {
        None
    }
}

/// Reads a header value as text, as `HeaderValue::to_str` does.
pub fn header_text(bytes: &[u8]) -> (r: Option<Vec<char>>)
    ensures
        match r {
            Some(cs) => header_text_of(bytes@) == Some(cs@),
            None => header_text_of(bytes@) is None,
        },
{
    let mut out: Vec<char> = Vec::new();
    let mut i: usize = 0;
    while i < bytes.len()
        invariant
            i <= bytes@.len(),
            out@ == Seq::new(i as nat, |k: int| bytes@[k] as char),
            forall|k: int| 0 <= k < i ==> is_visible_ascii(#[trigger] bytes@[k]),
        decreases bytes@.len() - i,
    {
        let b = bytes[i];
        if !((32 <= b && b < 127) || b == 9) {
            assert(!is_visible_ascii(bytes@[i as int]));
            return None;
        }
        out.push(b as char);
        i = i + 1;
        assert(out@ =~= Seq::new(i as nat, |k: int| bytes@[k] as char));
    }
    Some(out)
}

/// What a failed request (one that got no response) tells the retry policy.
#[derive(Debug, Clone, Copy)]
pub struct RequestFailure {
    pub timeout: bool,
    pub connect: bool,
    pub request: bool,
}

/// A response worth retrying: rate limited (429), a server error (5xx), or a 403
/// whose remaining rate-limit budget is `0` (GitHub's secondary rate limit).
pub open spec fn retryable_response(resp: ResponseMeta) -> bool {
    ||| resp.status == 429
    ||| 500 <= resp.status && resp.status < 600
    ||| resp.status == 403 && match resp.rate_limit_remaining {
        Some(v) => match header_text_of(v@) {
            Some(t) => trimmed(t) == "0"@,
            None => false,
        },
        None => false,
    }
}

/// Whether a response should be retried (rate limiting or transient server error).
pub fn should_retry_status(resp: &ResponseMeta) -> (r: bool)
    ensures
        r == retryable_response(*resp),
        500 <= resp.status < 600 ==> r,
        resp.status == 429 ==> r,
        resp.status != 403 && resp.status != 429 && !(500 <= resp.status < 600) ==> !r,
{
    let status = resp.status;
    if status == 429 || (500 <= status && status < 600) {
        return true;
    }
    // A 403 with no remaining rate-limit budget is GitHub's secondary rate limit.
    if status == 403 {
        return match &resp.rate_limit_remaining {
            Some(v) => match header_text(v.as_slice()) {
                Some(cs) => {
                    let (a, b) = trim_bounds(&cs);
                    let zero = b - a == 1 && cs[a] == '0';
                    proof {
                        reveal_strlit("0");
                        let t = cs@.subrange(a as int, b as int);
                        if zero {
                            assert(t =~= "0"@);
                        }
                        if t == "0"@ {
                            assert(t.len() == 1);
                            assert(t[0] == cs@[a as int]);
                        }
                    }
                    zero
                },
                None => false,
            },
            None => false,
        };
    }
    false
}

/// A failure worth retrying: a timeout, a connection failure or a failure to
/// send the request.
pub open spec fn transient_failure(err: RequestFailure) -> bool {
    err.timeout || err.connect || err.request
}

/// Whether a request error is transient and worth retrying.
pub fn is_transient(err: &RequestFailure) -> (r: bool)
    ensures
        r == transient_failure(*err),
{
    err.timeout || err.connect || err.request
}

/// `2u32.saturating_pow(attempt)`.
pub open spec fn backoff_factor(attempt: u32) -> nat {
    if attempt < 32 {
        pow2(attempt as nat)
    } else {
        u32::MAX as nat
    }
}

/// The smaller of two numbers.
pub open spec fn min_nat(a: nat, b: nat) -> nat {
    if a <= b {
        a
    } else {
        b
    }
}

/// Exponential backoff: the base delay times `2^attempt` (the factor saturating at
/// `u32::MAX`), capped at one minute. `Duration::saturating_mul` saturates at a
/// bound far above the cap, so the cap alone decides every case that saturates.
pub open spec fn backoff_nanos(attempt: u32, base_delay_nanos: nat) -> nat {
    min_nat(base_delay_nanos * backoff_factor(attempt), MAX_RETRY_DELAY_NANOS as nat)
}

fn saturating_pow2(attempt: u32) -> (r: u32)
    ensures
        r == backoff_factor(attempt),
{
    if attempt >= 32 {
        return u32::MAX;
    }
    let mut f: u32 = 1;
    let mut i: u32 = 0;
    proof {
        lemma2_to64();
    }
    while i < attempt
        invariant
            attempt < 32,
            i <= attempt,
            f == pow2(i as nat),
        decreases attempt - i,
    {
        proof {
            lemma_pow2_unfold((i + 1) as nat);
            lemma2_to64();
            if i + 1 < 31 {
                lemma_pow2_strictly_increases((i + 1) as nat, 31);
            }
        }
        f = f * 2;
        i = i + 1;
    }
    f
}

/// Exponential backoff delay, in nanoseconds, capped at [`MAX_RETRY_DELAY_NANOS`].
pub fn backoff(attempt: u32, base_delay_nanos: u128) -> (r: u128)
    requires
        base_delay_nanos <= max_duration_nanos(),
    ensures
        r == backoff_nanos(attempt, base_delay_nanos as nat),
{
    let factor = saturating_pow2(attempt);
    assert(base_delay_nanos * factor <= max_duration_nanos() * 4294967295) by (nonlinear_arith)
        requires
            base_delay_nanos <= max_duration_nanos(),
            factor <= 4294967295,
    ;
    let product = base_delay_nanos * (factor as u128);
    if product < MAX_RETRY_DELAY_NANOS {
        product
    } else {
        MAX_RETRY_DELAY_NANOS
    }
}

/// The whole seconds that the `Retry-After` header asks for, if it holds a number.
pub open spec fn retry_after_secs(resp: ResponseMeta) -> Option<u64> {
    match resp.retry_after {
        Some(v) => match header_text_of(v@) {
            Some(t) => parsed_u64(trimmed(t)),
            None => None,
        },
        None => None,
    }
}

/// The delay before retrying a response: the `Retry-After` seconds when the
/// header holds a number, else exponential backoff; at most one minute.
pub open spec fn retry_delay_nanos(resp: ResponseMeta, attempt: u32, base_delay_nanos: nat) -> nat {
    match retry_after_secs(resp) {
        Some(secs) => min_nat(secs as nat * 1000000000, MAX_RETRY_DELAY_NANOS as nat),
        None => backoff_nanos(attempt, base_delay_nanos),
    }
}

/// Compute the delay before retrying a rate-limited/erroring response.
///
/// Honours `Retry-After` (seconds) when present, otherwise falls back to
/// exponential backoff. The result is always capped at [`MAX_RETRY_DELAY_NANOS`].
pub fn retry_delay(resp: &ResponseMeta, attempt: u32, base_delay_nanos: u128) -> (r: u128)
    requires
        base_delay_nanos <= max_duration_nanos(),
    ensures
        r == retry_delay_nanos(*resp, attempt, base_delay_nanos as nat),
        r == match resp.retry_after {
            Some(v) => match header_text_of(v@) {
                Some(t) => match parsed_u64(trimmed(t)) {
                    Some(secs) => min_nat(secs as nat * 1000000000, MAX_RETRY_DELAY_NANOS as nat),
                    None => backoff_nanos(attempt, base_delay_nanos as nat),
                },
                None => backoff_nanos(attempt, base_delay_nanos as nat),
            },
            None => backoff_nanos(attempt, base_delay_nanos as nat),
        },
{
    let secs = match &resp.retry_after {
        Some(v) => match header_text(v.as_slice()) {
            Some(cs) => {
                let (a, b) = trim_bounds(&cs);
                parse_u64_chars(&chars_between(&cs, a, b))
            },
            None => None,
        },
        None => None,
    };
    match secs {
        Some(secs) => {
            let nanos = (secs as u128) * 1_000_000_000u128;
            if nanos < MAX_RETRY_DELAY_NANOS {
                nanos
            } else {
                MAX_RETRY_DELAY_NANOS
            }
        },
        None => backoff(attempt, base_delay_nanos),
    }
}


/// How many times a request is retried and the base delay of its backoff.
#[derive(Debug, Clone, Copy)]
pub struct RetryPolicy {
    pub max_retries: u32,
    pub base_delay_nanos: u128,
}

impl RetryPolicy {
    /// A base delay that a `Duration` can hold.
    pub open spec fn wf(self) -> bool {
        self.base_delay_nanos <= max_duration_nanos()
    }

    /// The default: three retries, backing off from one second.
    pub fn standard() -> (r: RetryPolicy)
        ensures
            r.max_retries == 3,
            r.base_delay_nanos == 1_000_000_000,
            r.wf(),
    {
        RetryPolicy { max_retries: 3, base_delay_nanos: 1_000_000_000 }
    }
}

/// What one attempt at sending a request produced.
#[derive(Debug, Clone)]
pub enum SendOutcome {
    Response(ResponseMeta),
    Failure(RequestFailure),
}

/// Whether an outcome is worth another attempt, when attempts remain.
pub open spec fn retryable(outcome: SendOutcome) -> bool {
    match outcome {
        SendOutcome::Response(resp) => retryable_response(resp),
        SendOutcome::Failure(err) => transient_failure(err),
    }
}

/// How long to wait before retrying an outcome.
pub open spec fn delay_for(outcome: SendOutcome, attempt: u32, base_delay_nanos: nat) -> nat {
    match outcome {
        SendOutcome::Response(resp) => retry_delay_nanos(resp, attempt, base_delay_nanos),
        SendOutcome::Failure(_) => backoff_nanos(attempt, base_delay_nanos),
    }
}

/// The retry rule: after `retries` retries, an outcome is retried, after the
/// returned delay, only while fewer than `max_retries` retries have been made and
/// only when it is rate limiting, a server error or a transient failure.
pub open spec fn retry_decision(policy: RetryPolicy, retries: u32, outcome: SendOutcome) -> Option<nat> {
    if retries < policy.max_retries && retryable(outcome) {
        Some(delay_for(outcome, retries, policy.base_delay_nanos as nat))
    } else {
        None
    }
}

/// What to do with the outcome of an attempt.
#[derive(Debug, Clone, Copy)]
pub enum RetryDecision {
    /// Wait this many nanoseconds, then send the request again.
    RetryAfter(u128),
    /// Hand the outcome to the caller: the response, or the failure as an error.
    Finish,
}

/// The progress of one request through its attempts.
#[derive(Debug, Clone, Copy)]
pub struct RetryState {
    attempt: u32,
}

impl RetryState {
    /// How many retries have been made so far.
    pub closed spec fn retries(self) -> u32 {
        self.attempt
    }

    /// A request before its first attempt.
    pub fn new() -> (r: RetryState)
        ensures
            r.retries() == 0,
    {
        RetryState { attempt: 0 }
    }

    /// How many retries have been made so far.
    pub fn retries_made(&self) -> (r: u32)
        ensures
            r == self.retries(),
    {
        self.attempt
    }

    /// Decides, after an attempt, whether to retry: only while fewer than
    /// `max_retries` retries have been made, and only for rate limiting, server
    /// errors and transient failures. A retry counts itself.
    pub fn on_outcome(&mut self, policy: &RetryPolicy, outcome: &SendOutcome) -> (r: RetryDecision)
        requires
            policy.wf(),
        ensures
            match r {
                RetryDecision::RetryAfter(delay) => {
                    &&& retry_decision(*policy, old(self).retries(), *outcome) == Some(delay as nat)
                    &&& final(self).retries() == old(self).retries() + 1
                },
                RetryDecision::Finish => {
                    &&& retry_decision(*policy, old(self).retries(), *outcome) is None
                    &&& final(self).retries() == old(self).retries()
                },
            },
            old(self).retries() < policy.max_retries && outcome is Response && (
            outcome->Response_0.status == 429 || 500 <= outcome->Response_0.status < 600)
                ==> r is RetryAfter,
    {
        if self.attempt < policy.max_retries {
            match outcome {
                SendOutcome::Response(resp) => {
                    if should_retry_status(resp) {
                        let delay = retry_delay(resp, self.attempt, policy.base_delay_nanos);
                        self.attempt = self.attempt + 1;
                        return RetryDecision::RetryAfter(delay);
                    }
                },
                SendOutcome::Failure(err) => {
                    if is_transient(err) {
                        let delay = backoff(self.attempt, policy.base_delay_nanos);
                        self.attempt = self.attempt + 1;
                        return RetryDecision::RetryAfter(delay);
                    }
                },
            }
        }
        RetryDecision::Finish
    }
}

/// A listing after one more page: the page's items are added; a page shorter
/// than [`PER_PAGE`] is the last, and after a full page the next one is due.
pub open spec fn listing_step<T>(state: (Seq<T>, u32, bool), batch: Seq<T>) -> (Seq<T>, u32, bool) {
    (
        state.0 + batch,
        if batch.len() < PER_PAGE {
            state.1
        } else {
            (state.1 + 1) as u32
        },
        batch.len() < PER_PAGE,
    )
}

/// A listing after the given pages, in order, starting from nothing collected
/// and page 1 due.
pub open spec fn listing<T>(batches: Seq<Seq<T>>) -> (Seq<T>, u32, bool)
    decreases batches.len(),
{
    if batches.len() == 0 {
        (Seq::empty(), 1, false)
    } else {
        listing_step(listing(batches.drop_last()), batches.last())
    }
}

/// The pages' items, one page after the other.
pub open spec fn concat_pages<T>(batches: Seq<Seq<T>>) -> Seq<T>
    decreases batches.len(),
{
    if batches.len() == 0 {
        Seq::empty()
    } else {
        concat_pages(batches.drop_last()) + batches.last()
    }
}

/// The items of a paged listing collected so far, the next page to ask for, and
/// whether the last page has been seen.
pub struct Pages<T> {
    items: Vec<T>,
    page: u32,
    finished: bool,
}

impl<T> Pages<T> {
    pub closed spec fn items(self) -> Seq<T> {
        self.items@
    }

    pub closed spec fn page(self) -> u32 {
        self.page
    }

    pub closed spec fn finished(self) -> bool {
        self.finished
    }

    /// The items, the page due and whether the listing is complete.
    pub open spec fn state(self) -> (Seq<T>, u32, bool) {
        (self.items(), self.page(), self.finished())
    }

    /// A listing before its first page: nothing collected, page 1 next.
    pub fn new() -> (r: Pages<T>)
        ensures
            r.state() == listing(Seq::<Seq<T>>::empty()),
    {
        Pages { items: Vec::new(), page: 1, finished: false }
    }

    /// The page to request next.
    pub fn next_page(&self) -> (r: u32)
        ensures
            r == self.page(),
    {
        self.page
    }

    /// Whether the listing is complete.
    pub fn is_finished(&self) -> (r: bool)
        ensures
            r == self.finished(),
    {
        self.finished
    }

    /// Adds one page of results. A page shorter than [`PER_PAGE`] is the last;
    /// after a full page the next one is due.
    pub fn absorb(&mut self, batch: Vec<T>)
        requires
            !old(self).finished(),
            batch@.len() >= PER_PAGE ==> old(self).page() < u32::MAX,
        ensures
            final(self).state() == listing_step(old(self).state(), batch@),
    {
        let len = batch.len();
        let mut batch = batch;
        self.items.append(&mut batch);
        if len < PER_PAGE {
            self.finished = true;
        } else {
            self.page = self.page + 1;
        }
    }

    /// Everything collected.
    pub fn into_items(self) -> (r: Vec<T>)
        ensures
            r@ == self.items(),
    {
        self.items
    }
}


/// A listing whose pages are full up to a last, shorter one: before the `j`-th
/// page (counting from 0) page `j + 1` is due and the listing is not complete;
/// after the last page it is complete and holds every page's items in order.
/// So the pages requested are exactly 1 to `batches.len()`, in order.
pub proof fn law_listing_collects_every_page<T>(batches: Seq<Seq<T>>)
    requires
        batches.len() >= 1,
        batches.len() <= u32::MAX,
        forall|j: int| 0 <= j < batches.len() - 1 ==> (#[trigger] batches[j]).len() >= PER_PAGE,
        batches.last().len() < PER_PAGE,
    ensures
        forall|j: int| 0 <= j < batches.len() ==> #[trigger] listing(batches.take(j)) == (
            concat_pages(batches.take(j)),
            (j + 1) as u32,
            false,
        ),
        listing(batches) == (concat_pages(batches), batches.len() as u32, true),
{
    assert forall|j: int| 0 <= j < batches.len() implies #[trigger] listing(batches.take(j)) == (
        concat_pages(batches.take(j)),
        (j + 1) as u32,
        false,
    ) by {
        lemma_listing_full_pages(batches, j);
    }
    let n = batches.len() - 1;
    lemma_listing_full_pages(batches, n);
    assert(batches.drop_last() =~= batches.take(n));
}

proof fn lemma_listing_full_pages<T>(batches: Seq<Seq<T>>, j: int)
    requires
        0 <= j < batches.len(),
        batches.len() <= u32::MAX,
        forall|i: int| 0 <= i < batches.len() - 1 ==> (#[trigger] batches[i]).len() >= PER_PAGE,
    ensures
        listing(batches.take(j)) == (concat_pages(batches.take(j)), (j + 1) as u32, false),
    decreases j,
{
    if j > 0 {
        lemma_listing_full_pages(batches, j - 1);
        assert(batches.take(j).drop_last() =~= batches.take(j - 1));
        assert(batches.take(j).last() == batches[j - 1]);
    }
}

/// A review by `login` that decides its approval: `APPROVED`, `CHANGES_REQUESTED`
/// or `DISMISSED`.
pub open spec fn decisive_by(review: Review, login: Seq<char>) -> bool {
    written_by(review, login) && (review.state@ == "APPROVED"@ || review.state@
        == "CHANGES_REQUESTED"@ || review.state@ == "DISMISSED"@)
}

/// The latest decisive review wins: `login` approves exactly when one of its
/// reviews is `APPROVED` and none of its later reviews is decisive.
pub proof fn law_latest_decisive_review_wins(reviews: Seq<Review>, login: Seq<char>)
    ensures
        approved_by(reviews, login) <==> exists|i: int|
            0 <= i < reviews.len() && written_by(#[trigger] reviews[i], login) && reviews[i].state@
                == "APPROVED"@ && forall|j: int| i < j < reviews.len() ==> !decisive_by(
                #[trigger] reviews[j],
                login,
            ),
    decreases reviews.len(),
{
    if reviews.len() > 0 {
        let n = reviews.len() - 1;
        let p = reviews.drop_last();
        let r = reviews.last();
        law_latest_decisive_review_wins(p, login);
        if written_by(r, login) && r.state@ == "APPROVED"@ {
            assert(written_by(reviews[n], login) && reviews[n].state@ == "APPROVED"@);
        } else if written_by(r, login) && (r.state@ == "CHANGES_REQUESTED"@ || r.state@
            == "DISMISSED"@) {
            assert forall|i: int|
                0 <= i < reviews.len() && written_by(#[trigger] reviews[i], login)
                    && reviews[i].state@ == "APPROVED"@ implies exists|j: int|
                i < j < reviews.len() && decisive_by(#[trigger] reviews[j], login) by {
                assert(i != n);
                assert(decisive_by(reviews[n], login));
            }
        } else {
            assert(!decisive_by(r, login));
            if approved_by(p, login) {
                let i = choose|i: int|
                    0 <= i < p.len() && written_by(#[trigger] p[i], login) && p[i].state@
                        == "APPROVED"@ && forall|j: int| i < j < p.len() ==> !decisive_by(
                        #[trigger] p[j],
                        login,
                    );
                assert(reviews[i] == p[i]);
                assert forall|j: int| i < j < reviews.len() implies !decisive_by(
                    #[trigger] reviews[j],
                    login,
                ) by {
                    if j < n {
                        assert(reviews[j] == p[j]);
                    }
                }
            } else {
                assert forall|i: int|
                    0 <= i < reviews.len() && written_by(#[trigger] reviews[i], login)
                        && reviews[i].state@ == "APPROVED"@ implies exists|j: int|
                    i < j < reviews.len() && decisive_by(#[trigger] reviews[j], login) by {
                    assert(i != n);
                    assert(reviews[i] == p[i]);
                    let j = choose|j: int| i < j < p.len() && decisive_by(#[trigger] p[j], login);
                    assert(reviews[j] == p[j]);
                }
            }
        }
    }
}

/// Reviews written by other users, wherever they stand, do not change whether
/// `login` approves.
pub proof fn law_other_reviewers_irrelevant(
    before: Seq<Review>,
    other: Review,
    after: Seq<Review>,
    login: Seq<char>,
)
    requires
        !written_by(other, login),
    ensures
        approved_by(before.push(other) + after, login) == approved_by(before + after, login),
    decreases after.len(),
{
    if after.len() == 0 {
        assert(before.push(other) + after =~= before.push(other));
        assert(before + after =~= before);
        assert(before.push(other).drop_last() =~= before);
    } else {
        law_other_reviewers_irrelevant(before, other, after.drop_last(), login);
        assert((before.push(other) + after).drop_last() =~= before.push(other) + after.drop_last());
        assert((before + after).drop_last() =~= before + after.drop_last());
    }
}

/// An approval by any one of the trusted logins is enough, wherever that login
/// stands in the list.
pub proof fn law_any_trusted_approval_counts(reviews: Seq<Review>, logins: Seq<String>, k: int)
    requires
        0 <= k < logins.len(),
        approved_by(reviews, logins[k]@),
    ensures
        approved_by_any(reviews, logins),
{
}

/// Trusting more logins never withdraws an approval, whether they are added
/// before or after the others.
pub proof fn law_more_trusted_logins_keep_approvals(
    reviews: Seq<Review>,
    logins: Seq<String>,
    more: Seq<String>,
)
    requires
        approved_by_any(reviews, logins),
    ensures
        approved_by_any(reviews, logins + more),
        approved_by_any(reviews, more + logins),
{
    let k = choose|k: int| 0 <= k < logins.len() && approved_by(reviews, #[trigger] logins[k]@);
    assert((logins + more)[k] == logins[k]);
    assert((more + logins)[more.len() + k] == logins[k]);
}

/// Rate limiting (429) and every server error (500 to 599) are retried while
/// retries remain, after the delay the response asks for; statuses other than
/// these and 403 are never retried.
pub proof fn law_server_errors_and_rate_limits_retried(
    policy: RetryPolicy,
    retries: u32,
    resp: ResponseMeta,
)
    ensures
        retries < policy.max_retries && (resp.status == 429 || 500 <= resp.status < 600)
            ==> retry_decision(policy, retries, SendOutcome::Response(resp)) == Some(
            retry_delay_nanos(resp, retries, policy.base_delay_nanos as nat),
        ),
        resp.status != 403 && resp.status != 429 && !(500 <= resp.status < 600) ==> retry_decision(
            policy,
            retries,
            SendOutcome::Response(resp),
        ) is None,
{
}

/// A `Retry-After` header that holds a number of seconds is honoured whatever
/// the status: the delay is those seconds, capped at one minute. Without such a
/// header the delay is the exponential backoff. So two responses with the same
/// header wait alike, whatever their statuses.
pub proof fn law_retry_after_honoured_for_every_status(
    resp: ResponseMeta,
    other: ResponseMeta,
    attempt: u32,
    base_delay_nanos: nat,
)
    ensures
        retry_delay_nanos(resp, attempt, base_delay_nanos) == match resp.retry_after {
            Some(v) => match header_text_of(v@) {
                Some(t) => match parsed_u64(trimmed(t)) {
                    Some(secs) => min_nat(secs as nat * 1000000000, MAX_RETRY_DELAY_NANOS as nat),
                    None => backoff_nanos(attempt, base_delay_nanos),
                },
                None => backoff_nanos(attempt, base_delay_nanos),
            },
            None => backoff_nanos(attempt, base_delay_nanos),
        },
        other.retry_after == resp.retry_after ==> retry_delay_nanos(other, attempt, base_delay_nanos)
            == retry_delay_nanos(resp, attempt, base_delay_nanos),
{
}

/// No retry waits longer than one minute.
pub proof fn law_delays_capped(resp: ResponseMeta, attempt: u32, base_delay_nanos: nat)
    ensures
        backoff_nanos(attempt, base_delay_nanos) <= MAX_RETRY_DELAY_NANOS,
        retry_delay_nanos(resp, attempt, base_delay_nanos) <= MAX_RETRY_DELAY_NANOS,
{
}

proof fn lemma_backoff_factor_monotone(a1: u32, a2: u32)
    requires
        a1 <= a2,
    ensures
        backoff_factor(a1) <= backoff_factor(a2),
{
    lemma2_to64();
    if a1 < a2 && a2 < 32 {
        lemma_pow2_strictly_increases(a1 as nat, a2 as nat);
    }
    if a1 < 32 && a1 < 31 {
        lemma_pow2_strictly_increases(a1 as nat, 31);
    }
}

/// Later attempts never wait less than earlier ones.
pub proof fn law_backoff_monotone(a1: u32, a2: u32, base_delay_nanos: nat)
    requires
        a1 <= a2,
    ensures
        backoff_nanos(a1, base_delay_nanos) <= backoff_nanos(a2, base_delay_nanos),
{
    lemma_backoff_factor_monotone(a1, a2);
    let f1 = backoff_factor(a1);
    let f2 = backoff_factor(a2);
    assert(base_delay_nanos * f1 <= base_delay_nanos * f2) by (nonlinear_arith)
        requires
            f1 <= f2,
    ;
}

/// Below the cap each further attempt doubles the delay.
pub proof fn law_backoff_doubles(attempt: u32, base_delay_nanos: nat)
    requires
        attempt < 31,
        base_delay_nanos * backoff_factor((attempt + 1) as u32) <= MAX_RETRY_DELAY_NANOS,
    ensures
        backoff_nanos((attempt + 1) as u32, base_delay_nanos) == 2 * backoff_nanos(
            attempt,
            base_delay_nanos,
        ),
{
    lemma_pow2_unfold((attempt + 1) as nat);
    let f = pow2(attempt as nat);
    assert(base_delay_nanos * (2 * f) == 2 * (base_delay_nanos * f)) by (nonlinear_arith);
}

/// The first retry waits the base delay, at most one minute.
pub proof fn law_first_backoff_is_base_delay(base_delay_nanos: nat)
    ensures
        backoff_nanos(0, base_delay_nanos) == min_nat(base_delay_nanos, MAX_RETRY_DELAY_NANOS as nat),
{
    lemma2_to64();
    assert(backoff_factor(0) == 1);
    assert(base_delay_nanos * 1 == base_delay_nanos);
}

/// How many times a request is sent when the attempts produce `outcomes` in turn,
/// starting after `retries` retries: each retryable outcome is followed by one more
/// attempt while retries remain.
pub open spec fn attempts_made(policy: RetryPolicy, retries: u32, outcomes: Seq<SendOutcome>) -> nat
    decreases outcomes.len(),
{
    if outcomes.len() == 0 {
        0
    } else if retry_decision(policy, retries, outcomes[0]) is Some {
        1 + attempts_made(policy, (retries + 1) as u32, outcomes.drop_first())
    } else {
        1
    }
}

/// A request is sent at most `max_retries + 1` times, whatever the attempts
/// produce.
pub proof fn law_attempts_bounded(policy: RetryPolicy, retries: u32, outcomes: Seq<SendOutcome>)
    requires
        retries <= policy.max_retries,
    ensures
        attempts_made(policy, retries, outcomes) <= policy.max_retries - retries + 1,
    decreases outcomes.len(),
{
    if outcomes.len() > 0 && retries < policy.max_retries && retryable(outcomes[0]) {
        law_attempts_bounded(policy, (retries + 1) as u32, outcomes.drop_first());
    }
}

/// A run of attempts, one `RetryState::on_outcome` per outcome in turn: when
/// attempts keep producing outcomes, the request is sent `k + 1` times, where
/// `k` is the first attempt that is not retried (at the latest the one after the
/// last retry allowed); every earlier outcome was retried and the `k`-th is the
/// one handed back.
pub proof fn law_retry_run(policy: RetryPolicy, retries: u32, outcomes: Seq<SendOutcome>)
    requires
        retries <= policy.max_retries,
        outcomes.len() > policy.max_retries - retries,
    ensures
        ({
            let k = attempts_made(policy, retries, outcomes) - 1;
            &&& 0 <= k <= policy.max_retries - retries
            &&& forall|i: int| 0 <= i < k ==> retry_decision(policy, (retries + i) as u32, #[trigger] outcomes[i]) is Some
            &&& retry_decision(policy, (retries + k) as u32, outcomes[k]) is None
        }),
    decreases outcomes.len(),
{
    if retry_decision(policy, retries, outcomes[0]) is Some {
        let rest = outcomes.drop_first();
        law_retry_run(policy, (retries + 1) as u32, rest);
        let k = attempts_made(policy, retries, outcomes) - 1;
        assert forall|i: int| 0 <= i < k implies retry_decision(policy, (retries + i) as u32, #[trigger] outcomes[i]) is Some by {
            if i > 0 {
                assert(outcomes[i] == rest[i - 1]);
                assert((retries + 1 + (i - 1)) as u32 == (retries + i) as u32);
            }
        }
        assert(outcomes[k] == rest[k - 1]);
    }
}

/// A normalized API base does not end with `/`, and normalizing it again changes
/// nothing.
pub proof fn law_normalized_base_url(base_url: Seq<char>)
    ensures
        without_trailing(base_url, '/').len() == 0 || without_trailing(base_url, '/').last()
            != '/',
        without_trailing(without_trailing(base_url, '/'), '/') == without_trailing(base_url, '/'),
    decreases base_url.len(),
{
    if base_url.len() > 0 && base_url.last() == '/' {
        law_normalized_base_url(base_url.drop_last());
    }
}


/// Merge method names are read without regard to ASCII case or surrounding
/// whitespace: any text whose trimmed form is a method's name with some letters
/// upper-cased (`Squash`, ` REBASE `) parses to that method.
pub proof fn law_merge_method_names_ignore_case(m: MergeMethod, raw: Seq<char>)
    requires
        ascii_case_variant(m.name(), trimmed(raw)),
    ensures
        MergeMethod::parsed(raw) == Ok::<MergeMethod, Seq<char>>(m),
{
    reveal_strlit("merge");
    reveal_strlit("squash");
    reveal_strlit("rebase");
    let n = m.name();
    let t = trimmed(raw);
    assert forall|i: int| 0 <= i < n.len() implies 'a' <= #[trigger] n[i] <= 'z' by {
        match m {
            MergeMethod::Merge => {},
            MergeMethod::Squash => {},
            MergeMethod::Rebase => {},
        }
    }
    assert(is_ascii_chars(t)) by {
        assert forall|i: int| 0 <= i < t.len() implies '\0' <= #[trigger] t[i] <= '\u{7f}' by {
            assert('a' <= n[i] <= 'z');
        }
    }
    assert(ascii_lowercase(t) =~= n) by {
        assert forall|i: int| 0 <= i < t.len() implies ascii_lower_char(#[trigger] t[i]) == n[i] by {
            assert('a' <= n[i] <= 'z');
        }
    }
    assert("merge"@ != "squash"@ && "merge"@ != "rebase"@ && "squash"@ != "rebase"@) by {
        assert("merge"@.len() != "squash"@.len());
        assert("merge"@.len() != "rebase"@.len());
        assert("squash"@[0] != "rebase"@[0]);
    }
}

/// Parsing the name of a merge method gives that method back.
pub proof fn law_merge_method_name_round_trip(m: MergeMethod)
    ensures
        MergeMethod::parsed(m.name()) == Ok::<MergeMethod, Seq<char>>(m),
{
    reveal_strlit("merge");
    reveal_strlit("squash");
    reveal_strlit("rebase");
    let n = m.name();
    crate::text::lemma_trimmed_fixed(n);
    assert(is_ascii_chars(n));
    assert(ascii_lowercase(n) =~= n);
    assert("merge"@ != "squash"@ && "merge"@ != "rebase"@ && "squash"@ != "rebase"@) by {
        assert("merge"@.len() != "squash"@.len());
        assert("merge"@.len() != "rebase"@.len());
        assert("squash"@[0] != "rebase"@[0]);
    }
}

} // verus!
