//! Configuration: the watched repositories, the trusted logins, the merge method
//! and the time zone, parsed from the text of their environment variables, and the
//! checks a complete configuration must pass.

use vstd::prelude::*;
use chrono_tz::Tz;
use crate::github::MergeMethod;
use crate::text::{
    is_white_space, joined, lemma_halves_at_first, lemma_list_entries_of_joined,
    lemma_trimmed_fixed, is_clean_entry, is_list_separator, lemma_list_entries_clean, lemma_trimmed_bounds,
    chars_of, chars_eq_ignore_ascii_case, eq_ignore_ascii_case, halves_at_first, list_entries,
    split_list, split_once, trim, trimmed, ascii_case_variant, law_eq_ignore_ascii_case_is_case_variants,
    law_trimmed_empty_exactly_when_blank,
};

verus! {

#[verifier::external_type_specification]
#[verifier::external_body]
pub struct ExTz(Tz);

/// A single GitHub repository to watch.
#[derive(Debug, Clone)]
pub struct Repo {
    pub owner: String,
    pub name: String,
}

/// The text of a repository: its owner and its name.
pub struct RepoView {
    pub owner: Seq<char>,
    pub name: Seq<char>,
}

impl View for Repo {
    type V = RepoView;

    open spec fn view(&self) -> RepoView {
        RepoView { owner: self.owner@, name: self.name@ }
    }
}

impl Repo {
    /// `owner/name`, as the repository is written in configuration and logs.
    pub fn to_string(&self) -> (r: String)
        ensures
            r@ == self.owner@ + "/"@ + self.name@,
    {
        self.owner.clone().concat("/").concat(self.name.as_str())
    }
}

/// A parsed, non-empty list of repositories.
#[derive(Debug, Clone)]
pub struct RepoList(pub Vec<Repo>);

impl View for RepoList {
    type V = Seq<RepoView>;

    open spec fn view(&self) -> Seq<RepoView> {
        self.0@.map_values(|r: Repo| r@)
    }
}

impl std::ops::Deref for RepoList {
    type Target = [Repo];

    fn deref(&self) -> (r: &[Repo])
        ensures
            r@ == self.0@,
    {
        self.0.as_slice()
    }
}

/// A deduplicated list of GitHub logins trusted alongside the authenticated user.
#[derive(Debug, Clone)]
pub struct TrustedUserList(pub Vec<String>);

impl View for TrustedUserList {
    type V = Seq<Seq<char>>;

    open spec fn view(&self) -> Seq<Seq<char>> {
        self.0@.map_values(|s: String| s@)
    }
}

impl std::ops::Deref for TrustedUserList {
    type Target = [String];

    fn deref(&self) -> (r: &[String])
        ensures
            r@ == self.0@,
    {
        self.0.as_slice()
    }
}

impl Default for TrustedUserList {
    fn default() -> (r: TrustedUserList)
        ensures
            r@.len() == 0,
    {
        TrustedUserList(Vec::new())
    }
}

/// The message of a refused repository entry.
pub open spec fn invalid_repo_message(entry: Seq<char>) -> Seq<char> {
    "invalid repository '"@ + entry + "', expected 'owner/repo'"@
}

/// One `owner/repo` entry: split at its first `/`, both sides trimmed and
/// non-empty.
pub open spec fn repo_entry(entry: Seq<char>) -> Result<RepoView, Seq<char>> {
    match halves_at_first(entry, '/') {
        None => Err(invalid_repo_message(entry)),
        Some((owner, name)) => if trimmed(owner).len() == 0 || trimmed(name).len() == 0 {
            Err(invalid_repo_message(entry))
        } else {
            Ok(RepoView { owner: trimmed(owner), name: trimmed(name) })
        },
    }
}

/// The entries read in order; the first refused entry decides the error.
pub open spec fn repo_entries(entries: Seq<Seq<char>>) -> Result<Seq<RepoView>, Seq<char>>
    decreases entries.len(),
{
    if entries.len() == 0 {
        Ok(Seq::empty())
    } else {
        match repo_entries(entries.drop_last()) {
            Err(e) => Err(e),
            Ok(acc) => match repo_entry(entries.last()) {
                Ok(r) => Ok(acc.push(r)),
                Err(e) => Err(e),
            },
        }
    }
}

/// What `WATCHED_REPOS` parses to: its list entries as repositories, of which
/// there must be at least one.
pub open spec fn parsed_repos(raw: Seq<char>) -> Result<Seq<RepoView>, Seq<char>> {
    match repo_entries(list_entries(raw)) {
        Err(e) => Err(e),
        Ok(rs) => if rs.len() == 0 {
            Err("no valid repositories provided"@)
        } else {
            Ok(rs)
        },
    }
}

proof fn lemma_repo_entries_push(es: Seq<Seq<char>>, e: Seq<char>)
    ensures
        repo_entries(es.push(e)) == (match repo_entries(es) {
            Err(m) => Err(m),
            Ok(acc) => match repo_entry(e) {
                Ok(r) => Ok(acc.push(r)),
                Err(m) => Err(m),
            },
        }),
{
    assert(es.push(e).drop_last() =~= es);
}

proof fn lemma_repo_entries_error_persists(es: Seq<Seq<char>>, k: int, j: int)
    requires
        0 <= k <= j <= es.len(),
        repo_entries(es.take(k)) is Err,
    ensures
        repo_entries(es.take(j)) == repo_entries(es.take(k)),
    decreases j - k,
{
    if k < j {
        lemma_repo_entries_error_persists(es, k, j - 1);
        assert(es.take(j).drop_last() =~= es.take(j - 1));
    }
}

fn parse_repo_entry(entry: &str) -> (r: Result<Repo, String>)
    ensures
        match r {
            Ok(repo) => repo_entry(entry@) == Ok::<RepoView, Seq<char>>(repo@),
            Err(m) => repo_entry(entry@) == Err::<RepoView, Seq<char>>(m@),
        },
{
    match split_once(entry, '/') {
        None => Err(String::from_str("invalid repository '").concat(entry).concat(
            "', expected 'owner/repo'",
        )),
        Some((owner, name)) => {
            let owner = trim(owner);
            let name = trim(name);
            if owner.unicode_len() == 0 || name.unicode_len() == 0 {
                Err(String::from_str("invalid repository '").concat(entry).concat(
                    "', expected 'owner/repo'",
                ))
            } else {
                Ok(Repo { owner: String::from_str(owner), name: String::from_str(name) })
            }
        },
    }
}

/// Parses a list of `owner/repo` entries separated by commas, whitespace, or newlines.
pub fn parse_repos(raw: &str) -> (r: Result<RepoList, String>)
    ensures
        match r {
            Ok(list) => parsed_repos(raw@) == Ok::<Seq<RepoView>, Seq<char>>(list@),
            Err(m) => parsed_repos(raw@) == Err::<Seq<RepoView>, Seq<char>>(m@),
        },
{
    let entries = split_list(raw);
    let ghost es = list_entries(raw@);
    let mut repos: Vec<Repo> = Vec::new();
    let mut i: usize = 0;
    proof {
        assert(es.take(0) =~= Seq::<Seq<char>>::empty());
        assert(repos@.map_values(|x: Repo| x@) =~= Seq::<RepoView>::empty());
    }
    while i < entries.len()
        invariant
            es == list_entries(raw@),
            entries@.len() == es.len(),
            forall|k: int| 0 <= k < entries@.len() ==> #[trigger] entries@[k]@ == es[k],
            i <= entries@.len(),
            repo_entries(es.take(i as int)) == Ok::<Seq<RepoView>, Seq<char>>(
                repos@.map_values(|x: Repo| x@),
            ),
        decreases entries@.len() - i,
    {
        proof {
            assert(es.take(i + 1) =~= es.take(i as int).push(es[i as int]));
            lemma_repo_entries_push(es.take(i as int), es[i as int]);
        }
        let ghost prev = repos@;
        match parse_repo_entry(entries[i]) {
            Ok(repo) => {
                repos.push(repo);
                proof {
                    assert(repos@.map_values(|x: Repo| x@) =~= prev.map_values(|x: Repo| x@).push(
                        repo@,
                    ));
                }
            },
            Err(m) => {
                proof {
                    lemma_repo_entries_error_persists(es, (i + 1) as int, es.len() as int);
                    assert(es.take(es.len() as int) =~= es);
                }
                return Err(m);
            },
        }
        i = i + 1;
    }
    proof {
        assert(es.take(i as int) =~= es);
    }
    if repos.len() == 0 {
        return Err(String::from_str("no valid repositories provided"));
    }
    Ok(RepoList(repos))
}


/// The logins in order, keeping the first of those that are equal up to ASCII case.
pub open spec fn first_occurrences(logins: Seq<Seq<char>>) -> Seq<Seq<char>>
    decreases logins.len(),
{
    if logins.len() == 0 {
        Seq::empty()
    } else {
        let acc = first_occurrences(logins.drop_last());
        if exists|j: int| 0 <= j < acc.len() && eq_ignore_ascii_case(#[trigger] acc[j], logins.last()) {
            acc
        } else {
            acc.push(logins.last())
        }
    }
}

/// What `TRUSTED_USERS` parses to: its list entries, without repeats that differ
/// only in ASCII case.
pub open spec fn parsed_trusted_users(raw: Seq<char>) -> Seq<Seq<char>> {
    first_occurrences(list_entries(raw))
}

/// Parses a list of GitHub logins separated by commas, whitespace, or newlines.
/// Duplicates are removed (case-insensitively) while preserving the first
/// occurrence as it was written.
pub fn parse_trusted_users(raw: &str) -> (r: Result<TrustedUserList, String>)
    ensures
        r matches Ok(list) && list@ == parsed_trusted_users(raw@),
        r matches Ok(list) && forall|i: int, j: int|
            0 <= i < j < list@.len() ==> !ascii_case_variant(#[trigger] list@[i], #[trigger] list@[j]),
{
    let entries = split_list(raw);
    let ghost es = list_entries(raw@);
    let mut logins: Vec<String> = Vec::new();
    let mut seen: Vec<Vec<char>> = Vec::new();
    let mut i: usize = 0;
    proof {
        assert(es.take(0) =~= Seq::<Seq<char>>::empty());
        assert(logins@.map_values(|s: String| s@) =~= Seq::<Seq<char>>::empty());
    }
    while i < entries.len()
        invariant
            es == list_entries(raw@),
            entries@.len() == es.len(),
            forall|k: int| 0 <= k < entries@.len() ==> #[trigger] entries@[k]@ == es[k],
            i <= entries@.len(),
            logins@.map_values(|s: String| s@) == first_occurrences(es.take(i as int)),
            seen@.len() == logins@.len(),
            forall|k: int| 0 <= k < seen@.len() ==> #[trigger] seen@[k]@ == logins@[k]@,
        decreases entries@.len() - i,
    {
        let login = entries[i];
        let key = chars_of(login);
        let ghost acc = first_occurrences(es.take(i as int));
        proof {
            assert(es.take(i + 1).drop_last() =~= es.take(i as int));
            assert(es.take(i + 1).last() == es[i as int]);
        }
        let mut found = false;
        let mut j: usize = 0;
        while j < seen.len()
            invariant
                seen@.len() == acc.len(),
                forall|k: int| 0 <= k < seen@.len() ==> #[trigger] seen@[k]@ == acc[k],
                key@ == es[i as int],
                j <= seen@.len(),
                found == exists|k: int| 0 <= k < j && eq_ignore_ascii_case(#[trigger] acc[k], es[i as int]),
            decreases seen@.len() - j,
        {
            if chars_eq_ignore_ascii_case(&seen[j], &key) {
                found = true;
            }
            j = j + 1;
        }
        if !found {
            let ghost prev = logins@;
            logins.push(String::from_str(login));
            seen.push(key);
            proof {
                assert(logins@.map_values(|s: String| s@) =~= prev.map_values(|s: String| s@).push(
                    es[i as int],
                ));
            }
        }
        i = i + 1;
    }
    proof {
        assert(es.take(i as int) =~= es);
        law_trusted_users_case_insensitive(raw@);
    }
    Ok(TrustedUserList(logins))
}

/// Parses the `MERGE_METHOD` setting.
pub fn parse_merge_method(raw: &str) -> (r: Result<MergeMethod, String>)
    ensures
        match r {
            Ok(m) => MergeMethod::parsed(raw@) == Ok::<MergeMethod, Seq<char>>(m),
            Err(e) => MergeMethod::parsed(raw@) == Err::<MergeMethod, Seq<char>>(e@),
        },
{
    MergeMethod::from_name(raw)
}


/// The time zone that chrono-tz's compiled IANA table holds under exactly this
/// name, if any.
pub uninterp spec fn timezone_named(name: Seq<char>) -> Option<Tz>;

/// Calls `<chrono_tz::Tz as FromStr>::from_str`, which looks the name up, exactly
/// and case-sensitively, in chrono-tz's table of IANA zone names; the error it
/// returns carries no information and becomes `None`.
#[verifier::external_body]
fn timezone_from_name(name: &str) -> (r: Option<Tz>)
    ensures
        r == timezone_named(name@),
{
    match name.parse::<Tz>() {
        Ok(tz) => Some(tz),
        Err(_) => None,
    }
}

/// The message of a refused time zone.
pub open spec fn invalid_tz_message(raw: Seq<char>) -> Seq<char> {
    "invalid TZ '"@ + raw + "', expected an IANA name like 'UTC' or 'Europe/Rome'"@
}

/// The outcome of parsing `raw` once the zone table has answered `found` for its
/// trimmed text.
pub open spec fn tz_outcome(raw: Seq<char>, found: Option<Tz>) -> Result<Tz, Seq<char>> {
    if trimmed(raw).len() == 0 {
        Err("TZ must not be empty"@)
    } else {
        match found {
            Some(tz) => Ok(tz),
            None => Err(invalid_tz_message(raw)),
        }
    }
}

/// What `TZ` parses to: its trimmed text looked up in the zone table.
pub open spec fn parsed_tz(raw: Seq<char>) -> Result<Tz, Seq<char>> {
    tz_outcome(raw, timezone_named(trimmed(raw)))
}

/// Decides the outcome of parsing `raw`, given what the zone table answered for
/// its trimmed text.
pub fn tz_from_lookup(raw: &str, found: Option<Tz>) -> (r: Result<Tz, String>)
    ensures
        match r {
            Ok(tz) => tz_outcome(raw@, found) == Ok::<Tz, Seq<char>>(tz),
            Err(e) => tz_outcome(raw@, found) == Err::<Tz, Seq<char>>(e@),
        },
{
    if trim(raw).unicode_len() == 0 {
        return Err(String::from_str("TZ must not be empty"));
    }
    match found {
        Some(tz) => Ok(tz),
        None => Err(String::from_str("invalid TZ '").concat(raw).concat(
            "', expected an IANA name like 'UTC' or 'Europe/Rome'",
        )),
    }
}

/// Parses the `TZ` setting: an IANA zone name, with surrounding whitespace ignored.
pub fn parse_tz(raw: &str) -> (r: Result<Tz, String>)
    ensures
        match r {
            Ok(tz) => parsed_tz(raw@) == Ok::<Tz, Seq<char>>(tz),
            Err(e) => parsed_tz(raw@) == Err::<Tz, Seq<char>>(e@),
        },
{
    let trimmed_raw = trim(raw);
    if trimmed_raw.unicode_len() == 0 {
        return Err(String::from_str("TZ must not be empty"));
    }
    tz_from_lookup(raw, timezone_from_name(trimmed_raw))
}

/// Runtime configuration, as read from the environment.
#[derive(Debug)]
pub struct Config {
    /// GitHub token used to authenticate API calls.
    pub github_token: String,
    /// Repositories to watch.
    pub repos: RepoList,
    /// Cron expression controlling how often the watchdog runs
    /// (7 fields: `sec min hour day month day-of-week year`).
    pub cron: String,
    /// Merge method to use.
    pub merge_method: MergeMethod,
    /// IANA time zone the cron schedule is evaluated in.
    pub tz: Tz,
    /// Additional logins whose authored or approved pull requests may be merged.
    pub trusted_users: TrustedUserList,
}

impl Config {
    /// The checks a configuration must pass: a token that is not blank and at
    /// least one repository. `None` when both hold, else the message of the
    /// first that fails.
    pub open spec fn problem(token: Seq<char>, repo_count: nat) -> Option<Seq<char>> {
        if trimmed(token).len() == 0 {
            Some("GITHUB_TOKEN must not be empty"@)
        } else if repo_count == 0 {
            Some("WATCHED_REPOS did not contain any valid repositories"@)
        } else {
            None
        }
    }

    /// A token that is empty or all whitespace is refused first; any other token
    /// passes as soon as one repository is watched.
    pub proof fn law_blank_token_refused(token: Seq<char>, repo_count: nat)
        ensures
            (forall|i: int| 0 <= i < token.len() ==> is_white_space(#[trigger] token[i]))
                ==> Config::problem(token, repo_count) == Some("GITHUB_TOKEN must not be empty"@),
            (exists|i: int| 0 <= i < token.len() && !is_white_space(#[trigger] token[i]))
                && repo_count > 0 ==> Config::problem(token, repo_count) is None,
    {
        law_trimmed_empty_exactly_when_blank(token);
    }

    /// Accepts the configuration unchanged when it passes the checks, and
    /// otherwise refuses it with the message of the first failed check.
    pub fn validated(self) -> (r: Result<Config, String>)
        ensures
            match r {
                Ok(c) => Config::problem(self.github_token@, self.repos.0@.len()) is None && c == self,
                Err(e) => Config::problem(self.github_token@, self.repos.0@.len()) == Some(e@),
            },
    {
        if trim(self.github_token.as_str()).unicode_len() == 0 {
            return Err(String::from_str("GITHUB_TOKEN must not be empty"));
        }
        if self.repos.0.len() == 0 {
            return Err(String::from_str("WATCHED_REPOS did not contain any valid repositories"));
        }
        Ok(self)
    }
}


proof fn lemma_trimmed_part_clean(entry: Seq<char>, from: int, to: int)
    requires
        0 <= from <= to <= entry.len(),
        forall|j: int| 0 <= j < entry.len() ==> !is_list_separator(#[trigger] entry[j]),
        trimmed(entry.subrange(from, to)).len() > 0,
    ensures
        is_clean_entry(trimmed(entry.subrange(from, to))),
        forall|j: int| 0 <= j < trimmed(entry.subrange(from, to)).len() ==> exists|k: int|
            from <= k < to && #[trigger] trimmed(entry.subrange(from, to))[j] == entry[k],
{
    let part = entry.subrange(from, to);
    let (a, b) = lemma_trimmed_bounds(part);
    let t = trimmed(part);
    assert forall|j: int| 0 <= j < t.len() implies !is_list_separator(#[trigger] t[j]) by {
        assert(t[j] == entry[j + a + from]);
    }
    assert forall|j: int| 0 <= j < t.len() implies exists|k: int|
        from <= k < to && #[trigger] t[j] == entry[k] by {
        assert(t[j] == entry[j + a + from]);
    }
}

proof fn lemma_repo_entry_clean(entry: Seq<char>)
    requires
        forall|j: int| 0 <= j < entry.len() ==> !is_list_separator(#[trigger] entry[j]),
        repo_entry(entry) is Ok,
    ensures
        is_clean_entry(repo_entry(entry)->Ok_0.owner),
        is_clean_entry(repo_entry(entry)->Ok_0.name),
        !repo_entry(entry)->Ok_0.owner.contains('/'),
{
    let i = crate::text::lemma_halves_at_first(entry, '/');
    let owner = repo_entry(entry)->Ok_0.owner;
    assert(owner == trimmed(entry.subrange(0, i)));
    assert(repo_entry(entry)->Ok_0.name == trimmed(entry.subrange(i + 1, entry.len() as int)));
    lemma_trimmed_part_clean(entry, 0, i);
    lemma_trimmed_part_clean(entry, i + 1, entry.len() as int);
    if owner.contains('/') {
        let j = choose|j: int| 0 <= j < owner.len() && owner[j] == '/';
        let k = choose|k: int| 0 <= k < i && #[trigger] owner[j] == entry[k];
        assert(entry[k] != '/');
    }
}

proof fn lemma_repo_entries_from_entries(es: Seq<Seq<char>>)
    requires
        repo_entries(es) is Ok,
    ensures
        forall|r: int| #![trigger repo_entries(es)->Ok_0[r]] 0 <= r < repo_entries(es)->Ok_0.len() ==> exists|k: int|
            0 <= k < es.len() && repo_entry(#[trigger] es[k]) == Ok::<RepoView, Seq<char>>(
                repo_entries(es)->Ok_0[r],
            ),
    decreases es.len(),
{
    if es.len() > 0 {
        let q = es.drop_last();
        lemma_repo_entries_from_entries(q);
        let acc = repo_entries(q)->Ok_0;
        assert forall|r: int| #![trigger repo_entries(es)->Ok_0[r]] 0 <= r < repo_entries(es)->Ok_0.len() implies exists|k: int|
            0 <= k < es.len() && repo_entry(#[trigger] es[k]) == Ok::<RepoView, Seq<char>>(
                repo_entries(es)->Ok_0[r],
            ) by {
            if r < acc.len() {
                let k = choose|k: int| 0 <= k < q.len() && repo_entry(#[trigger] q[k]) == Ok::<RepoView, Seq<char>>(acc[r]);
                assert(es[k] == q[k]);
            } else {
                assert(es[es.len() - 1] == es.last());
            }
        }
    }
}

/// A parsed repository list is never empty, and every owner and name in it is
/// non-empty, trimmed and free of list separators; an owner holds no `/`.
pub proof fn law_parsed_repos_well_formed(raw: Seq<char>)
    ensures
        parsed_repos(raw) is Ok ==> {
            let rs = parsed_repos(raw)->Ok_0;
            &&& rs.len() > 0
            &&& forall|r: int| 0 <= r < rs.len() ==> {
                &&& is_clean_entry(#[trigger] rs[r].owner)
                &&& is_clean_entry(rs[r].name)
                &&& !rs[r].owner.contains('/')
            }
        },
{
    if parsed_repos(raw) is Ok {
        let es = list_entries(raw);
        lemma_list_entries_clean(raw);
        lemma_repo_entries_from_entries(es);
        let rs = parsed_repos(raw)->Ok_0;
        assert forall|r: int| 0 <= r < rs.len() implies {
            &&& is_clean_entry(#[trigger] rs[r].owner)
            &&& is_clean_entry(rs[r].name)
            &&& !rs[r].owner.contains('/')
        } by {
            let k = choose|k: int| 0 <= k < es.len() && repo_entry(#[trigger] es[k]) == Ok::<RepoView, Seq<char>>(rs[r]);
            assert(is_clean_entry(es[k]));
            lemma_repo_entry_clean(es[k]);
        }
    }
}

proof fn lemma_first_occurrences(logins: Seq<Seq<char>>)
    ensures
        forall|i: int, j: int|
            0 <= i < j < first_occurrences(logins).len() ==> !eq_ignore_ascii_case(
                #[trigger] first_occurrences(logins)[i],
                #[trigger] first_occurrences(logins)[j],
            ),
        forall|j: int| 0 <= j < first_occurrences(logins).len() ==> exists|k: int|
            0 <= k < logins.len() && #[trigger] first_occurrences(logins)[j] == logins[k],
        forall|k: int| 0 <= k < logins.len() ==> exists|j: int|
            0 <= j < first_occurrences(logins).len() && eq_ignore_ascii_case(
                #[trigger] first_occurrences(logins)[j],
                #[trigger] logins[k],
            ),
    decreases logins.len(),
{
    if logins.len() > 0 {
        let q = logins.drop_last();
        let x = logins.last();
        lemma_first_occurrences(q);
        let acc = first_occurrences(q);
        let res = first_occurrences(logins);
        assert forall|j: int| 0 <= j < res.len() implies exists|k: int|
            0 <= k < logins.len() && #[trigger] res[j] == logins[k] by {
            if j < acc.len() {
                let k = choose|k: int| 0 <= k < q.len() && #[trigger] acc[j] == q[k];
                assert(logins[k] == q[k]);
                assert(res[j] == acc[j]);
            } else {
                assert(res[j] == logins[logins.len() - 1]);
            }
        }
        assert forall|k: int| 0 <= k < logins.len() implies exists|j: int|
            0 <= j < res.len() && eq_ignore_ascii_case(#[trigger] res[j], #[trigger] logins[k]) by {
            if k < q.len() {
                assert(logins[k] == q[k]);
                let j = choose|j: int| 0 <= j < acc.len() && eq_ignore_ascii_case(#[trigger] acc[j], #[trigger] q[k]);
                assert(res[j] == acc[j]);
            } else {
                assert(logins[k] == x);
                if exists|j: int| 0 <= j < acc.len() && eq_ignore_ascii_case(#[trigger] acc[j], x) {
                    let j = choose|j: int| 0 <= j < acc.len() && eq_ignore_ascii_case(#[trigger] acc[j], x);
                    assert(res[j] == acc[j]);
                } else {
                    assert(res[acc.len() as int] == x);
                    assert(eq_ignore_ascii_case(x, x));
                }
            }
        }
        assert forall|i: int, j: int|
            0 <= i < j < res.len() implies !eq_ignore_ascii_case(#[trigger] res[i], #[trigger] res[j]) by {
            if j < acc.len() {
                assert(res[i] == acc[i] && res[j] == acc[j]);
            } else {
                assert(res[i] == acc[i]);
                assert(res[j] == x);
            }
        }
    }
}

/// The trusted logins hold no two that differ only in ASCII case; each of them is
/// an entry of the setting, and each entry is one of them up to ASCII case.
pub proof fn law_trusted_users_deduplicated(raw: Seq<char>)
    ensures
        forall|i: int, j: int|
            0 <= i < j < parsed_trusted_users(raw).len() ==> !eq_ignore_ascii_case(
                #[trigger] parsed_trusted_users(raw)[i],
                #[trigger] parsed_trusted_users(raw)[j],
            ),
        forall|j: int| 0 <= j < parsed_trusted_users(raw).len() ==> exists|k: int|
            0 <= k < list_entries(raw).len() && #[trigger] parsed_trusted_users(raw)[j]
                == list_entries(raw)[k],
        forall|k: int| 0 <= k < list_entries(raw).len() ==> exists|j: int|
            0 <= j < parsed_trusted_users(raw).len() && eq_ignore_ascii_case(
                #[trigger] parsed_trusted_users(raw)[j],
                #[trigger] list_entries(raw)[k],
            ),
{
    lemma_first_occurrences(list_entries(raw));
}


/// No two trusted logins are one login written in different ASCII case (such as
/// `zoe` and `Zoe`), and every entry of the setting is one of them, possibly with
/// some of its letters in the other case.
pub proof fn law_trusted_users_case_insensitive(raw: Seq<char>)
    ensures
        forall|i: int, j: int|
            0 <= i < j < parsed_trusted_users(raw).len() ==> !ascii_case_variant(
                #[trigger] parsed_trusted_users(raw)[i],
                #[trigger] parsed_trusted_users(raw)[j],
            ),
        forall|k: int| 0 <= k < list_entries(raw).len() ==> exists|j: int|
            0 <= j < parsed_trusted_users(raw).len() && ascii_case_variant(
                #[trigger] parsed_trusted_users(raw)[j],
                #[trigger] list_entries(raw)[k],
            ),
{
    let p = parsed_trusted_users(raw);
    let es = list_entries(raw);
    law_trusted_users_deduplicated(raw);
    assert forall|i: int, j: int| 0 <= i < j < p.len() implies !ascii_case_variant(
        #[trigger] p[i],
        #[trigger] p[j],
    ) by {
        law_eq_ignore_ascii_case_is_case_variants(p[i], p[j]);
    }
    assert forall|k: int| 0 <= k < es.len() implies exists|j: int|
        0 <= j < p.len() && ascii_case_variant(#[trigger] p[j], #[trigger] es[k]) by {
        let j = choose|j: int| 0 <= j < p.len() && eq_ignore_ascii_case(#[trigger] p[j], #[trigger] es[k]);
        law_eq_ignore_ascii_case_is_case_variants(p[j], es[k]);
    }
}

proof fn lemma_first_occurrences_first(logins: Seq<Seq<char>>)
    ensures
        logins.len() > 0 ==> first_occurrences(logins).len() > 0 && first_occurrences(logins)[0]
            == logins[0],
    decreases logins.len(),
{
    if logins.len() > 0 {
        let q = logins.drop_last();
        lemma_first_occurrences_first(q);
        if q.len() > 0 {
            assert(q[0] == logins[0]);
        }
    }
}

proof fn lemma_no_variant_in_firsts(q: Seq<Seq<char>>, x: Seq<char>)
    requires
        forall|i: int| 0 <= i < q.len() ==> !eq_ignore_ascii_case(#[trigger] q[i], x),
    ensures
        forall|j: int|
            0 <= j < first_occurrences(q).len() ==> !eq_ignore_ascii_case(
                #[trigger] first_occurrences(q)[j],
                x,
            ),
{
    lemma_first_occurrences(q);
    let acc = first_occurrences(q);
    assert forall|j: int| 0 <= j < acc.len() implies !eq_ignore_ascii_case(#[trigger] acc[j], x) by {
        let i = choose|i: int| 0 <= i < q.len() && #[trigger] acc[j] == q[i];
        assert(!eq_ignore_ascii_case(q[i], x));
    }
}

proof fn lemma_first_occurrences_keep_first(logins: Seq<Seq<char>>, k: int)
    requires
        0 <= k < logins.len(),
        forall|i: int| 0 <= i < k ==> !eq_ignore_ascii_case(#[trigger] logins[i], logins[k]),
    ensures
        exists|j: int|
            0 <= j < first_occurrences(logins).len() && #[trigger] first_occurrences(logins)[j]
                == logins[k],
    decreases logins.len(),
{
    let q = logins.drop_last();
    let x = logins.last();
    let acc = first_occurrences(q);
    let res = first_occurrences(logins);
    if k < q.len() {
        assert(logins[k] == q[k]);
        assert forall|i: int| 0 <= i < k implies !eq_ignore_ascii_case(#[trigger] q[i], q[k]) by {
            assert(q[i] == logins[i]);
        }
        lemma_first_occurrences_keep_first(q, k);
        let j = choose|j: int| 0 <= j < acc.len() && #[trigger] acc[j] == q[k];
        assert(res[j] == acc[j]);
    } else {
        assert(logins[k] == x);
        assert forall|i: int| 0 <= i < q.len() implies !eq_ignore_ascii_case(#[trigger] q[i], x) by {
            assert(q[i] == logins[i]);
        }
        lemma_no_variant_in_firsts(q, x);
        assert(res[acc.len() as int] == x);
    }
}

/// Of logins that differ only in ASCII case, the one written first is kept as it
/// was written: every entry with no case variant before it is a trusted login,
/// and the first entry of the setting is the first trusted login.
pub proof fn law_trusted_users_keep_first_spelling(raw: Seq<char>)
    ensures
        forall|k: int|
            0 <= k < list_entries(raw).len() && (forall|i: int|
                0 <= i < k ==> !eq_ignore_ascii_case(#[trigger] list_entries(raw)[i], list_entries(raw)[k]))
                ==> exists|j: int|
                0 <= j < parsed_trusted_users(raw).len() && parsed_trusted_users(raw)[j]
                    == #[trigger] list_entries(raw)[k],
        list_entries(raw).len() > 0 ==> parsed_trusted_users(raw).len() > 0
            && parsed_trusted_users(raw)[0] == list_entries(raw)[0],
{
    let es = list_entries(raw);
    assert forall|k: int|
        0 <= k < es.len() && (forall|i: int| 0 <= i < k ==> !eq_ignore_ascii_case(#[trigger] es[i], es[k]))
        implies exists|j: int|
        0 <= j < parsed_trusted_users(raw).len() && parsed_trusted_users(raw)[j] == #[trigger] es[k] by {
        lemma_first_occurrences_keep_first(es, k);
        let j = choose|j: int|
            0 <= j < first_occurrences(es).len() && #[trigger] first_occurrences(es)[j] == es[k];
        assert(parsed_trusted_users(raw)[j] == es[k]);
    }
    lemma_first_occurrences_first(es);
}

proof fn lemma_first_occurrences_of_distinct(xs: Seq<Seq<char>>)
    requires
        forall|i: int, j: int|
            0 <= i < j < xs.len() ==> !eq_ignore_ascii_case(#[trigger] xs[i], #[trigger] xs[j]),
    ensures
        first_occurrences(xs) == xs,
    decreases xs.len(),
{
    if xs.len() > 0 {
        let q = xs.drop_last();
        assert forall|i: int, j: int|
            0 <= i < j < q.len() implies !eq_ignore_ascii_case(#[trigger] q[i], #[trigger] q[j]) by {
            assert(q[i] == xs[i] && q[j] == xs[j]);
        }
        lemma_first_occurrences_of_distinct(q);
        assert forall|j: int| 0 <= j < q.len() implies !eq_ignore_ascii_case(#[trigger] q[j], xs.last()) by {
            assert(q[j] == xs[j]);
            assert(xs.last() == xs[xs.len() - 1]);
        }
        assert(q.push(xs.last()) =~= xs);
    }
}

/// Joining the trusted logins with commas and parsing the result again gives the
/// same logins.
pub proof fn law_trusted_users_round_trip(raw: Seq<char>)
    ensures
        parsed_trusted_users(joined(parsed_trusted_users(raw), ',')) == parsed_trusted_users(raw),
{
    let l = parsed_trusted_users(raw);
    let es = list_entries(raw);
    law_trusted_users_deduplicated(raw);
    lemma_list_entries_clean(raw);
    assert forall|j: int| 0 <= j < l.len() implies is_clean_entry(#[trigger] l[j]) by {
        let k = choose|k: int| 0 <= k < es.len() && #[trigger] l[j] == es[k];
        assert(is_clean_entry(es[k]));
    }
    lemma_list_entries_of_joined(l);
    lemma_first_occurrences_of_distinct(l);
}

/// A repository as written in the setting: `owner/name`.
pub open spec fn repo_text(r: RepoView) -> Seq<char> {
    r.owner + "/"@ + r.name
}

proof fn lemma_repo_text_clean(r: RepoView)
    requires
        is_clean_entry(r.owner),
        is_clean_entry(r.name),
    ensures
        is_clean_entry(repo_text(r)),
{
    reveal_strlit("/");
    let o = r.owner;
    let n = r.name;
    let t = repo_text(r);
    assert(t =~= o + seq!['/'] + n);
    let (a, b) = lemma_trimmed_bounds(o);
    let (c, d) = lemma_trimmed_bounds(n);
    assert(!is_white_space(o[0]));
    assert(!is_white_space(n.last()));
    assert(t[0] == o[0]);
    assert(t.last() == n.last());
    lemma_trimmed_fixed(t);
    assert forall|i: int| 0 <= i < t.len() implies !is_list_separator(#[trigger] t[i]) by {
        if i < o.len() {
            assert(t[i] == o[i]);
        } else if i > o.len() {
            assert(t[i] == n[i - o.len() - 1]);
        }
    }
}

proof fn lemma_repo_text_entry(r: RepoView)
    requires
        is_clean_entry(r.owner),
        is_clean_entry(r.name),
        !r.owner.contains('/'),
    ensures
        repo_entry(repo_text(r)) == Ok::<RepoView, Seq<char>>(r),
{
    reveal_strlit("/");
    let o = r.owner;
    let n = r.name;
    let t = repo_text(r);
    assert(t =~= o + seq!['/'] + n);
    assert(t[o.len() as int] == '/');
    assert(halves_at_first(t, '/') is Some);
    let i = lemma_halves_at_first(t, '/');
    if i < o.len() {
        assert(t[i] == o[i]);
        assert(o.contains('/'));
    }
    assert(i == o.len());
    assert(t.subrange(0, i) =~= o);
    assert(t.subrange(i + 1, t.len() as int) =~= n);
    assert(trimmed(o) == o);
    assert(trimmed(n) == n);
}

proof fn lemma_repo_entries_all_ok(xs: Seq<Seq<char>>, ys: Seq<RepoView>)
    requires
        xs.len() == ys.len(),
        forall|k: int| 0 <= k < xs.len() ==> repo_entry(#[trigger] xs[k]) == Ok::<RepoView, Seq<char>>(ys[k]),
    ensures
        repo_entries(xs) == Ok::<Seq<RepoView>, Seq<char>>(ys),
    decreases xs.len(),
{
    if xs.len() > 0 {
        let q = xs.drop_last();
        let p = ys.drop_last();
        assert forall|k: int| 0 <= k < q.len() implies repo_entry(#[trigger] q[k]) == Ok::<RepoView, Seq<char>>(p[k]) by {
            assert(q[k] == xs[k]);
            assert(p[k] == ys[k]);
        }
        lemma_repo_entries_all_ok(q, p);
        assert(repo_entry(xs[xs.len() - 1]) == Ok::<RepoView, Seq<char>>(ys[ys.len() - 1]));
        assert(p.push(ys.last()) =~= ys);
    } else {
        assert(ys =~= Seq::<RepoView>::empty());
    }
}

/// Writing the parsed repositories back as `owner/name` joined with commas and
/// parsing that again gives the same repositories, in the same order.
pub proof fn law_repo_list_round_trip(raw: Seq<char>)
    ensures
        parsed_repos(raw) is Ok ==> parsed_repos(
            joined(parsed_repos(raw)->Ok_0.map_values(|r: RepoView| repo_text(r)), ','),
        ) == parsed_repos(raw),
{
    if parsed_repos(raw) is Ok {
        let rs = parsed_repos(raw)->Ok_0;
        law_parsed_repos_well_formed(raw);
        let ts = rs.map_values(|r: RepoView| repo_text(r));
        assert forall|k: int| 0 <= k < ts.len() implies is_clean_entry(#[trigger] ts[k]) by {
            lemma_repo_text_clean(rs[k]);
        }
        lemma_list_entries_of_joined(ts);
        assert forall|k: int| 0 <= k < ts.len() implies repo_entry(#[trigger] ts[k]) == Ok::<RepoView, Seq<char>>(rs[k]) by {
            lemma_repo_text_entry(rs[k]);
        }
        lemma_repo_entries_all_ok(ts, rs);
    }
}

} // verus!
