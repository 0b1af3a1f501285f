# pr-watchdog

A service that watches GitHub repositories and, on a cron schedule, merges the
open pull requests that a trusted login (the authenticated user or anyone in
`TRUSTED_USERS`) created or approved once GitHub reports them clean and
mergeable, and updates the branches of trusted pull requests that are behind
their base branch. Drafts are always skipped.

Layout:

- `src/` — the verified library:
  - `text.rs`: trimming, list splitting, ASCII case folding, decimal text;
  - `config.rs`: parsing of `WATCHED_REPOS`, `TRUSTED_USERS`, `MERGE_METHOD`, `TZ`
    and the checks on a complete configuration;
  - `github.rs`: pull-request and review records, approval evaluation, endpoints,
    response classification, the retry policy and pagination;
  - `watcher.rs`: the per-pull-request decision steps and their laws.
- `app/` — the process: environment and command line (clap), the HTTP client
  (reqwest), JSON decoding (serde), logging (tracing) and the scheduler
  (tokio-cron-scheduler). It performs the requests the library's steps ask for.
- `tests/` — tests of the library.
