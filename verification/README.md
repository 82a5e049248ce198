# tayra

Suggests the next semantic version of a git repository from its Conventional
Commits history, and optionally tags HEAD with it.

- `src/` is the library, verified with Verus:
  - `text.rs`: characters of strings, Unicode whitespace trimming, searching,
    `split`/`lines`/`join`, decimal numerals (formatting and `u64` parsing).
  - `version.rs`: `SemVer`, `BumpLevel`, `VersionTag`; parsing and printing of
    versions, bumping.
  - `precedence.rs`: the order of versions (`PartialOrd` for `SemVer`).
  - `commits.rs`: parsing of commit messages, bump levels, the per-type breakdown.
  - `git_ops.rs`: the decisions about a repository: latest version tag among tag
    names, commits since the tag in a history walk, the tag prefix to use.
  - `output.rs`: the suggested bump and version, the CI output and the full report.
- `app/main.rs` is the command line: argument parsing, reading the repository with
  `git2`, printing, and creating the tag.
- `tests/` holds the tests of the library.
