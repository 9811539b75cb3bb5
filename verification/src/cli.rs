//! The command line: its arguments as plain values, and the decisions made
//! on them (log level, refspecs).
use crate::text::chars_of;
use crate::text::decimal_text;
use crate::text::has_char;
use crate::text::has_prefix;
use crate::text::push_all;
use crate::text::split_once;
use crate::text::split_once_chars;
use crate::text::starts_with;
use crate::text::string_of;
use crate::text::sub_chars;
use crate::text::usize_to_decimal;
use vstd::prelude::*;

verus! {

/// The verbosity used when none is given.
pub const VERBOSITY_DEFAULT: u8 = 3;

/// The highest verbosity.
pub const VERBOSITY_MAX: u8 = 5;

/// Which log messages to show, from none to all.
#[derive(Clone, Copy, Debug, PartialEq, Eq, PartialOrd, Ord)]
pub enum LevelFilter {
    Off,
    Error,
    Warn,
    Info,
    Debug,
    Trace,
}

/// The level filters in order of verbosity.
pub open spec fn level_at(v: int) -> LevelFilter {
    if v == 0 {
        LevelFilter::Off
    } else if v == 1 {
        LevelFilter::Error
    } else if v == 2 {
        LevelFilter::Warn
    } else if v == 3 {
        LevelFilter::Info
    } else if v == 4 {
        LevelFilter::Debug
    } else {
        LevelFilter::Trace
    }
}

/// The log verbosity options: `-v` (counted), `--verbosity` and `-q`.
#[derive(Debug)]
pub struct LogLevelArg {
    pub verbose_increment: u8,
    pub verbosity: u8,
    pub quiet: bool,
}

/// The error message for a verbosity above the maximum.
pub open spec fn too_high_verbosity_text(v: nat) -> Seq<char> {
    seq!['T', 'o', 'o', ' ', 'h', 'i', 'g', 'h', ' ', 'v', 'e', 'r', 'b', 'o', 's', 'i', 't', 'y', ' ', 'l', 'e', 'v', 'e', 'l', ' ']
        + decimal_text(v) + seq![',', ' ', 'm', 'a', 'x', 'i', 'm', 'u', 'm', ' ', 'i', 's', ' ', '5']
}

impl LogLevelArg {
    /// The log level: none when quiet, else the verbosity plus the number of
    /// `-v`, as an index into `Off, Error, Warn, Info, Debug, Trace`.
    pub fn value(&self) -> (r: Result<LevelFilter, String>)
        requires
            self.quiet || self.verbosity + self.verbose_increment <= 255,
        ensures
            ({
                let v = if self.quiet {
                    0
                } else {
                    self.verbosity + self.verbose_increment
                };
                if v <= 5 {
                    r == Ok::<LevelFilter, String>(level_at(v))
                } else {
                    r matches Err(m) && m@ == too_high_verbosity_text(v as nat)
                }
            }),
    {
        let verbosity: usize = if self.quiet {
            0
        } else {
            (self.verbosity + self.verbose_increment) as usize
        };
        if verbosity == 0 {
            Ok(LevelFilter::Off)
        } else if verbosity == 1 {
            Ok(LevelFilter::Error)
        } else if verbosity == 2 {
            Ok(LevelFilter::Warn)
        } else if verbosity == 3 {
            Ok(LevelFilter::Info)
        } else if verbosity == 4 {
            Ok(LevelFilter::Debug)
        } else if verbosity == 5 {
            Ok(LevelFilter::Trace)
        } else {
            let mut m = chars_of("Too high verbosity level ");
            push_all(&mut m, &usize_to_decimal(verbosity));
            push_all(&mut m, &chars_of(", maximum is 5"));
            proof {
                reveal_strlit("Too high verbosity level ");
                reveal_strlit(", maximum is 5");
                assert(m@ =~= too_high_verbosity_text(verbosity as nat));
            }
            Err(string_of(&m))
        }
    }
}

/// The command line.
#[derive(Debug)]
pub struct Cli {
    /// Run as if started in this path.
    pub working_directory: Option<String>,
    pub log_level: LogLevelArg,
    pub show_progress: bool,
    pub command: GitAndCommands,
}

/// A command, possibly after the ignored word `git`, which makes it simple
/// to paste copied commands such as `git-toprepo git fetch ...`.
#[derive(Debug)]
pub enum GitAndCommands {
    Git(Commands),
    Command(Commands),
}

impl GitAndCommands {
    /// The inner command.
    pub fn actual(&self) -> (r: &Commands)
        ensures
            match self {
                GitAndCommands::Git(c) => r == c,
                GitAndCommands::Command(c) => r == c,
            },
    {
        match self {
            GitAndCommands::Git(cmd) => cmd,
            GitAndCommands::Command(cmd) => cmd,
        }
    }
}

/// The subcommands.
#[derive(Debug)]
pub enum Commands {
    /// Initialize a repository and the git-config, without fetching.
    Init(Init),
    /// Initialize a repository and fetch from the remote.
    Clone(Clone),
    /// Manage the git-toprepo configuration.
    Config(Config),
    /// Rerun the history combination and submodule content expansion.
    Recombine(Recombine),
    /// Fetch commits from the top repository and expand submodules.
    Fetch(Fetch),
    /// Push commits to the respective remotes of each filtered submodule.
    Push(Push),
    /// Show information about git-toprepo in the current repository.
    Info(Info),
    Dump(Dump),
    /// Print the version of the tool.
    Version,
}

#[derive(Debug)]
pub struct Init {
    /// The repository to be configured as remote.
    pub repository: String,
    /// The directory to create the repository in; by default the basename
    /// of the repository.
    pub directory: Option<String>,
    /// Initialize even if the target directory is not empty.
    pub force: bool,
}

#[derive(Debug)]
pub struct Clone {
    pub init: Init,
    pub recombine: Recombine,
    /// After fetching the top repository, skip fetching the submodules.
    pub minimal: bool,
}

#[derive(Debug, PartialEq, Eq)]
pub enum Config {
    /// Prints the configuration location.
    Location,
    /// Show the configuration of the current repository.
    Show,
    /// Create a configuration based on direct submodules only.
    Bootstrap,
    /// Reads a configuration and prints it in normalized form.
    Normalize(ConfigNormalize),
    /// Verifies that a given configuration can be loaded.
    Validate(ConfigValidate),
}

#[derive(Debug, PartialEq, Eq)]
pub struct ConfigNormalize {
    /// The configuration file to normalize, or `-` for stdin.
    pub file: String,
}

#[derive(Debug, PartialEq, Eq)]
pub struct ConfigValidate {
    /// The configuration file to validate, or `-` for stdin.
    pub file: String,
}

#[derive(Debug)]
pub struct Info {
    pub value: Option<InfoValue>,
    /// Exit with code 3 if the repository is not initialized by git-toprepo.
    pub is_emulated_monorepo: bool,
}

impl Info {
    /// The exit code for `git-toprepo info --<flag>` when the answer is
    /// "false".
    pub const EXIT_CODE_FALSE: u8 = 3;
}

/// What `git-toprepo info` prints.
#[derive(Debug, Clone, Copy, PartialEq, Eq)]
pub enum InfoValue {
    ConfigLocation,
    CurrentWorktree,
    GitDir,
    ImportCache,
    MainWorktree,
    Version,
}

pub open spec fn info_value_text(v: InfoValue) -> Seq<char> {
    match v {
        InfoValue::ConfigLocation => seq!['c', 'o', 'n', 'f', 'i', 'g', '-', 'l', 'o', 'c', 'a', 't', 'i', 'o', 'n'],
        InfoValue::CurrentWorktree => seq!['c', 'u', 'r', 'r', 'e', 'n', 't', '-', 'w', 'o', 'r', 'k', 't', 'r', 'e', 'e'],
        InfoValue::GitDir => seq!['g', 'i', 't', '-', 'd', 'i', 'r'],
        InfoValue::ImportCache => seq!['i', 'm', 'p', 'o', 'r', 't', '-', 'c', 'a', 'c', 'h', 'e'],
        InfoValue::MainWorktree => seq!['m', 'a', 'i', 'n', '-', 'w', 'o', 'r', 'k', 't', 'r', 'e', 'e'],
        InfoValue::Version => seq!['v', 'e', 'r', 's', 'i', 'o', 'n'],
    }
}

impl InfoValue {
    /// Every value, in the order of the command line help.
    pub fn all_variants() -> (r: Vec<InfoValue>)
        ensures
            r@ == seq![
                InfoValue::ConfigLocation,
                InfoValue::CurrentWorktree,
                InfoValue::GitDir,
                InfoValue::ImportCache,
                InfoValue::MainWorktree,
                InfoValue::Version,
            ],
    {
        let r = vec![
            InfoValue::ConfigLocation,
            InfoValue::CurrentWorktree,
            InfoValue::GitDir,
            InfoValue::ImportCache,
            InfoValue::MainWorktree,
            InfoValue::Version,
        ];
        assert(r@ =~= seq![
            InfoValue::ConfigLocation,
            InfoValue::CurrentWorktree,
            InfoValue::GitDir,
            InfoValue::ImportCache,
            InfoValue::MainWorktree,
            InfoValue::Version,
        ]);
        r
    }

    /// The kebab-case name of the value, as given on the command line.
    pub fn as_str(&self) -> (r: &'static str)
        ensures
            r@ == info_value_text(*self),
    {
        match self {
            InfoValue::ConfigLocation => {
                proof {
                    reveal_strlit("config-location");
                }
                "config-location"
            },
            InfoValue::CurrentWorktree => {
                proof {
                    reveal_strlit("current-worktree");
                }
                "current-worktree"
            },
            InfoValue::GitDir => {
                proof {
                    reveal_strlit("git-dir");
                }
                "git-dir"
            },
            InfoValue::ImportCache => {
                proof {
                    reveal_strlit("import-cache");
                }
                "import-cache"
            },
            InfoValue::MainWorktree => {
                proof {
                    reveal_strlit("main-worktree");
                }
                "main-worktree"
            },
            InfoValue::Version => {
                proof {
                    reveal_strlit("version");
                }
                "version"
            },
        }
    }
}

/// Dumps of internal state, not to be scripted against.
#[derive(Debug)]
pub enum Dump {
    /// Prints the current working directory, after resolving `-C`.
    Cwd,
    /// Dump the repository import cache as JSON.
    ImportCache(DumpImportCache),
    /// Dump the git submodule path mappings to remote projects.
    GitModules,
}

#[derive(Debug)]
pub struct DumpImportCache {
    /// The cache file to dump, `-` for stdin, or none to find it.
    pub file: Option<String>,
}

#[derive(Debug)]
pub struct Recombine {
    /// Continue as much as possible after an error.
    pub keep_going: bool,
    /// Number of concurrent threads to load the repository.
    pub job_count: u16,
    /// Skip fetching missing submodule commits.
    pub no_fetch: bool,
    /// Reuse information from the cache.
    pub use_cache: bool,
}

#[derive(Debug)]
pub struct Fetch {
    /// Continue as much as possible after an error.
    pub keep_going: bool,
    /// Number of concurrent threads to fetch and filter.
    pub job_count: u16,
    /// Skip combining the history after fetching the top repository.
    pub skip_combine: bool,
    /// A git-remote of the monorepo, or the URL of the top repository or of
    /// a submodule.
    pub remote: Option<String>,
    /// The worktree path to filter into.
    pub path: Option<String>,
    /// The references to fetch, as `(remote ref, local ref)`.
    pub refspecs: Option<Vec<(String, String)>>,
}

#[derive(Debug)]
pub struct Push {
    /// Print the push commands but do not execute them.
    pub dry_run: bool,
    /// Stop pushing on the first error.
    pub fail_fast: bool,
    /// Number of concurrent threads to load the repository.
    pub job_count: u16,
    /// Forward `--force` to `git push`.
    pub force: bool,
    /// The git-remote or URL of the top repository to push to.
    pub top_remote: String,
    /// The references to push, as `(local ref, remote ref)`.
    pub refspecs: Vec<(String, String)>,
}

pub open spec fn refs_prefix() -> Seq<char> {
    seq!['r', 'e', 'f', 's', '/']
}

pub open spec fn refs_heads_prefix() -> Seq<char> {
    seq!['r', 'e', 'f', 's', '/', 'h', 'e', 'a', 'd', 's', '/']
}

pub open spec fn fetch_head() -> Seq<char> {
    seq!['F', 'E', 'T', 'C', 'H', '_', 'H', 'E', 'A', 'D']
}

/// The refspec `lhs:rhs` read as a pair, `rhs` under `refs/heads/` unless
/// it starts with `refs/`; a refspec without `:` fetches the ref, forced,
/// into `FETCH_HEAD`. `None` for a second `:`.
pub open spec fn spec_parse_refspec(refspec: Seq<char>) -> Option<(Seq<char>, Seq<char>)> {
    match split_once(refspec, ':') {
        Some((lhs, rhs)) => if has_char(rhs, ':') {
            None
        } else if has_prefix(rhs, refs_prefix()) {
            Some((lhs, rhs))
        } else {
            Some((lhs, refs_heads_prefix() + rhs))
        },
        None => {
            let remote_ref = if refspec.len() > 0 && refspec[0] == '+' {
                refspec.skip(1)
            } else {
                refspec
            };
            Some((seq!['+'] + remote_ref, fetch_head()))
        },
    }
}

/// Parses a refspec given on the command line.
pub fn parse_refspec(refspec: &str) -> (r: Result<(String, String), String>)
    ensures
        match spec_parse_refspec(refspec@) {
            Some((a, b)) => r matches Ok(p) && p.0@ == a && p.1@ == b,
            None => r is Err,
        },
{
    let c = chars_of(refspec);
    match split_once_chars(&c, ':') {
        Some((lhs, rhs)) => {
            match crate::text::find_char_from(&rhs, ':', 0) {
                Some(_) => {
                    return Err(string_of(&chars_of("Invalid refspec")));
                },
                None => {},
            }
            let rp = chars_of("refs/");
            proof {
                reveal_strlit("refs/");
                reveal_strlit("refs/heads/");
                assert(rp@ =~= refs_prefix());
            }
            if starts_with(&rhs, &rp) {
                Ok((string_of(&lhs), string_of(&rhs)))
            } else {
                let mut full = chars_of("refs/heads/");
                push_all(&mut full, &rhs);
                assert(full@ =~= refs_heads_prefix() + rhs@);
                Ok((string_of(&lhs), string_of(&full)))
            }
        },
        None => {
            let start: usize = if c.len() > 0 && c[0] == '+' {
                1
            } else {
                0
            };
            let rest = sub_chars(&c, start, c.len());
            let mut l: Vec<char> = Vec::new();
            l.push('+');
            push_all(&mut l, &rest);
            proof {
                reveal_strlit("FETCH_HEAD");
                if start == 0 {
                    assert(rest@ =~= refspec@);
                } else {
                    assert(rest@ =~= refspec@.skip(1));
                }
                assert(l@ =~= seq!['+'] + rest@);
            }
            let h = chars_of("FETCH_HEAD");
            assert(h@ =~= fetch_head());
            Ok((string_of(&l), string_of(&h)))
        },
    }
}

} // verus!
