//! The service configuration, as plain values. Reading and parsing the
//! configuration file, and resolving its relative paths against the
//! file's directory, stay with the caller; the defaults and the branch
//! check live here.
use vstd::prelude::*;

verus! {

/// Default grace period after an update, in seconds.
pub const DEFAULT_UPDATE_TIMEOUT: u64 = 600;

/// Default heartbeat ceiling, in seconds.
pub const DEFAULT_NO_UPDATE_TIMEOUT: u64 = 86400;

/// Coverage-report generation settings.
#[derive(Clone)]
pub struct KCov {
    pub kcov_args: Vec<String>,
}

impl KCov {
    pub fn new(kcov_args: Vec<String>) -> (r: KCov)
        ensures
            r.kcov_args == kcov_args,
    {
        KCov { kcov_args }
    }
}

/// One fuzzing project: where it lies and which targets it builds.
#[derive(Clone)]
pub struct Honggfuzz {
    pub path: Option<String>,
    pub targets: Vec<String>,
}

impl Honggfuzz {
    pub fn new(path: Option<String>, targets: Vec<String>) -> (r: Honggfuzz)
        ensures
            r.path == path,
            r.targets == targets,
    {
        Honggfuzz { path, targets }
    }
}

/// Chat delivery settings.
#[derive(Clone)]
pub struct Slack {
    pub channel: String,
    pub token: String,
}

impl Slack {
    pub fn new(channel: String, token: String) -> (r: Slack)
        ensures
            r.channel == channel,
            r.token == token,
    {
        Slack { channel, token }
    }
}

/// The debounce timeouts of periodic feedback, in seconds.
#[derive(Clone, Copy, PartialEq, Eq, Structural, Debug)]
pub struct Feedback {
    pub update_timeout: u64,
    pub no_update_timeout: u64,
}

impl Feedback {
    pub fn new(update_timeout: u64, no_update_timeout: u64) -> (r: Feedback)
        ensures
            r.update_timeout == update_timeout,
            r.no_update_timeout == no_update_timeout,
    {
        Feedback { update_timeout, no_update_timeout }
    }

    pub fn default_update_timeout() -> (r: u64)
        ensures
            r == DEFAULT_UPDATE_TIMEOUT,
    {
        DEFAULT_UPDATE_TIMEOUT
    }

    pub fn default_no_update_timeout() -> (r: u64)
        ensures
            r == DEFAULT_NO_UPDATE_TIMEOUT,
    {
        DEFAULT_NO_UPDATE_TIMEOUT
    }
}

impl Default for Feedback {
    fn default() -> (r: Feedback)
        ensures
            r.update_timeout == DEFAULT_UPDATE_TIMEOUT,
            r.no_update_timeout == DEFAULT_NO_UPDATE_TIMEOUT,
    {
        Feedback {
            update_timeout: DEFAULT_UPDATE_TIMEOUT,
            no_update_timeout: DEFAULT_NO_UPDATE_TIMEOUT,
        }
    }
}

/// The whole service configuration, with paths and the base URL as
/// plain strings.
#[derive(Clone)]
pub struct Config {
    pub address: String,
    pub url: Option<String>,
    pub branches: Vec<String>,
    pub corpus: Option<String>,
    pub kcov: Option<KCov>,
    pub honggfuzz: Vec<(String, Honggfuzz)>,
    pub feedback: Feedback,
    pub slack: Option<Slack>,
    pub reports_path: String,
}

/// The fuzzer arguments one target runs with: the configured run
/// arguments, extended with the corpus input directory when one is set.
pub fn hfuzz_run_args(run_args: &str, corpus: &Option<String>) -> (r: String)
    ensures
        match corpus {
            Some(c) => r@ == run_args@ + " -i "@ + c@,
            None => r@ == run_args@,
        },
{
    let mut out = run_args.to_owned();
    match corpus {
        Some(c) => {
            out.append(" -i ");
            out.append(c.as_str());
        },
        None => {},
    }
    out
}

/// The run-arguments environment value for one invocation: the
/// invocation's own flags, then the target's run arguments.
pub fn hfuzz_env_args(flags: &str, run_args: &str) -> (r: String)
    ensures
        r@ == flags@ + " "@ + run_args@,
{
    let mut out = flags.to_owned();
    out.append(" ");
    out.append(run_args);
    out
}

/// Whether a push's branch is among the configured ones.
pub fn contains_branch(branches: &Vec<String>, branch: &str) -> (r: bool)
    ensures
        r == exists|i: int| 0 <= i < branches@.len() && (#[trigger] branches@[i])@ == branch@,
{
    let n = branches.len();
    let mut i: usize = 0;
    while i < n
        invariant
            0 <= i <= n,
            n == branches@.len(),
            forall|k: int| 0 <= k < i ==> (#[trigger] branches@[k])@ != branch@,
        decreases n - i,
    {
        if crate::text::str_eq(branches[i].as_str(), branch) {
            return true;
        }
        i = i + 1;
    }
    false
}

} // verus!
