//! Application settings from environment values (12-factor), overridden by
//! positional command-line arguments `vc [urls.json] [output_dir]
//! [max_per_file]`.
//!
//! - `VC_URLS_PATH`: path of `urls.json` (default `urls.json`);
//! - `VC_OUTPUT_DIR`: directory for `N.txt` (default `output`);
//! - `VC_TIMEOUT_SECS`: timeout of one HTTP request in seconds (default 120);
//! - `VC_MAX_PER_FILE`: most configurations in one output file (default 500;
//!   larger subscriptions are cut into `{id}-{n}.txt`).

use vstd::prelude::*;
use crate::splitter::DEFAULT_MAX_PER_FILE;
use crate::text::{blank, chars_of, is_blank, parse_unsigned, parse_unsigned_exec, string_of, trim, trimmed};

verus! {

/// The default path of the source list.
pub const DEFAULT_URLS: &'static str = "urls.json";

/// The default output directory.
pub const DEFAULT_OUTPUT: &'static str = "output";

/// The default timeout of one HTTP request, in seconds.
pub const DEFAULT_TIMEOUT_SECS: u64 = 120;

/// The settings of one run.
#[derive(Debug, Clone, PartialEq, Eq)]
pub struct Settings {
    pub urls_path: String,
    pub output_dir: String,
    pub timeout_secs: u64,
    pub max_per_file: usize,
}

impl Default for Settings {
    fn default() -> (s: Self)
        ensures
            s.urls_path@ == DEFAULT_URLS@,
            s.output_dir@ == DEFAULT_OUTPUT@,
            s.timeout_secs == DEFAULT_TIMEOUT_SECS,
            s.max_per_file == DEFAULT_MAX_PER_FILE,
    {
        Settings {
            urls_path: string_of(&chars_of(DEFAULT_URLS)),
            output_dir: string_of(&chars_of(DEFAULT_OUTPUT)),
            timeout_secs: DEFAULT_TIMEOUT_SECS,
            max_per_file: DEFAULT_MAX_PER_FILE,
        }
    }
}

/// An optional string as plain text.
pub open spec fn opt_view(o: Option<String>) -> Option<Seq<char>> {
    match o {
        Some(s) => Some(s@),
        None => None,
    }
}

/// A variable's value trimmed, when it holds more than whitespace; empty
/// and whitespace-only values count as absent.
pub open spec fn present(v: Option<Seq<char>>) -> Option<Seq<char>> {
    match v {
        Some(s) => if trim(s).len() > 0 {
            Some(trim(s))
        } else {
            None
        },
        None => None,
    }
}

/// A positive number that `v` spells, as `str::parse` reads it for a type
/// whose largest value is `max`.
pub open spec fn positive_number(v: Option<Seq<char>>, max: nat) -> Option<nat> {
    match v {
        Some(s) => match parse_unsigned(s, max) {
            Some(n) => if n > 0 {
                Some(n)
            } else {
                None
            },
            None => None,
        },
        None => None,
    }
}

/// The trimmed text of a value that holds more than whitespace.
fn present_value(v: &Option<String>) -> (r: Option<Vec<char>>)
    ensures
        match present(opt_view(*v)) {
            Some(t) => r matches Some(c) && c@ == t,
            None => r is None,
        },
{
    match v {
        Some(s) => {
            let t = trimmed(&chars_of(s.as_str()));
            if t.len() > 0 {
                Some(t)
            } else {
                None
            }
        },
        None => None,
    }
}

/// The positive number that `v` spells, for a type whose largest value is
/// `max`.
fn positive_value(v: &Option<Vec<char>>, max: u64) -> (r: Option<u64>)
    ensures
        r is None <==> positive_number(
            match v {
                Some(c) => Some(c@),
                None => None,
            },
            max as nat,
        ) is None,
        r matches Some(x) ==> positive_number(
            match v {
                Some(c) => Some(c@),
                None => None,
            },
            max as nat,
        ) == Some(x as nat) && x <= max,
{
    match v {
        Some(c) => match parse_unsigned_exec(c, max) {
            Some(n) => if n > 0 {
                Some(n)
            } else {
                None
            },
            None => None,
        },
        None => None,
    }
}

impl Settings {
    /// Settings from the values of `VC_URLS_PATH`, `VC_OUTPUT_DIR`,
    /// `VC_TIMEOUT_SECS` and `VC_MAX_PER_FILE` (`None` where a variable is
    /// unset) over the defaults. Values are trimmed; empty values count as
    /// absent; a timeout or limit that is not a positive number is ignored.
    pub fn from_env(
        urls_path: Option<String>,
        output_dir: Option<String>,
        timeout_secs: Option<String>,
        max_per_file: Option<String>,
    ) -> (s: Self)
        ensures
            s.urls_path@ == match present(opt_view(urls_path)) {
                Some(v) => v,
                None => DEFAULT_URLS@,
            },
            s.output_dir@ == match present(opt_view(output_dir)) {
                Some(v) => v,
                None => DEFAULT_OUTPUT@,
            },
            s.timeout_secs == match positive_number(present(opt_view(timeout_secs)), u64::MAX as nat) {
                Some(n) => n,
                None => DEFAULT_TIMEOUT_SECS as nat,
            },
            s.max_per_file == match positive_number(present(opt_view(max_per_file)), usize::MAX as nat) {
                Some(n) => n,
                None => DEFAULT_MAX_PER_FILE as nat,
            },
    {
        let mut s = Self::default();
        if let Some(v) = present_value(&urls_path) {
            s.urls_path = string_of(&v);
        }
        if let Some(v) = present_value(&output_dir) {
            s.output_dir = string_of(&v);
        }
        if let Some(secs) = positive_value(&present_value(&timeout_secs), u64::MAX) {
            s.timeout_secs = secs;
        }
        if let Some(n) = positive_value(&present_value(&max_per_file), usize::MAX as u64) {
            s.max_per_file = n as usize;
        }
        s
    }

    /// Overrides the settings by positional arguments `[urls_path]
    /// [output_dir] [max_per_file]`. Blank paths are ignored; a limit is
    /// taken when its trimmed text is a positive number.
    pub fn with_cli_args(self, args: &[String]) -> (s: Self)
        ensures
            s.urls_path@ == if args@.len() > 0 && !is_blank(args@[0]@) {
                args@[0]@
            } else {
                self.urls_path@
            },
            s.output_dir@ == if args@.len() > 1 && !is_blank(args@[1]@) {
                args@[1]@
            } else {
                self.output_dir@
            },
            s.timeout_secs == self.timeout_secs,
            s.max_per_file == if args@.len() > 2 {
                match positive_number(Some(trim(args@[2]@)), usize::MAX as nat) {
                    Some(n) => n,
                    None => self.max_per_file as nat,
                }
            } else {
                self.max_per_file as nat
            },
    {
        let mut s = self;
        if args.len() > 0 && !blank(&chars_of(args[0].as_str())) {
            s.urls_path = args[0].clone();
        }
        if args.len() > 1 && !blank(&chars_of(args[1].as_str())) {
            s.output_dir = args[1].clone();
        }
        if args.len() > 2 {
            let t = trimmed(&chars_of(args[2].as_str()));
            if let Some(n) = positive_value(&Some(t), usize::MAX as u64) {
                s.max_per_file = n as usize;
            }
        }
        s
    }
}

} // verus!
