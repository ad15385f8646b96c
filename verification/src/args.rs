//! Settings given on the command line.

use vstd::prelude::*;
use vstd::string::StringExecFns;
use vstd::string::StrSliceExecFns;
use crate::text::debug_text;
use crate::text::find_char;
use crate::text::format_debug;
use crate::text::parse_u64;
use crate::text::parsed_u64;
use crate::text::position_of;

verus! {

/// What the program was asked to do.
#[derive(Debug, Clone, Copy, PartialEq, Eq, Structural)]
pub enum Action {
    Login,
    Pack,
    Unpack,
    Update,
    Test,
    Run,
}

/// A rate limit: so many requests per so many seconds.
#[derive(Debug, Clone, Copy, PartialEq, Eq, Structural)]
pub struct RateLimit {
    pub requests: u64,
    pub period: u64,
}

/// What a rate limit given as `<requests>:<period>` stands for, or the
/// message that says why it stands for none.
pub open spec fn rate_limit_of(s: Seq<char>) -> Result<RateLimit, Seq<char>> {
    let at = position_of(s, ':', 0);
    if at >= s.len() || at == 0 || at + 1 == s.len() {
        Err("invalid rate limit, must be `<requests>:<period>`"@)
    } else {
        let requests = s.subrange(0, at);
        let period = s.subrange(at + 1, s.len() as int);
        match parsed_u64(requests) {
            None => Err(
                "Unable to parse number of requests, the value must be an integer, supplied: "@
                    + debug_text(requests),
            ),
            Some(r) => match parsed_u64(period) {
                None => Err(
                    "Unable to parse period, the value must be an integer specifying number of seconds, supplied: "@
                        + debug_text(period),
                ),
                Some(p) => Ok(RateLimit { requests: r, period: p }),
            },
        }
    }
}

impl RateLimit {
    /// Reads a rate limit given as `<requests>:<period>`: two numbers with a
    /// colon between them, neither of them empty.
    pub fn parse(s: &str) -> (r: Result<RateLimit, String>)
        ensures
            match r {
                Ok(limit) => rate_limit_of(s@) == Ok::<RateLimit, Seq<char>>(limit),
                Err(message) => rate_limit_of(s@) == Err::<RateLimit, Seq<char>>(message@),
            },
    {
        let n = s.unicode_len();
        let at = find_char(s, ':', 0);
        if at >= n || at == 0 || at + 1 == n {
            return Err(String::from_str("invalid rate limit, must be `<requests>:<period>`"));
        }
        let requests = s.substring_char(0, at);
        let period = s.substring_char(at + 1, n);
        let r = match parse_u64(requests) {
            Some(r) => r,
            None => {
                let mut message = String::from_str(
                    "Unable to parse number of requests, the value must be an integer, supplied: ",
                );
                let shown = format_debug(requests);
                message.append(shown.as_str());
                return Err(message);
            },
        };
        let p = match parse_u64(period) {
            Some(p) => p,
            None => {
                let mut message = String::from_str(
                    "Unable to parse period, the value must be an integer specifying number of seconds, supplied: ",
                );
                let shown = format_debug(period);
                message.append(shown.as_str());
                return Err(message);
            },
        };
        Ok(RateLimit { requests: r, period: p })
    }
}

impl std::str::FromStr for RateLimit {
    type Err = String;

    /// Reads a rate limit given as `<requests>:<period>`, as
    /// [`RateLimit::parse`] does.
    fn from_str(s: &str) -> (r: Result<RateLimit, String>)
        ensures
            match r {
                Ok(limit) => rate_limit_of(s@) == Ok::<RateLimit, Seq<char>>(limit),
                Err(message) => rate_limit_of(s@) == Err::<RateLimit, Seq<char>>(message@),
            },
    {
        RateLimit::parse(s)
    }
}

/// The mathematical value of [`Args`].
pub struct ArgsView {
    pub listen: Seq<char>,
    pub rate_limit: Option<RateLimit>,
    pub verbose: bool,
    pub trace: bool,
    pub auto_update: bool,
    pub public: bool,
    pub user_config: Option<Seq<char>>,
    pub action: Action,
}

impl View for Args {
    type V = ArgsView;

    open spec fn view(&self) -> ArgsView {
        ArgsView {
            listen: self.listen@,
            rate_limit: self.rate_limit,
            verbose: self.verbose,
            trace: self.trace,
            auto_update: self.auto_update,
            public: self.public,
            user_config: match self.user_config {
                Some(p) => Some(p@),
                None => None,
            },
            action: self.action,
        }
    }
}

/// The settings of one run.
#[derive(Debug)]
pub struct Args {
    /// The address the HTTP server listens on.
    pub listen: String,
    /// Optional rate limit of the HTTP server.
    pub rate_limit: Option<RateLimit>,
    /// Verbose mode.
    pub verbose: bool,
    /// Tracing mode.
    pub trace: bool,
    /// Whether configuration updates are polled.
    pub auto_update: bool,
    /// Whether the public status page is served.
    pub public: bool,
    /// Path of a configuration file given by the user.
    pub user_config: Option<String>,
    /// What to do.
    pub action: Action,
}

impl Args {
    /// Tells whether the public status page is served.
    pub fn public(&self) -> (b: bool)
        ensures
            b == self.public,
    {
        self.public
    }
}

} // verus!
