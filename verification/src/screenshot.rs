//! The verified part of the screenshot command.
//!
//! The command takes one greedy argument (or the replied-to message's text):
//! the page to capture. Its target URL is resolved here: an input without a
//! scheme, as a user typing `example.com` produces, is retried with an
//! `http://` prefix before being rejected. The surrounding I/O — calling
//! the rendering API, downloading the capture, sending the photo and
//! awaiting its delivery — lives with the unverified command runner, which
//! hands this module plain text and takes back a parsed URL or a typed
//! error.

use vstd::prelude::*;

verus! {

use crate::CommandError;
use crate::rate_limit::RateLimiter;

/// `url::Url`, declared so that a parsed URL can pass through signatures;
/// its inside stays opaque here.
#[verifier::external_type_specification]
#[verifier::external_body]
pub struct ExUrl(url::Url);

/// How `url::Url::parse` classifies a string.
pub enum UrlClass {
    /// The string parses as an absolute URL.
    Absolute,
    /// The string is a relative URL with no base to resolve against.
    RelativeWithoutBase,
    /// The string is rejected for any other reason.
    Invalid,
}

/// The class `url::Url::parse` assigns to a string; the parser is a pure
/// function of its input, so the class depends on the characters alone.
pub uninterp spec fn url_class(s: Seq<char>) -> UrlClass;

/// One `url::Url::parse` call, with the error split into the one variant
/// the retry logic reacts to and a description of any other.
pub enum UrlParseOutcome {
    /// The parsed URL.
    Parsed(url::Url),
    /// `url::ParseError::RelativeUrlWithoutBase`.
    RelativeWithoutBase,
    /// Any other parse error, described.
    Rejected(String),
}

/// Relies on `url::Url::parse`: whether a string parses as an absolute URL
/// — and, when it does not, whether the failure is
/// `ParseError::RelativeUrlWithoutBase` — depends on the string alone.
#[verifier::external_body]
fn parse_url(text: &str) -> (outcome: UrlParseOutcome)
    ensures
        outcome is Parsed <==> url_class(text@) is Absolute,
        outcome is RelativeWithoutBase <==> url_class(text@) is RelativeWithoutBase,
        outcome is Rejected <==> url_class(text@) is Invalid,
{
    match url::Url::parse(text) {
        Ok(parsed) => UrlParseOutcome::Parsed(parsed),
        Err(url::ParseError::RelativeUrlWithoutBase) => UrlParseOutcome::RelativeWithoutBase,
        Err(other) => UrlParseOutcome::Rejected(other.to_string()),
    }
}

/// The text handed to the parser on the retry: the input behind an
/// `http://` scheme.
pub open spec fn with_http_prefix(s: Seq<char>) -> Seq<char> {
    "http://"@ + s
}

/// Resolves the command's raw argument to the page URL to capture. Direct
/// absolute URLs are taken as they are; an input without a scheme is
/// retried with an `http://` prefix; anything else is an invalid argument.
pub fn resolve_url(text: &str) -> (resolved: Result<url::Url, CommandError>)
    ensures
        resolved is Ok <==> (url_class(text@) is Absolute || (url_class(text@)
            is RelativeWithoutBase && url_class(with_http_prefix(text@)) is Absolute)),
        resolved is Err ==> resolved->Err_0 is ArgumentInvalid,
{
    match parse_url(text) {
        UrlParseOutcome::Parsed(parsed) => Ok(parsed),
        UrlParseOutcome::RelativeWithoutBase => {
            let prefixed = String::from_str("http://").concat(text);
            proof {
                assert(prefixed@ == with_http_prefix(text@));
            }
            match parse_url(prefixed.as_str()) {
                UrlParseOutcome::Parsed(parsed) => Ok(parsed),
                UrlParseOutcome::RelativeWithoutBase => Err(
                    CommandError::ArgumentInvalid(
                        String::from_str("relative URL without a base"),
                    ),
                ),
                UrlParseOutcome::Rejected(description) => Err(
                    CommandError::ArgumentInvalid(description),
                ),
            }
        },
        UrlParseOutcome::Rejected(description) => Err(
            CommandError::ArgumentInvalid(description),
        ),
    }
}

/// The screenshot command: captures a webpage and replies with the image.
pub struct Screenshot;

impl Screenshot {
    /// The names this command answers to.
    pub fn command_names(&self) -> (names: Vec<&'static str>)
        ensures
            names@.len() == 5,
            names@[0]@ == "screenshot"@,
            names@[1]@ == "ss"@,
            names@[2]@ == "webimg"@,
            names@[3]@ == "webimage"@,
            names@[4]@ == "webscreenshot"@,
    {
        let mut names: Vec<&'static str> = Vec::new();
        names.push("screenshot");
        names.push("ss");
        names.push("webimg");
        names.push("webimage");
        names.push("webscreenshot");
        names
    }

    /// The one-line description shown in command listings.
    pub fn description(&self) -> (description: Option<&'static str>)
        ensures
            description is Some,
            description->0@ == "screenshot a webpage"@,
    {
        Some("screenshot a webpage")
    }

    /// The limiter guarding this command: three captures per key per
    /// minute.
    pub fn rate_limit(&self) -> (limiter: RateLimiter)
        ensures
            limiter.wf(),
            limiter.max_count() == 3,
            limiter.window_seconds() == 60,
            forall|k: i64| limiter@[k] == Seq::<u64>::empty(),
    {
        RateLimiter::new(3, 60)
    }
}

} // verus!
