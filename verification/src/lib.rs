//! Shared support machinery for a chat-bot command runtime.
//!
//! Three components make up the core that every command handler leans on:
//! a per-key sliding-window rate limiter ([`rate_limit::RateLimiter`]), a
//! message-delivery correlation table ([`message_queue::MessageQueue`]), and
//! a typed command-argument conversion pipeline ([`convert_argument`]).
//! The [`screenshot`] module holds the verified part of the screenshot
//! command built on top of them.

use vstd::prelude::*;

pub mod convert_argument;
pub mod message_queue;
pub mod rate_limit;
pub mod screenshot;

verus! {

/// Errors surfaced to command handlers.
///
/// Every failure of this core is recoverable and reported as a typed value:
/// nothing here aborts the process or affects other commands.
#[derive(Debug, Clone, PartialEq, Eq)]
pub enum CommandError {
    /// The invoking identity has exhausted its quota for the window.
    RateLimitExceeded,
    /// A required argument was absent; the payload names the argument.
    ArgumentMissing(String),
    /// An argument was present but malformed; the payload says which and why.
    ArgumentInvalid(String),
    /// The platform reported that a sent message could not be delivered.
    DeliveryFailed,
    /// Delivery confirmation did not arrive within the wait bound.
    WaitTimedOut,
}

} // verus!
