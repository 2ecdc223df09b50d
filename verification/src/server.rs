//! The arguments of the tools that the MCP server offers, and their
//! defaults.

use vstd::prelude::*;
use crate::text::{chars_of, chars_eq, starts_with, starts_with_chars, slice_chars};

verus! {

/// Messages returned by `read_messages` when no limit is given.
pub const DEFAULT_READ_LIMIT: usize = 30;

/// Results returned by `search_messages` when no limit is given.
pub const DEFAULT_SEARCH_LIMIT: usize = 20;

/// Arguments of `read_messages`.
pub struct ReadMessagesArgs {
    /// The conversation: its id (`19:...@thread.v2`), or part of its title.
    pub chat: String,
    /// How many of the most recent messages to return (30 when absent).
    pub limit: Option<usize>,
    /// Only messages before this epoch time in milliseconds (for paging).
    pub before_ms: Option<i64>,
}

impl ReadMessagesArgs {
    /// The number of messages to return.
    pub fn limit_or_default(&self) -> (r: usize)
        ensures
            r == match self.limit {
                Some(l) => l,
                None => DEFAULT_READ_LIMIT,
            },
    {
        match self.limit {
            Some(l) => l,
            None => DEFAULT_READ_LIMIT,
        }
    }
}

/// Arguments of `search_messages`.
pub struct SearchArgs {
    /// Text to look for in message text and sender names, ignoring case.
    pub query: String,
    /// How many of the most recent results to return (20 when absent).
    pub limit: Option<usize>,
}

impl SearchArgs {
    /// The number of results to return.
    pub fn limit_or_default(&self) -> (r: usize)
        ensures
            r == match self.limit {
                Some(l) => l,
                None => DEFAULT_SEARCH_LIMIT,
            },
    {
        match self.limit {
            Some(l) => l,
            None => DEFAULT_SEARCH_LIMIT,
        }
    }
}

/// Arguments of `fetch_image`.
pub struct FetchImageArgs {
    /// An AMS image URL (`*.asyncgw.teams.microsoft.com`).
    pub url: String,
}

/// Arguments of `copy_to_clipboard`.
pub struct CopyToClipboardArgs {
    /// The HTML fragment to put on the clipboard.
    pub html: String,
}


/// An `Authorization` header value grants access when it is `Bearer `
/// followed by exactly the expected token.
pub open spec fn spec_bearer_ok(header: Option<Seq<char>>, token: Seq<char>) -> bool {
    match header {
        Some(h) => starts_with(h, "Bearer "@) && h.skip("Bearer "@.len() as int) == token,
        None => false,
    }
}

/// Checks the `Authorization` header of an HTTP request (its text, when it
/// has one that is text) against the expected bearer token.
pub fn bearer_ok(header: Option<&str>, token: &str) -> (r: bool)
    ensures
        r == spec_bearer_ok(match header { Some(h) => Some(h@), None => None }, token@),
{
    let h = match header {
        Some(h) => chars_of(h),
        None => return false,
    };
    let prefix = chars_of("Bearer ");
    if !starts_with_chars(h.as_slice(), prefix.as_slice()) {
        return false;
    }
    let rest = slice_chars(h.as_slice(), prefix.len(), h.len());
    assert(rest@ =~= h@.skip("Bearer "@.len() as int));
    chars_eq(rest, chars_of(token).as_slice())
}

} // verus!
