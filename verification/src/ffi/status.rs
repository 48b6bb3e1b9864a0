//! Status codes and the last error.
//!
//! Nothing but integers and NUL-terminated bytes cross the boundary: a failure
//! is a [`Status`] and a message that the host can fetch.

use vstd::prelude::*;

use crate::text;

verus! {

/// Result of a call. `Ok` is zero; every failure is negative so a host can test
/// `< 0` without knowing the full set.
#[derive(Debug, Clone, Copy, PartialEq, Eq, Structural)]
pub enum Status {
    /// The call succeeded.
    Success,
    /// A required pointer argument was null.
    NullArgument,
    /// An argument was outside its valid range or failed to decode.
    InvalidArgument,
    /// The runtime has not been initialized, or that failed.
    RuntimeNotInitialized,
    /// The runtime was initialized more than once with a different config.
    RuntimeAlreadyInitialized,
    /// The world handle is unknown, or was poisoned by an earlier panic.
    InvalidHandle,
    /// The generator identifier or its config was rejected.
    GeneratorRejected,
    /// The caller's output buffer was too small; the required size is reported.
    BufferTooSmall,
    /// A chunk named a block or biome that cannot be represented.
    UnrepresentableContent,
    /// Generation panicked. The world handle is poisoned and must be closed.
    Panicked,
    /// Any other failure.
    Internal,
}

/// The code of a status.
pub open spec fn code_of(status: Status) -> int {
    match status {
        Status::Success => 0,
        Status::NullArgument => -1,
        Status::InvalidArgument => -2,
        Status::RuntimeNotInitialized => -3,
        Status::RuntimeAlreadyInitialized => -4,
        Status::InvalidHandle => -5,
        Status::GeneratorRejected => -6,
        Status::BufferTooSmall => -7,
        Status::UnrepresentableContent => -8,
        Status::Panicked => -9,
        Status::Internal => -100,
    }
}

impl Status {
    /// The raw value crossing the boundary.
    #[must_use]
    pub fn code(self) -> (r: i32)
        ensures
            r == code_of(self),
    {
        match self {
            Status::Success => 0,
            Status::NullArgument => -1,
            Status::InvalidArgument => -2,
            Status::RuntimeNotInitialized => -3,
            Status::RuntimeAlreadyInitialized => -4,
            Status::InvalidHandle => -5,
            Status::GeneratorRejected => -6,
            Status::BufferTooSmall => -7,
            Status::UnrepresentableContent => -8,
            Status::Panicked => -9,
            Status::Internal => -100,
        }
    }
}

/// Success is zero and every failure negative, and no two have the same code.
pub proof fn codes_tell_statuses_apart(a: Status, b: Status)
    ensures
        code_of(a) == 0 <==> a == Status::Success,
        code_of(a) <= 0,
        code_of(a) == code_of(b) ==> a == b,
{
}

/// A message without NULs, which would cut it short: each is replaced.
pub open spec fn without_nul(message: Seq<char>) -> Seq<char> {
    Seq::new(
        message.len(),
        |i: int|
            if message[i] == '\u{0}' {
                '\u{fffd}'
            } else {
                message[i]
            },
    )
}

/// A message without NULs.
pub fn sanitized(message: &str) -> (r: String)
    ensures
        r@ == without_nul(message@),
{
    let chars = text::chars_of(message);
    let mut out = String::new();
    let mut i: usize = 0;
    while i < chars.len()
        invariant
            i <= chars@.len(),
            chars@ == message@,
            out@.len() == i,
            forall|k: int| 0 <= k < i ==> #[trigger] out@[k] == without_nul(message@)[k],
        decreases chars@.len() - i,
    {
        let c = chars[i];
        if c == '\u{0}' {
            out.push('\u{fffd}');
        } else {
            out.push(c);
        }
        i += 1;
    }
    assert(out@ =~= without_nul(message@));
    out
}

/// The last error of a thread.
#[derive(Debug)]
pub struct LastError {
    message: Option<String>,
}

impl LastError {
    /// The message, if there is one.
    pub closed spec fn kept(&self) -> Option<Seq<char>> {
        match self.message {
            None => None,
            Some(message) => Some(message@),
        }
    }

    /// No error.
    pub fn new() -> (r: Self)
        ensures
            r.kept() is None,
    {
        LastError { message: None }
    }

    /// Records `message` as the last error and returns `status` for the caller
    /// to propagate.
    pub fn fail(&mut self, status: Status, message: &str) -> (r: Status)
        ensures
            r == status,
            final(self).kept() == Some(without_nul(message@)),
    {
        self.message = Some(sanitized(message));
        status
    }

    /// Forgets the last error, so that a stale message cannot be misread as
    /// belonging to a later call.
    pub fn clear_last_error(&mut self)
        ensures
            final(self).kept() is None,
    {
        self.message = None;
    }

    /// The last error message, or `None` if there is none.
    pub fn with_last_error(&self) -> (r: Option<&str>)
        ensures
            match r {
                None => self.kept() is None,
                Some(message) => self.kept() == Some(message@),
            },
    {
        match &self.message {
            None => None,
            Some(message) => Some(message.as_str()),
        }
    }
}

/// A message that is kept can cross the boundary: it holds no NUL, and is the
/// recorded one wherever that has none.
pub proof fn a_kept_message_has_no_nul(message: Seq<char>, i: int)
    requires
        0 <= i < message.len(),
    ensures
        without_nul(message).len() == message.len(),
        without_nul(message)[i] != '\u{0}',
        message[i] != '\u{0}' ==> without_nul(message)[i] == message[i],
{
}

} // verus!
