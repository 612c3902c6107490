//! Result codes shared by every operation of the library.
use vstd::prelude::*;

verus! {

/// Outcome of an operation. Every variant has a stable numeric code, see [`liq_error::code`].
#[allow(non_camel_case_types)]
#[derive(Copy, Clone, Debug, PartialEq, Eq, Structural)]
pub enum liq_error {
    /// The operation succeeded.
    LIQ_OK,
    /// The palette could not reach the minimum quality that was asked for.
    LIQ_QUALITY_TOO_LOW,
    /// An argument was outside of its documented range.
    LIQ_VALUE_OUT_OF_RANGE,
    /// A buffer could not be allocated.
    LIQ_OUT_OF_MEMORY,
    /// A progress callback asked to stop.
    LIQ_ABORTED,
    /// The pixels of an image are no longer held.
    LIQ_BITMAP_NOT_AVAILABLE,
    /// A buffer is shorter than the image needs.
    LIQ_BUFFER_TOO_SMALL,
    /// A required reference was missing.
    LIQ_INVALID_POINTER,
    /// The operation does not apply to the object in its current state.
    LIQ_UNSUPPORTED,
}

/// The numeric code of each outcome.
pub open spec fn code_of(e: liq_error) -> int {
    match e {
        liq_error::LIQ_OK => 0,
        liq_error::LIQ_QUALITY_TOO_LOW => 99,
        liq_error::LIQ_VALUE_OUT_OF_RANGE => 100,
        liq_error::LIQ_OUT_OF_MEMORY => 98,
        liq_error::LIQ_ABORTED => 97,
        liq_error::LIQ_BITMAP_NOT_AVAILABLE => 96,
        liq_error::LIQ_BUFFER_TOO_SMALL => 95,
        liq_error::LIQ_INVALID_POINTER => 94,
        liq_error::LIQ_UNSUPPORTED => 93,
    }
}

impl liq_error {
    /// Numeric code of this outcome.
    pub fn code(self) -> (c: u32)
        ensures
            c == code_of(self),
    {
        match self {
            liq_error::LIQ_OK => 0,
            liq_error::LIQ_QUALITY_TOO_LOW => 99,
            liq_error::LIQ_VALUE_OUT_OF_RANGE => 100,
            liq_error::LIQ_OUT_OF_MEMORY => 98,
            liq_error::LIQ_ABORTED => 97,
            liq_error::LIQ_BITMAP_NOT_AVAILABLE => 96,
            liq_error::LIQ_BUFFER_TOO_SMALL => 95,
            liq_error::LIQ_INVALID_POINTER => 94,
            liq_error::LIQ_UNSUPPORTED => 93,
        }
    }

    /// The outcome that has the numeric code `c`, if there is one.
    pub fn from_code(c: u32) -> (r: Option<liq_error>)
        ensures
            match r {
                Some(e) => code_of(e) == c,
                None => forall|e: liq_error| code_of(e) != c,
            },
    {
        if c == 0 {
            Some(liq_error::LIQ_OK)
        } else if c == 99 {
            Some(liq_error::LIQ_QUALITY_TOO_LOW)
        } else if c == 100 {
            Some(liq_error::LIQ_VALUE_OUT_OF_RANGE)
        } else if c == 98 {
            Some(liq_error::LIQ_OUT_OF_MEMORY)
        } else if c == 97 {
            Some(liq_error::LIQ_ABORTED)
        } else if c == 96 {
            Some(liq_error::LIQ_BITMAP_NOT_AVAILABLE)
        } else if c == 95 {
            Some(liq_error::LIQ_BUFFER_TOO_SMALL)
        } else if c == 94 {
            Some(liq_error::LIQ_INVALID_POINTER)
        } else if c == 93 {
            Some(liq_error::LIQ_UNSUPPORTED)
        } else {
            None
        }
    }

    /// Whether this is the outcome of a success.
    pub fn is_ok(self) -> (b: bool)
        ensures
            b == (self == liq_error::LIQ_OK),
    {
        match self {
            liq_error::LIQ_OK => true,
            _ => false,
        }
    }

    /// Whether this is the outcome of a failure.
    pub fn is_err(self) -> (b: bool)
        ensures
            b == (self != liq_error::LIQ_OK),
    {
        !self.is_ok()
    }

    /// `Ok` for a success, and the outcome itself as the error otherwise.
    pub fn ok(self) -> (r: Result<(), liq_error>)
        ensures
            self == liq_error::LIQ_OK ==> r is Ok,
            self != liq_error::LIQ_OK ==> r == Err::<(), liq_error>(self),
    {
        match self {
            liq_error::LIQ_OK => Ok(()),
            e => Err(e),
        }
    }
}

/// Two outcomes with the same numeric code are the same outcome.
pub proof fn lemma_codes_distinct(a: liq_error, b: liq_error)
    requires
        code_of(a) == code_of(b),
    ensures
        a == b,
{
}

} // verus!
