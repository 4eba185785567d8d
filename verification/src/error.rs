//! Error types.
use vstd::prelude::*;

verus! {

/// An error shown to the user of the web frontend.
#[derive(Debug)]
pub struct WebError {
    pub message: String,
}

impl WebError {
    /// Creates an error from anything that can be displayed.
    pub fn new<T: core::fmt::Display + ?Sized>(message: &T) -> (err: WebError)
        ensures
            vstd::string::to_string_from_display_ensures::<T>(message, err.message),
    {
        WebError { message: message.to_string() }
    }

    /// Creates an error from another error, with the other error's message (its `Display`
    /// text).
    pub fn from<E: core::fmt::Display>(e: E) -> (err: WebError)
        ensures
            vstd::string::to_string_from_display_ensures::<E>(&e, err.message),
    {
        WebError { message: e.to_string() }
    }
}

/// An error of the server. The request that meets it fails with an internal server error, whose
/// body holds the error's message.
#[derive(Debug)]
pub struct LbrError {
    pub message: String,
}

impl LbrError {
    /// Creates an error from anything that can be displayed.
    pub fn new<T: core::fmt::Display + ?Sized>(message: &T) -> (err: LbrError)
        ensures
            vstd::string::to_string_from_display_ensures::<T>(message, err.message),
    {
        LbrError { message: message.to_string() }
    }

    /// The status code of the response to a request that meets the error: internal server error.
    pub fn status(&self) -> (status: u16)
        ensures
            status == 500,
    {
        500
    }
}

} // verus!
