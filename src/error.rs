//! Errors of the library.
use vstd::prelude::*;

verus! {

/// An error with a message.
#[derive(Debug)]
pub struct MusicError {
    pub message: String,
}

impl MusicError {
    /// An error with the given message.
    pub fn from_message(message: &str) -> (r: Self)
        ensures
            r.message@ == message@,
    {
        MusicError { message: String::from_str(message) }
    }
}

/// The errors of a whole generation.
#[derive(Debug)]
pub enum Error {
    MusicError(MusicError),
    /// The MIDI writer refused the track, with its message.
    MidlyError(String),
    StrError(String),
}

/// An HTTP-style error: a status code and a message.
#[derive(Debug)]
pub struct HttpError {
    pub code: u16,
    pub message: String,
}

/// The status code of an error that has no other.
pub const DEFAULT_ERROR_STATUS_CODE: u16 = 500;

impl HttpError {
    /// An error with the default status code.
    pub fn new(message: &str) -> (r: Self)
        ensures
            r.code == DEFAULT_ERROR_STATUS_CODE,
            r.message@ == message@,
    {
        HttpError { code: DEFAULT_ERROR_STATUS_CODE, message: String::from_str(message) }
    }

    /// Turns an error into a 202: the request went through, and the message
    /// says which error was met.
    pub fn _202(&self, new_code: &str) -> (r: Self)
        ensures
            r.code == 202,
            r.message@ == "We encountered an error, but your request went through. Error "@ + new_code@ + ":"@
                + self.message@,
    {
        let m = String::from_str("We encountered an error, but your request went through. Error ");
        let m = m.concat(new_code);
        let m = m.concat(":");
        let m = m.concat(self.message.as_str());
        HttpError { code: 202, message: m }
    }
}

} // verus!
