//! The library's error type.
use vstd::prelude::*;

verus! {

/// A token that names no variant of the type it should name.
#[derive(Debug)]
pub enum Error {
    ParseError { target: &'static str, received: String },
}

impl Error {
    /// "ParseError: invalid <target type>: <received text>".
    pub fn message(&self) -> (r: String)
        ensures
            r@ == (match self {
                Error::ParseError { target, received } => "ParseError: invalid "@ + target@
                    + ": "@ + received@,
            }),
    {
        match self {
            Error::ParseError { target, received } => {
                let mut s = "ParseError: invalid ".to_owned();
                s.append(target);
                s.append(": ");
                s.append(received.as_str());
                s
            },
        }
    }
}

} // verus!
