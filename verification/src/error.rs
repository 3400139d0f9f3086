//! What can go wrong.
use crate::text::{copy, join2, join3};
use vstd::prelude::*;

verus! {

#[derive(Debug)]
pub enum CoreError {
    Io { path: String, source: String },
    InvalidPattern { pattern: String, message: String },
    InvalidRoot(String),
    Session(String),
}

impl CoreError {
    /// The text shown to the user.
    pub open spec fn text(&self) -> Seq<char> {
        match self {
            CoreError::Io { path, source } => "I/O error at "@ + path@ + ": "@ + source@,
            CoreError::InvalidPattern { pattern, message } => "invalid exclude pattern '"@
                + pattern@ + "': "@ + message@,
            CoreError::InvalidRoot(root) => "scan root does not exist or is not accessible: "@
                + root@,
            CoreError::Session(why) => "session file error: "@ + why@,
        }
    }

    /// The error as a line of text.
    pub fn message(&self) -> (r: String)
        ensures
            r@ == self.text(),
    {
        match self {
            CoreError::Io { path, source } => {
                let head: String = join3("I/O error at ", path.as_str(), ": ");
                join2(head.as_str(), source.as_str())
            },
            CoreError::InvalidPattern { pattern, message } => {
                let head: String = join3("invalid exclude pattern '", pattern.as_str(), "': ");
                join2(head.as_str(), message.as_str())
            },
            CoreError::InvalidRoot(root) => join2(
                "scan root does not exist or is not accessible: ",
                root.as_str(),
            ),
            CoreError::Session(why) => join2("session file error: ", why.as_str()),
        }
    }

    /// A session error with the given text.
    pub fn session(why: &str) -> (r: CoreError)
        ensures
            r matches CoreError::Session(s) && s@ == why@,
    {
        CoreError::Session(copy(why))
    }
}

} // verus!
