use vstd::prelude::*;

use crate::path::TreePath;
use crate::text::{lossy, text_of};
use vstd::string::*;

verus! {

#[derive(Debug)]
pub enum Error {
    // The source is deliberately left out of the message; whatever prints the
    // chain prints it, and repeating it reads like a stutter.
    Open { path: Vec<u8>, source: String },
    NotADirectory(TreePath),
    Io(String),
}

pub type Result<T> = std::result::Result<T, Error>;

impl Error {
    pub open spec fn spec_message(&self) -> Seq<char> {
        match self {
            Error::Open { path, source } => "cannot open "@ + text_of(path@),
            Error::NotADirectory(path) => text_of(path@.text()) + " is not a directory"@,
            Error::Io(source) => source@,
        }
    }

    /// What to tell whoever asked.
    pub fn message(&self) -> (s: String)
        ensures
            s@ == self.spec_message(),
    {
        match self {
            Error::Open { path, source: _ } => {
                let mut s: String = "cannot open ".to_owned();
                let p: String = lossy(path.as_slice());
                s.append(p.as_str());
                s
            }
            Error::NotADirectory(path) => {
                let t: Vec<u8> = path.text();
                let mut s: String = lossy(t.as_slice());
                s.append(" is not a directory");
                s
            }
            Error::Io(source) => source.clone(),
        }
    }
}

/// What went wrong is said of the path it went wrong with.
pub proof fn lemma_what_is_said_of_an_error(path: TreePath, bytes: Vec<u8>, source: String)
    ensures
        (Error::Open { path: bytes, source }).spec_message() == "cannot open "@ + text_of(bytes@),
        Error::NotADirectory(path).spec_message() == text_of(path@.text()) + " is not a directory"@,
        Error::Io(source).spec_message() == source@,
{
}

} // verus!
