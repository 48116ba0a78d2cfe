//! Error values raised around a node: a bad start-up parameter, or a failure
//! to listen.

use vstd::prelude::*;
use vstd::string::*;

verus! {

/// A start-up parameter that could not be used.
#[derive(Debug, Clone)]
pub struct ParamError {
    mess: String,
}

impl ParamError {
    /// The explanation the error was made with.
    pub closed spec fn message(&self) -> Seq<char> {
        self.mess@
    }

    /// An error with this explanation.
    pub fn new(message: String) -> (e: ParamError)
        ensures
            e.message() == message@,
    {
        ParamError { mess: message }
    }

    /// The line shown to the user.
    pub fn to_string(&self) -> (line: String)
        ensures
            line@ == "Invalid parameter | "@ + self.message(),
    {
        String::from_str("Invalid parameter | ").concat(self.mess.as_str())
    }
}

/// A node that could not start or keep listening.
#[derive(Debug, Clone)]
pub struct NodeError {
    mess: String,
}

impl NodeError {
    /// The explanation the error was made with.
    pub closed spec fn message(&self) -> Seq<char> {
        self.mess@
    }

    /// An error with this explanation.
    pub fn new(message: String) -> (e: NodeError)
        ensures
            e.message() == message@,
    {
        NodeError { mess: message }
    }

    /// The line shown to the user.
    pub fn to_string(&self) -> (line: String)
        ensures
            line@ == "Error while listening | "@ + self.message(),
    {
        String::from_str("Error while listening | ").concat(self.mess.as_str())
    }
}

} // verus!
