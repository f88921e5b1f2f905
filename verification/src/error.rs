//! The ways in which an operation of this crate can fail.

use vstd::prelude::*;

verus! {

/// Why an operation gave no result.
#[derive(Clone, Copy, Debug, PartialEq, Eq, Structural)]
pub enum Failure {
    /// No tree root above the starting directory, or no package of the
    /// requested name in the index.
    NotFound,
    /// The name or the path of a package directory is not valid text.
    PathEncoding,
    /// The index could not be turned into cache text.
    CacheEncoding,
    /// The cache file does not hold an index.
    CorruptIndex,
    /// No indexed name is similar to the query at all.
    NoMatch,
    /// The patches location of a package exists and is not a directory.
    NotADirectory,
    /// The editor could not be started.
    ProcessSpawn,
}

impl Failure {
    /// One line of text for the user.
    pub fn message(&self) -> (text: String)
        ensures
            text@ == match *self {
                Failure::NotFound => "Cannot find ABBS tree or package!"@,
                Failure::PathEncoding => "Cannot convert path to str!"@,
                Failure::CacheEncoding => "Cannot write the index as text!"@,
                Failure::CorruptIndex => "The index file is corrupt!"@,
                Failure::NoMatch => "No package matches!"@,
                Failure::NotADirectory => "Package patches directory not a dir!"@,
                Failure::ProcessSpawn => "Cannot start the editor!"@,
            },
    {
        let text = match self {
            Failure::NotFound => "Cannot find ABBS tree or package!",
            Failure::PathEncoding => "Cannot convert path to str!",
            Failure::CacheEncoding => "Cannot write the index as text!",
            Failure::CorruptIndex => "The index file is corrupt!",
            Failure::NoMatch => "No package matches!",
            Failure::NotADirectory => "Package patches directory not a dir!",
            Failure::ProcessSpawn => "Cannot start the editor!",
        };
        text.to_owned()
    }
}

} // verus!
