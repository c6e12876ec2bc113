use vstd::prelude::*;

verus! {

#[verifier::external_type_specification]
#[verifier::external_body]
pub struct ExIoError(std::io::Error);

#[verifier::external_type_specification]
#[verifier::external_body]
pub struct ExJsonError(serde_json::Error);

/// The one failure type of the library.
#[derive(Debug)]
pub enum SquashError {
    /// An underlying filesystem or stream failure.
    IoError(std::io::Error),
    /// Malformed or unexpected JSON.
    JsonError(serde_json::Error),
    /// The external container tool failed; carries its diagnostic.
    DockerError(String),
    /// Arguments or archive contents violate a precondition.
    InvalidInput(String),
    /// No layer digest starts with the requested prefix.
    LayerNotFound(String),
}

/// Results of the library's operations.
pub type Result<T> = core::result::Result<T, SquashError>;

impl From<std::io::Error> for SquashError {
    fn from(err: std::io::Error) -> (r: Self)
        ensures
            r == SquashError::IoError(err),
    {
        SquashError::IoError(err)
    }
}

impl vstd::std_specs::convert::FromSpecImpl<std::io::Error> for SquashError {
    open spec fn obeys_from_spec() -> bool {
        true
    }

    open spec fn from_spec(err: std::io::Error) -> SquashError {
        SquashError::IoError(err)
    }
}

impl From<serde_json::Error> for SquashError {
    fn from(err: serde_json::Error) -> (r: Self)
        ensures
            r == SquashError::JsonError(err),
    {
        SquashError::JsonError(err)
    }
}

impl vstd::std_specs::convert::FromSpecImpl<serde_json::Error> for SquashError {
    open spec fn obeys_from_spec() -> bool {
        true
    }

    open spec fn from_spec(err: serde_json::Error) -> SquashError {
        SquashError::JsonError(err)
    }
}

} // verus!
