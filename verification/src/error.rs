use vstd::prelude::*;

verus! {

/// Failure of the connection handshake: the credential line did not match
/// the accepted username/password pair. Fatal to the connection.
#[derive(Clone, Copy, Debug, PartialEq, Eq, Structural)]
pub enum ServerError {
    UnAuth,
}

impl ServerError {
    /// Human-readable message, offered in place of a `Display` impl.
    pub fn message(&self) -> (r: &'static str)
        ensures
            r@ == "Unauthorized user"@,
    {
        "Unauthorized user"
    }
}

} // verus!
