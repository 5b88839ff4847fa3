use crate::codec::{decode_operation, spec_decode_op};
use crate::error::ServerError;
use crate::parse::{spec_fields, split_fields, string_eq};
use crate::queue::QueueOperation;
use vstd::prelude::*;

verus! {

/// What the connection loop does with one framed read.
pub enum FrameAction {
    /// An empty read: the peer closed; the connection winds down.
    Close,
    /// A message that does not decode: logged and skipped, the
    /// connection stays open.
    Ignore,
    /// A decoded operation, to be submitted to the queue actor.
    Submit(QueueOperation),
}

/// Decides one step of the connection's ready state from the bytes one
/// framed read produced.
pub fn handle_frame(input: &[u8]) -> (r: FrameAction)
    ensures
        input@.len() == 0 <==> r is Close,
        input@.len() > 0 && spec_decode_op(input@) is None <==> r is Ignore,
        r matches FrameAction::Submit(op) ==> spec_decode_op(input@) == Some(op@),
        input@.len() > 0 && spec_decode_op(input@) is Some <==> r is Submit,
{
    if input.len() == 0 {
        FrameAction::Close
    } else {
        match decode_operation(input) {
            Some(op) => FrameAction::Submit(op),
            None => FrameAction::Ignore,
        }
    }
}

/// A credential line passes the handshake when its first two
/// comma-separated fields are the accepted username and password pair.
pub open spec fn credentials_ok(line: Seq<char>) -> bool {
    &&& spec_fields(line).len() >= 2
    &&& spec_fields(line)[0] == "aaa"@
    &&& spec_fields(line)[1] == "bbb"@
}

/// Checks the handshake's credential line; a mismatch is a fatal
/// authentication failure and the connection is torn down.
pub fn check_credentials(line: &str) -> (r: Result<(), ServerError>)
    ensures
        r is Ok <==> credentials_ok(line@),
        r is Err ==> r == Err::<(), ServerError>(ServerError::UnAuth),
{
    let fields = split_fields(line);
    proof {
        assert(fields.deep_view().len() == fields@.len());
    }
    if fields.len() >= 2 && string_eq(&fields[0], "aaa") && string_eq(&fields[1], "bbb") {
        Ok(())
    } else {
        Err(ServerError::UnAuth)
    }
}

} // verus!
