//! What a client makes of the server's answer.

use vstd::prelude::*;
use crate::error::KvsError;
use crate::server::Response;

verus! {

/// The text of the server's answer; `KeyNotFound` where the stream ended
/// before an answer came.
pub fn reply_text(response: Option<Response>) -> (out: Result<String, KvsError>)
    ensures
        match response {
            Some(answer) => out matches Ok(text) && text@ == answer@,
            None => out == Err::<String, KvsError>(KvsError::KeyNotFound),
        },
{
    match response {
        Some(answer) => Ok(answer.response),
        None => Err(KvsError::KeyNotFound),
    }
}

} // verus!
