//! What the request handlers decide: they hand a command to the queue and
//! answer by whether the queue took it.

use vstd::prelude::*;

verus! {

/// The status that says the command was queued.
pub const STATUS_OK: u16 = 200;

/// The status that says the queue is gone.
pub const STATUS_INTERNAL_SERVER_ERROR: u16 = 500;

/// The status with which a request to change an order is answered: success
/// if the command was queued, a server error if the queue is gone. It says
/// nothing on what came of the command.
pub fn reply_status(queued: bool) -> (status: u16)
    ensures
        status == if queued {
            STATUS_OK
        } else {
            STATUS_INTERNAL_SERVER_ERROR
        },
{
    if queued {
        STATUS_OK
    } else {
        STATUS_INTERNAL_SERVER_ERROR
    }
}

} // verus!
