//! The greeting that clients and workers send when they connect to a remote executor, and the
//! executor's answer.

use vstd::prelude::*;

use crate::text::{push_str, str_eq};

verus! {

/// Message sent only by remote clients and workers for connecting to the server.
pub enum RemoteEntityMessage {
    /// Tell the remote executor the name of the client or of the worker.
    Welcome {
        /// The name of the client or of the worker.
        name: String,
        /// The required version of task-maker.
        version: String,
    },
}

/// Message sent only by the server in response of a `RemoteEntityMessage`.
pub enum RemoteEntityMessageResponse {
    /// The server accepted the connection of the client, the communication can continue.
    Accepted,
    /// The server rejected the connection of the client, the channel will be closed.
    Rejected(String),
}

/// The reason given to a client or worker that runs another version than the server.
pub open spec fn version_mismatch(version: Seq<char>, server_version: Seq<char>) -> Seq<char> {
    "Wrong task-maker version, you have "@ + version + ", server has "@ + server_version
}

/// The answer to a client or worker that introduced itself with `version`: it is accepted when
/// it runs the version of the server, and rejected with the reason otherwise.
pub fn validate_welcome(version: &str, server_version: &str) -> (res: RemoteEntityMessageResponse)
    ensures
        version@ == server_version@ ==> res is Accepted,
        version@ != server_version@ ==> (res matches RemoteEntityMessageResponse::Rejected(m)
            && m@ == version_mismatch(version@, server_version@)),
{
    if str_eq(version, server_version) {
        RemoteEntityMessageResponse::Accepted
    } else {
        let mut m = "Wrong task-maker version, you have ".to_owned();
        push_str(&mut m, version);
        push_str(&mut m, ", server has ");
        push_str(&mut m, server_version);
        RemoteEntityMessageResponse::Rejected(m)
    }
}

} // verus!
