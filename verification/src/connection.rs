//! Per-connection dispatch: the decisions the connection loop takes for
//! each inbound line. The loop itself — reading lines, performing the
//! returned deliveries, closing the connection — is I/O and lives with
//! the caller; everything it decides is here, as plain functions from
//! registry state and one request to the new state and the frames owed.

use vstd::prelude::*;

use crate::frame::ClientMsg;
use crate::frame::FromClient;
use crate::frame::FromServer;
use crate::frame::decode_client;
use crate::frame::spec_decode_client;
use crate::group::GroupTable;
use crate::group::is_delivery;
use crate::group::join_post;

verus! {

/// The exact text reported for a post to a group that does not exist.
pub open spec fn no_group_error_text(name: Seq<char>) -> Seq<char> {
    "Group '"@ + name + "' does not exist"@
}

/// Builds the report text for a post to a group that does not exist.
fn no_group_error(name: &str) -> (r: String)
    ensures
        r@ == no_group_error_text(name@),
{
    let mut r = String::from_str("Group '");
    r.append(name);
    r.append("' does not exist");
    r
}

/// How dispatching one request relates the registry after (`post`) to
/// the registry before (`pre`), and what frames (`out`, pairs of target
/// handle and frame) the dispatch hands back to be delivered:
/// - Join registers `client` in the named group, creating the group
///   exactly when the name is unseen, and owes no frames;
/// - Post to an existing group leaves the registry untouched and owes
///   every current member, in membership order, one delivery carrying
///   the exact message — including the poster, if it is a member;
/// - Post to a missing group leaves the registry untouched, creates
///   nothing, and owes the poster alone an error frame with the exact
///   report text.
pub open spec fn dispatch_post(
    pre: GroupTable,
    post: GroupTable,
    client: u64,
    req: ClientMsg,
    out: Seq<(u64, FromServer)>,
) -> bool {
    match req {
        ClientMsg::Join { group_name } => {
            &&& out.len() == 0
            &&& join_post(pre, post, group_name, client)
        },
        ClientMsg::Post { group_name, message } => {
            &&& post == pre
            &&& if pre.has(group_name) {
                &&& out.len() == pre.members_of(group_name).len()
                &&& forall|k: int|
                    0 <= k < out.len() ==> (#[trigger] out[k]).0 == pre.members_of(group_name)[k]
                        && is_delivery(out[k].1, group_name, message)
            } else {
                &&& out.len() == 1
                &&& out[0].0 == client
                &&& out[0].1 matches FromServer::Error(e) && e@ == no_group_error_text(group_name)
            }
        },
    }
}

/// Dispatches one decoded request from `client` against the registry,
/// returning the frames to deliver. Total: every request is handled.
pub fn handle_request(table: &mut GroupTable, client: u64, req: &FromClient) -> (out: Vec<
    (u64, FromServer),
>)
    requires
        old(table).wf(),
    ensures
        final(table).wf(),
        dispatch_post(*old(table), *final(table), client, req@, out@),
{
    match req {
        FromClient::Join { group_name } => {
            table.join(group_name.as_str(), client);
            Vec::new()
        }
        FromClient::Post { group_name, message } => {
            match table.get(group_name.as_str()) {
                Some(group) => group.post(message.as_str()),
                None => {
                    let mut out: Vec<(u64, FromServer)> = Vec::new();
                    out.push(
                        (client, FromServer::Error(no_group_error(group_name.as_str()))),
                    );
                    out
                }
            }
        }
    }
}

/// One step of the connection loop: decodes one inbound line (without
/// its terminator) and dispatches it. `None` means the line was
/// malformed, which is fatal to this connection alone — the registry is
/// left exactly as it was, so every other connection and every group
/// remains fully usable.
pub fn handle_line(table: &mut GroupTable, client: u64, line: &str) -> (r: Option<
    Vec<(u64, FromServer)>,
>)
    requires
        old(table).wf(),
    ensures
        final(table).wf(),
        match r {
            Some(out) => spec_decode_client(line@) matches Some(req) && dispatch_post(
                *old(table),
                *final(table),
                client,
                req,
                out@,
            ),
            None => spec_decode_client(line@) is None && *final(table) == *old(table),
        },
{
    match decode_client(line) {
        Some(req) => Some(handle_request(table, client, &req)),
        None => None,
    }
}

} // verus!
