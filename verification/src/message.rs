//! Messages between sections and the actions sections ask of the network.

use vstd::prelude::*;

use crate::node::Node;
use crate::prefix::{Name, Prefix};

verus! {

/// A message of the relocation handshake, delivered by the network to the
/// section whose prefix matches the message's target name.
#[derive(Clone, Copy, PartialEq, Eq, Structural, Debug)]
pub enum Message {
    /// Request to relocate a node with the given name to the given target.
    RelocateRequest { node_name: Name, target: Name },
    /// Positive response to a relocate request.
    RelocateAccept { node_name: Name, target: Name },
    /// Negative response to a relocate request.
    RelocateReject { node_name: Name, target: Name },
    /// Actually relocate the node.
    RelocateCommit { node: Node, target: Name },
    /// Cancel a previously accepted relocate request, because the node to be
    /// relocated disconnected.
    RelocateCancel { node_name: Name, target: Name },
}

/// The name whose section a message is delivered to: requests, commits and
/// cancellations travel to the relocation target, responses travel back to
/// the node's current home.
pub open spec fn spec_target(m: Message) -> Name {
    match m {
        Message::RelocateRequest { target, .. } => target,
        Message::RelocateCommit { target, .. } => target,
        Message::RelocateCancel { target, .. } => target,
        Message::RelocateAccept { node_name, .. } => node_name,
        Message::RelocateReject { node_name, .. } => node_name,
    }
}

impl Message {
    /// The name whose section this message is delivered to.
    pub fn target(&self) -> (r: Name)
        ensures
            r == spec_target(*self),
    {
        match *self {
            Message::RelocateRequest { target, .. } => target,
            Message::RelocateCommit { target, .. } => target,
            Message::RelocateCancel { target, .. } => target,
            Message::RelocateAccept { node_name, .. } => node_name,
            Message::RelocateReject { node_name, .. } => node_name,
        }
    }
}

/// What a section asks the network to do.
#[derive(Clone, Copy, PartialEq, Eq, Structural, Debug)]
pub enum Action {
    /// Reject an attempt to join a section.
    Reject(Node),
    /// Merge all sections below the prefix into one section under it.
    Merge(Prefix),
    /// Split the section with the prefix into its two children.
    Split(Prefix),
    /// Deliver a message to the section matching its target.
    Send(Message),
}

} // verus!
