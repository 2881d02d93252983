//! The subscribed event kinds and the event classifier.
//!
//! The event source delivers one strongly-typed discriminated event value
//! per item. The classifier is a pure, total function from an event to a
//! structural operation (create, replace, delete, membership delta) on a
//! target object kind, or to an explicit ignored marker; kinds outside the
//! reconciler's concern never reach it as operations.

use vstd::prelude::*;
use crate::store::ChannelKind;

verus! {

/// A full server payload: the first sight of a populated server, or an
/// authoritative refresh.
pub struct ServerPayload {
    pub id: u64,
    pub name: String,
}

/// A partial server update: only the fields the remote side considered
/// changed are present.
pub struct ServerPatch {
    pub id: u64,
    pub name: Option<String>,
}

/// A full channel (or thread) payload.
pub struct ChannelPayload {
    pub id: u64,
    pub server_id: u64,
    pub kind: ChannelKind,
    pub name: String,
}

/// A partial channel update.
pub struct ChannelPatch {
    pub id: u64,
    pub name: Option<String>,
}

/// An advisory thread-membership delta: member links added and removed.
pub struct MembershipDelta {
    pub thread_id: u64,
    pub added: Vec<u64>,
    pub removed: Vec<u64>,
}

/// The mathematical image of a membership delta.
pub struct DeltaModel {
    pub thread_id: u64,
    pub added: Seq<u64>,
    pub removed: Seq<u64>,
}

impl View for MembershipDelta {
    type V = DeltaModel;

    open spec fn view(&self) -> DeltaModel {
        DeltaModel { thread_id: self.thread_id, added: self.added@, removed: self.removed@ }
    }
}

/// The subscribed event kinds, as the connected stream yields them:
/// server lifecycle, channel lifecycle (threads included), membership
/// deltas, and the message-adjacent kinds the reconciler leaves alone.
pub enum Event {
    /// A fully-populated server payload.
    ServerAvailable(ServerPayload),
    /// A server announced at stream open that the source could not read.
    ServerUnreadable(u64),
    /// A partial-field server update.
    ServerUpdate(ServerPatch),
    /// A server is gone; `unreachable` set means "still exists, just
    /// unreachable" (an outage), unset means a confirmed removal.
    ServerGone { id: u64, unreachable: bool },
    ChannelCreate(ChannelPayload),
    ChannelUpdate(ChannelPatch),
    ChannelDelete(u64),
    ThreadCreate(ChannelPayload),
    ThreadUpdate(ChannelPatch),
    ThreadDelete(u64),
    ThreadMembersChange(MembershipDelta),
    MessageCreate(u64),
    MessageDelete(u64),
    ReactionChange(u64),
    TypingStart(u64),
    PresenceChange(u64),
    PinsChange(u64),
    StageInstanceChange(u64),
    InviteChange(u64),
    VoiceStateChange(u64),
}

/// A classified structural operation, ready for the reconciler, or the
/// explicit ignored marker.
pub enum Action {
    CreateServer(ServerPayload),
    ReplaceServer(ServerPatch),
    /// An availability transition only: the server still exists and its
    /// owned data is retained.
    OutageServer(u64),
    /// A confirmed delete: terminal for the identity, children released.
    DeleteServer(u64),
    CreateChannel(ChannelPayload),
    ReplaceChannel(ChannelPatch),
    DeleteChannel(u64),
    ApplyMembershipDelta(MembershipDelta),
    Ignored,
}

/// The target object kind of a classified operation.
pub enum TargetKind {
    Server,
    Channel,
    Membership,
}

/// The operation class of a classified operation.
pub enum OpKind {
    Create,
    Replace,
    Delete,
    MembershipDelta,
}

/// The `(target kind, operation)` shape of an action; `None` for the
/// ignored marker.
pub open spec fn action_shape(a: Action) -> Option<(TargetKind, OpKind)> {
    match a {
        Action::CreateServer(_) => Some((TargetKind::Server, OpKind::Create)),
        Action::ReplaceServer(_) => Some((TargetKind::Server, OpKind::Replace)),
        Action::OutageServer(_) => Some((TargetKind::Server, OpKind::Replace)),
        Action::DeleteServer(_) => Some((TargetKind::Server, OpKind::Delete)),
        Action::CreateChannel(_) => Some((TargetKind::Channel, OpKind::Create)),
        Action::ReplaceChannel(_) => Some((TargetKind::Channel, OpKind::Replace)),
        Action::DeleteChannel(_) => Some((TargetKind::Channel, OpKind::Delete)),
        Action::ApplyMembershipDelta(_) => Some((TargetKind::Membership, OpKind::MembershipDelta)),
        Action::Ignored => None,
    }
}

/// What the classifier assigns to each event kind. A "server gone" with the
/// outage flag is a state transition only; without it, a confirmed delete.
pub open spec fn spec_classify(ev: Event) -> Action {
    match ev {
        Event::ServerAvailable(p) => Action::CreateServer(p),
        Event::ServerUnreadable(id) => Action::OutageServer(id),
        Event::ServerUpdate(p) => Action::ReplaceServer(p),
        Event::ServerGone { id, unreachable } => if unreachable {
            Action::OutageServer(id)
        } else {
            Action::DeleteServer(id)
        },
        Event::ChannelCreate(p) => Action::CreateChannel(p),
        Event::ChannelUpdate(p) => Action::ReplaceChannel(p),
        Event::ChannelDelete(id) => Action::DeleteChannel(id),
        Event::ThreadCreate(p) => Action::CreateChannel(p),
        Event::ThreadUpdate(p) => Action::ReplaceChannel(p),
        Event::ThreadDelete(id) => Action::DeleteChannel(id),
        Event::ThreadMembersChange(d) => Action::ApplyMembershipDelta(d),
        Event::MessageCreate(_) => Action::Ignored,
        Event::MessageDelete(_) => Action::Ignored,
        Event::ReactionChange(_) => Action::Ignored,
        Event::TypingStart(_) => Action::Ignored,
        Event::PresenceChange(_) => Action::Ignored,
        Event::PinsChange(_) => Action::Ignored,
        Event::StageInstanceChange(_) => Action::Ignored,
        Event::InviteChange(_) => Action::Ignored,
        Event::VoiceStateChange(_) => Action::Ignored,
    }
}

/// Classify one event. Total: every subscribed event kind maps to exactly
/// one operation or to the ignored marker, and an unsupported kind never
/// aborts ingestion.
pub fn classify(ev: Event) -> (a: Action)
    ensures
        a == spec_classify(ev),
{
    match ev {
        Event::ServerAvailable(p) => Action::CreateServer(p),
        Event::ServerUnreadable(id) => Action::OutageServer(id),
        Event::ServerUpdate(p) => Action::ReplaceServer(p),
        Event::ServerGone { id, unreachable } => if unreachable {
            Action::OutageServer(id)
        } else {
            Action::DeleteServer(id)
        },
        Event::ChannelCreate(p) => Action::CreateChannel(p),
        Event::ChannelUpdate(p) => Action::ReplaceChannel(p),
        Event::ChannelDelete(id) => Action::DeleteChannel(id),
        Event::ThreadCreate(p) => Action::CreateChannel(p),
        Event::ThreadUpdate(p) => Action::ReplaceChannel(p),
        Event::ThreadDelete(id) => Action::DeleteChannel(id),
        Event::ThreadMembersChange(d) => Action::ApplyMembershipDelta(d),
        Event::MessageCreate(_) => Action::Ignored,
        Event::MessageDelete(_) => Action::Ignored,
        Event::ReactionChange(_) => Action::Ignored,
        Event::TypingStart(_) => Action::Ignored,
        Event::PresenceChange(_) => Action::Ignored,
        Event::PinsChange(_) => Action::Ignored,
        Event::StageInstanceChange(_) => Action::Ignored,
        Event::InviteChange(_) => Action::Ignored,
        Event::VoiceStateChange(_) => Action::Ignored,
    }
}

} // verus!
