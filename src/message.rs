//! What the core asks its caller to do: outgoing wire messages, each with its
//! recipients, and notifications for the scripting host.
use vstd::prelude::*;

use crate::geometry::{Mat3, Position};

verus! {

/// Target id of an application-specific message that names no session: the
/// strategy alone then chooses the recipients.
pub const NO_TARGET: i32 = -9999;

/// One outgoing wire message.
#[derive(Debug)]
pub enum Message {
    /// A session came into the recipient's aura.
    UserJoined { id: i32, avatar: String, name: String },
    /// A session left the recipient's aura or the world.
    UserLeft { id: i32 },
    /// The number of connected sessions.
    UserCount { count: i32 },
    /// Tells a newly identified session that it is not the master.
    SetMaster { flag: u8 },
    /// A session moved.
    PositionUpdate { from: i32, pos: Position },
    /// A session moved and turned.
    TransformUpdate { from: i32, rot: Mat3, pos: Position },
    /// A line of global chat, already prefixed with the sender's name.
    ChatSend { from: i32, text: String },
    /// A session's character description.
    CharacterUpdate { from: i32, data: String },
    /// A session's new display name.
    NameChange { from: i32, name: String },
    /// A session's new avatar.
    AvatarChange { from: i32, avatar: String },
    /// A private line from one session to another.
    PrivateChat { from: i32, text: String },
    /// A message defined by the world's application, relayed as sent.
    ApplSpecific { from: i32, target: i32, strategy: u8, method: String, strarg: String, intarg: i32 },
    /// A text notice from the server to one session.
    Notice { text: String },
}

/// A message with its strings as sequences of characters.
pub enum MessageView {
    UserJoined { id: i32, avatar: Seq<char>, name: Seq<char> },
    UserLeft { id: i32 },
    UserCount { count: i32 },
    SetMaster { flag: u8 },
    PositionUpdate { from: i32, pos: Position },
    TransformUpdate { from: i32, rot: Seq<u32>, pos: Position },
    ChatSend { from: i32, text: Seq<char> },
    CharacterUpdate { from: i32, data: Seq<char> },
    NameChange { from: i32, name: Seq<char> },
    AvatarChange { from: i32, avatar: Seq<char> },
    PrivateChat { from: i32, text: Seq<char> },
    ApplSpecific {
        from: i32,
        target: i32,
        strategy: u8,
        method: Seq<char>,
        strarg: Seq<char>,
        intarg: i32,
    },
    Notice { text: Seq<char> },
}

impl View for Message {
    type V = MessageView;

    open spec fn view(&self) -> MessageView {
        match self {
            Message::UserJoined { id, avatar, name } => MessageView::UserJoined {
                id: *id,
                avatar: avatar@,
                name: name@,
            },
            Message::UserLeft { id } => MessageView::UserLeft { id: *id },
            Message::UserCount { count } => MessageView::UserCount { count: *count },
            Message::SetMaster { flag } => MessageView::SetMaster { flag: *flag },
            Message::PositionUpdate { from, pos } => MessageView::PositionUpdate {
                from: *from,
                pos: *pos,
            },
            Message::TransformUpdate { from, rot, pos } => MessageView::TransformUpdate {
                from: *from,
                rot: rot.data@,
                pos: *pos,
            },
            Message::ChatSend { from, text } => MessageView::ChatSend { from: *from, text: text@ },
            Message::CharacterUpdate { from, data } => MessageView::CharacterUpdate {
                from: *from,
                data: data@,
            },
            Message::NameChange { from, name } => MessageView::NameChange {
                from: *from,
                name: name@,
            },
            Message::AvatarChange { from, avatar } => MessageView::AvatarChange {
                from: *from,
                avatar: avatar@,
            },
            Message::PrivateChat { from, text } => MessageView::PrivateChat {
                from: *from,
                text: text@,
            },
            Message::ApplSpecific { from, target, strategy, method, strarg, intarg } =>
                MessageView::ApplSpecific {
                from: *from,
                target: *target,
                strategy: *strategy,
                method: method@,
                strarg: strarg@,
                intarg: *intarg,
            },
            Message::Notice { text } => MessageView::Notice { text: text@ },
        }
    }
}

/// One thing for the caller to do, in order.
#[derive(Debug)]
pub enum Effect {
    /// Send `msg` to each session in `to`, in that order.
    Send { to: Vec<i32>, msg: Message },
    /// Tell the scripting host that `other` entered `user`'s aura.
    AuraEntered { user: i32, other: i32 },
    /// Tell the scripting host that `other` left `user`'s aura.
    AuraLeft { user: i32, other: i32 },
    /// Tell the scripting host that a session is being removed.
    Removed { id: i32 },
}

/// An effect with its recipients and strings as sequences.
pub enum EffectView {
    Send { to: Seq<i32>, msg: MessageView },
    AuraEntered { user: i32, other: i32 },
    AuraLeft { user: i32, other: i32 },
    Removed { id: i32 },
}

impl View for Effect {
    type V = EffectView;

    open spec fn view(&self) -> EffectView {
        match self {
            Effect::Send { to, msg } => EffectView::Send { to: to@, msg: msg@ },
            Effect::AuraEntered { user, other } => EffectView::AuraEntered {
                user: *user,
                other: *other,
            },
            Effect::AuraLeft { user, other } => EffectView::AuraLeft { user: *user, other: *other },
            Effect::Removed { id } => EffectView::Removed { id: *id },
        }
    }
}

/// The views of a list of effects.
pub open spec fn effects_view(v: Seq<Effect>) -> Seq<EffectView> {
    v.map_values(|e: Effect| e@)
}

} // verus!
