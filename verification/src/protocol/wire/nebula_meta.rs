//! What a message between a host and a lighthouse is for.

use vstd::prelude::*;

verus! {

#[derive(Debug, Clone, Copy, PartialEq, Eq, Structural)]
pub enum MessageType {
    Unset,
    HostQuery,
    HostQueryReply,
    HostUpdateNotification,
    HostMovedNotification,
    HostPunchNotification,
    HostWhoami,
    HostWhoamiReply,
    PathCheck,
    PathCheckReply,
    HostUpdateNotificationAck,
}

/// The number that stands for a type in a message.
pub open spec fn type_number(t: MessageType) -> i32 {
    match t {
        MessageType::Unset => 0,
        MessageType::HostQuery => 1,
        MessageType::HostQueryReply => 2,
        MessageType::HostUpdateNotification => 3,
        MessageType::HostMovedNotification => 4,
        MessageType::HostPunchNotification => 5,
        MessageType::HostWhoami => 6,
        MessageType::HostWhoamiReply => 7,
        MessageType::PathCheck => 8,
        MessageType::PathCheckReply => 9,
        MessageType::HostUpdateNotificationAck => 10,
    }
}

impl MessageType {
    pub fn as_i32(self) -> (r: i32)
        ensures
            r == type_number(self),
    {
        match self {
            MessageType::Unset => 0,
            MessageType::HostQuery => 1,
            MessageType::HostQueryReply => 2,
            MessageType::HostUpdateNotification => 3,
            MessageType::HostMovedNotification => 4,
            MessageType::HostPunchNotification => 5,
            MessageType::HostWhoami => 6,
            MessageType::HostWhoamiReply => 7,
            MessageType::PathCheck => 8,
            MessageType::PathCheckReply => 9,
            MessageType::HostUpdateNotificationAck => 10,
        }
    }
}

} // verus!
