//! The data model: raw conversation records as the platform returns them,
//! pages of such records, and the normalized output record.

use vstd::prelude::*;

verus! {

/// One conversation as the list endpoint returns it, before normalization.
/// Every variant carries a stable conversation id, a creation timestamp and
/// an archived flag; channels carry a name, and a direct message carries the
/// counterpart's user id and whether that account has been deleted.
#[derive(Debug)]
pub enum RawConversation {
    PublicChannel { id: String, name: String, created: u64, is_archived: bool },
    PrivateChannel { id: String, name: String, created: u64, is_archived: bool },
    DirectMessage {
        id: String,
        created: u64,
        is_archived: bool,
        user: String,
        is_user_deleted: bool,
    },
}

impl RawConversation {
    /// The stable conversation id, common to all variants.
    pub open spec fn spec_id(&self) -> Seq<char> {
        match self {
            RawConversation::PublicChannel { id, .. } => id@,
            RawConversation::PrivateChannel { id, .. } => id@,
            RawConversation::DirectMessage { id, .. } => id@,
        }
    }

    /// The archived flag, common to all variants.
    pub open spec fn spec_is_archived(&self) -> bool {
        match self {
            RawConversation::PublicChannel { is_archived, .. } => *is_archived,
            RawConversation::PrivateChannel { is_archived, .. } => *is_archived,
            RawConversation::DirectMessage { is_archived, .. } => *is_archived,
        }
    }

    /// The channel name, for the two channel variants.
    pub open spec fn spec_name(&self) -> Seq<char> {
        match self {
            RawConversation::PublicChannel { name, .. } => name@,
            RawConversation::PrivateChannel { name, .. } => name@,
            RawConversation::DirectMessage { .. } => Seq::empty(),
        }
    }

    /// The counterpart user id of a direct message.
    pub open spec fn spec_user(&self) -> Seq<char> {
        match self {
            RawConversation::DirectMessage { user, .. } => user@,
            _ => Seq::empty(),
        }
    }

    /// Whether the counterpart account of a direct message has been deleted.
    pub open spec fn spec_is_user_deleted(&self) -> bool {
        match self {
            RawConversation::DirectMessage { is_user_deleted, .. } => *is_user_deleted,
            _ => false,
        }
    }
}

/// One page of results: an ordered run of raw records and the continuation
/// cursor. An empty cursor signals that no page follows.
#[derive(Debug)]
pub struct Page {
    pub channels: Vec<RawConversation>,
    pub next_cursor: String,
}

/// The mathematical content of a normalized record: every field as a plain
/// spec value.
pub ghost struct ConversationView {
    pub id: Seq<char>,
    pub type_marker: char,
    pub names: Seq<Seq<char>>,
    pub is_archived: bool,
    pub is_deleted: bool,
}

/// The unified output record of normalization.
#[derive(Debug)]
pub struct NormalizedConversation {
    /// Stable identifier, unique per conversation.
    pub id: String,
    /// One of `'#'` (public channel), `'!'` (private channel), `'&'`
    /// (multi-person direct message), `'@'` (direct message); derived solely
    /// from the raw variant and its name prefix, never user-supplied.
    pub type_marker: char,
    /// Display names: exactly one for channels and direct messages, the
    /// member list for a multi-person direct message. Never empty.
    pub names: Vec<String>,
    /// Inherited from the raw record.
    pub is_archived: bool,
    /// True only for a direct message whose counterpart account was deleted.
    pub is_deleted: bool,
}

impl View for NormalizedConversation {
    type V = ConversationView;

    open spec fn view(&self) -> ConversationView {
        ConversationView {
            id: self.id@,
            type_marker: self.type_marker,
            names: self.names.deep_view(),
            is_archived: self.is_archived,
            is_deleted: self.is_deleted,
        }
    }
}

impl NormalizedConversation {
    /// Every normalized record carries at least one name and one of the four
    /// type markers.
    pub open spec fn well_formed(&self) -> bool {
        &&& self@.names.len() >= 1
        &&& (self.type_marker == '#' || self.type_marker == '!' || self.type_marker == '&'
            || self.type_marker == '@')
    }
}

} // verus!
