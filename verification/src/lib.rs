//! Protocol-version negotiation: sets of version numbers kept as sorted
//! inclusive ranges, entries that map protocol names to such sets, and the
//! threshold vote that merges many entries into one.

pub mod errors;
pub mod protocol;
pub mod protoentry;
pub mod protoset;
pub mod protover;
pub mod ranges;
pub mod sorting;
pub mod table;
pub mod text;
pub mod vote;

pub use errors::ProtoverError;
pub use protocol::{Protocol, UnknownProtocol, MAX_PROTOCOL_NAME_LENGTH};
pub use protoentry::{
    get_supported_protocols, is_supported_here, ProtoEntry, UnvalidatedProtoEntry,
    MAX_PROTOCOLS_TO_EXPAND,
};
pub use protoset::{find_range, ProtoSet};
pub use protover::{
    compute_for_old_tor, old_tor_versions, FIRST_TOR_VERSION_TO_ADVERTISE_PROTOCOLS,
};
pub use ranges::Version;
pub use vote::ProtoverVote;
