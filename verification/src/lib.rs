//! A discrete-event simulator of a self-organizing, prefix-partitioned
//! peer-to-peer overlay.  Nodes carry 64-bit names and integer ages, and are
//! grouped into sections identified by binary prefixes of their names.
//! Sections split when they grow, merge when adults become scarce, and
//! relocate nodes between each other driven by a hash of their recent history.

pub mod chain;
pub mod message;
pub mod network;
pub mod node;
pub mod params;
pub mod prefix;
pub mod random;
pub mod section;
pub mod stats;

pub use prefix::Name;
pub use prefix::Prefix;
