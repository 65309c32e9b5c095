//! Discover the distinct chat participants a given user has interacted with.
//!
//! The library holds the verified logic of the tool: parsing the two JSON
//! response shapes of the administrative interface (a room-membership query
//! and a room-members query), aggregating member identities across rooms
//! while excluding the queried user, and deciding what the report shows.
//! Identities and room identifiers are carried as byte strings; the binary
//! around the library performs the external command calls and the printing.

pub mod contacts;
pub mod json;
pub mod order;
pub mod report;
pub mod response;
