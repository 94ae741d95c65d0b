//! The tracker's answer, under the name it is also known by.
pub use crate::announce::{parse_announce_response, AnnounceResponse};
