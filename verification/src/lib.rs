//! A teletext page client's core: building page requests, framing and
//! reading responses, extracting topics and story text from the fetched
//! markup, and tracking which topics are new since the last listing.

pub mod cache;
pub mod extract;
pub mod listing;
pub mod markup;
pub mod number;
pub mod page;
pub mod reader;
pub mod request;
pub mod session;
pub mod text;
