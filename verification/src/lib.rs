//! Catalog and ranking core of a quick-launcher: it stores applications and
//! extension commands, answers free-text queries with a ranked, deduplicated
//! result list, and round-trips the whole catalog through a durable text
//! snapshot.

pub mod catalog;
pub mod codec;
pub mod errors;
pub mod fuzzy;
pub mod hexfmt;
pub mod ident;
pub mod model;
pub mod rank;
pub mod shortcut;
pub mod strcmp;
