//! The commands of the client: channel navigation and listing, and the
//! batched change of subscription levels.

pub mod channel;
pub mod notify;
