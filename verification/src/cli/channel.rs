//! The channel hierarchy: the flat records that the service lists, the tree
//! that is built from them, the cursor that walks it by path, and listings.

pub mod command;
pub mod construct;
pub mod cursor;
pub mod directory;
pub mod listing;
pub mod node;
pub mod path;
pub mod record;

pub use command::channel;
pub use command::get_channel_tree;
pub use cursor::ChannelTree;
pub use directory::ChannelDirectory;
pub use node::ChannelTreeNode;
pub use node::NodeView;
pub use record::get_channels_mp;
pub use record::ChannelLike;
pub use record::ChannelMap;
pub use record::ChannelRecord;
