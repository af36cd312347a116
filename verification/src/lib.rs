//! Verified core of an interactive archiving tool: per-path archive options,
//! the bounded byte channel between producer and consumer, the directory
//! browser's state machine, file classification and listing text, and the
//! image ordering used before optimization.

pub mod option;
pub mod text;
pub mod paths;
pub mod choices;
pub mod channel;
pub mod entries;
pub mod extensions;
pub mod keys;
pub mod prompt;
pub mod browser;
pub mod digits;
pub mod listing;
pub mod ordering;
pub mod codecs;
pub mod tar_header;
pub mod storage;
pub mod metadata;
pub mod layout;
pub mod labels;
