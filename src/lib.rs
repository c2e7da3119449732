//! Parsers for the chat-history log format and for the inline display
//! markup, and the colour-pair allocator that turns markup colours into
//! terminal attribute words.
pub mod datetime;
pub mod error;
pub mod logger;
pub mod strings;
pub mod text;
pub mod theming;
