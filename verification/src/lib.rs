//! A serial-terminal bridge library: a streaming UTF-8 decoder that turns an
//! arbitrarily-chunked byte stream into characters and flagged invalid bytes,
//! a visualizer that renders those units as terminal-safe escape sequences,
//! and the decision logic of the two transfer pipelines around them.

pub mod chunk;
pub mod decode;
pub mod visual;
pub mod pipeline;
pub mod options;
