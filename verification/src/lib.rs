//! Verified core of the Komodo periphery and core helpers: parsing of the
//! websocket header file, checks on that file's metadata, the compose
//! service and project listings, the redaction of resolved compose configs,
//! and the container-name pattern of a stack.

pub mod compose;
pub mod headers;
pub mod http_headers;
pub mod redact;
pub mod stack;
pub mod text;
pub mod yaml;
