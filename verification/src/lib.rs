//! Input-driven dynamic FPS limiting.
//!
//! Input devices are watched for activity. Every tick the limit handed to the
//! running game follows that activity: it rises while the devices are busy and
//! falls back once they are idle.

pub mod bootstrap;
pub mod client;
pub mod debounce;
pub mod decimal;
pub mod double;
pub mod ewm;
pub mod fps_limiter;
pub mod gamescope;
pub mod input_parsing;
pub mod order;
pub mod raw_export;
pub mod replay;
pub mod scratch;
pub mod server;
pub mod supervisor;
