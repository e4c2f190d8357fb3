//! Client-side implementation of the greetd login protocol: message types,
//! the length-prefixed wire codec, and the session state machine that drives
//! one login attempt from `create_session` to a terminal outcome.

pub mod codec;
pub mod decode;
pub mod frame;
pub mod machine;
pub mod msg;
pub mod session;
pub mod userfile;
