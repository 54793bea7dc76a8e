//! Wire-format codec for a delimiter-framed game protocol with a login
//! channel and a keyed world channel.

pub mod byte;
pub mod channel;
pub mod encode;
pub mod framing;
pub mod key;
pub mod login;
pub mod session;
pub mod text;
pub mod unpack;
