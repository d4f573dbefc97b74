pub mod codec;
pub mod framer;
pub mod laws;
pub mod message;
pub mod wire;

pub use framer::Framer;
pub use framer::Termination;
pub use message::Command;
pub use message::Error;
pub use message::Message;
pub use message::Prefix;
pub use message::UserMask;
