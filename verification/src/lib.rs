pub mod clock;
pub mod codec;
pub mod frame;
pub mod identity;
pub mod registry;
pub mod notice;
pub mod broadcast;
pub mod session;
pub mod laws;
pub mod client;
