//! The phone half of sigil: pairing strings, what a woken phone says, the
//! order a wake window keeps, and the platform glue's decisions.
pub mod key;
pub mod notify;
pub mod pairing;
pub mod text;
pub mod wake;
pub mod window;
pub mod channel;
pub mod phone_app;
pub mod settings;
pub mod icon;
pub mod identity;
pub mod platform;
