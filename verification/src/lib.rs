//! Relay for OSC-style control messages: a binary codec for the wire
//! format, a fan-out delivery channel, and the pure decision logic of the
//! listener and sender loops.

pub mod codec;
pub mod config;
pub mod relay;

pub use codec::DecodeError;
pub use codec::OscArg;
pub use codec::OscMessage;
pub use config::Config;
pub use config::ConfigError;
pub use relay::Distributor;
pub use relay::OscRepeater;
pub use relay::InboundListener;
pub use relay::RecvEvent;
pub use relay::OutboundSender;
pub use relay::SenderAction;
