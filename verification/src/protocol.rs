//! Formats and rules that servers and clients share.
pub mod certificate;
pub mod packet;
pub mod sigin;
pub mod signature;
pub mod wire;
