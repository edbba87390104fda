//! Pelorus: the verified core of a memory-safe browser's network, sandbox and
//! layout layers.
pub mod text_ops;
pub mod numbers;
pub mod net;
pub mod sandbox;
pub mod layout;
