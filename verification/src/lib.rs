//! Connection-header codec and package-file discovery logic for a ROS 1
//! TCPROS transport.
//!
//! The heart of the crate is [`tcpros`]: the length-prefixed binary header
//! that two nodes exchange before streaming messages, with verified encoding
//! and decoding. [`util`] holds the pure part of the on-disk message-file
//! discovery: matching file names and deriving package names from paths.

pub mod tcpros;
pub mod util;
