//! Typed representation of device-bridge socket endpoint addresses.
//!
//! An address is a tag literal (such as `tcp` or `vsock`) followed by `:` and a
//! family-specific remainder. Each family type parses its own wire grammar and
//! formats values back into the exact wire string; a closed union dispatches a
//! parse attempt across every family in a fixed order.

pub mod error;
pub mod ip;
pub mod socket;
pub mod text;
