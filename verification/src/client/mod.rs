//! The client side: requests out, responses back in order, and what to do when
//! the connection is lost.

pub mod backoff;
pub mod calls;
pub mod driver;
pub mod inbox;
pub mod reader;
