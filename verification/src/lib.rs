//! A small web-server toolkit: an HTTP message model with a verified
//! parser and serializer, and the control-state bookkeeping for a
//! bounded worker pool with coordinated shutdown.

pub mod header_field;
pub mod http;
pub mod lifecycle;
pub mod message;
pub mod routing;
pub mod start_line;
pub mod text;
