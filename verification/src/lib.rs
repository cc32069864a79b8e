//! A small HTTP/1.x front server: request and response parsing, routing,
//! static-file responses and the byte form of requests sent upstream.

pub mod text;
pub mod http;
pub mod handlers;
pub mod router;
pub mod server;
