//! The core of an HTTP server: what it makes of the bytes that clients send, and what it does next.
//!
//! A connection is driven from outside. It takes in what was received and tells the next step:
//! receive more, answer a request, send the answers, or end. Requests are decoded in
//! [`request`], their bodies are read with a [`BodyReader`], and [`connection`] and [`uring`] hold
//! the two kinds of connections.
pub mod body;
pub mod buf;
pub mod connection;
pub mod form;
pub mod head;
pub mod http_server;
pub mod io_uring;
pub mod laws;
pub mod params;
pub mod query;
pub mod request;
pub mod rounds;
pub mod scan;
pub mod text;
pub mod uring;

pub use body::BodyReader;
pub use head::{Head, Header, InvalidData};
pub use http_server::{get_somaxconn, FeatureError, Features, HttpServer, Launch, Mode};
pub use params::Params;
pub use request::{decode, Request};
