pub mod backoff;
pub mod span;
pub mod stream;
pub mod websocket;
