//! A concurrent client core for the Pixelflut pixel-painting protocol.
//!
//! The library covers the protocol codec, verified models of the two
//! dispatch strategies (a pooled fan-out over several connections and a
//! bounded-concurrency single socket), and the painter's chunking logic.
pub mod codec;
pub mod gate;
pub mod painter;
pub mod pool;

pub use codec::Cmd;
pub use codec::PaintError;
pub use codec::Rgb;
pub use codec::Vec2;
pub use codec::decode_size;
pub use gate::DEFAULT_CONCURRENCY;
pub use gate::Gate;
pub use painter::chunk_pixels;
pub use pool::Pool;
pub use pool::QUEUE_CAPACITY;
pub use pool::Worker;
