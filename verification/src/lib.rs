//! A composable storage-access pipeline: an `Operator` facade over a leaf
//! backend, decorated by an ordered chain of layers. Observe-only layers pass
//! every operation through unchanged; a content-transforming layer (the
//! substitution cipher) intercepts the read and write byte streams. Because
//! its transform is position-independent, it stays correct under arbitrary
//! chunking and range-bounded reads, and the round-trip, chunk-invariance and
//! passthrough laws are stated and proved here.

pub mod backend;
pub mod buffer;
pub mod caesar;
pub mod layer;
pub mod operator;

pub use backend::EntryMode;
pub use backend::ErrorKind;
pub use backend::MemoryBackend;
pub use backend::Metadata;
pub use buffer::Buffer;
pub use caesar::CaesarCipherLayer;
pub use layer::Layer;
pub use operator::Operator;
pub use operator::Reader;
pub use operator::Writer;
