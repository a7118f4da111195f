//! A uniform, selection-aware interface over keyed containers.
//!
//! Growable arrays, hash maps, ordered maps, ring buffers and containers of the
//! user's own are handled through one contract, [`Collection`]. A
//! [`CollectionStore`] owns one container together with at most one selected
//! key, and a [`CollectionItem`] is a handle on one element of a store.

pub mod collection_item;
pub mod collection_store;
pub mod collection_trait;
pub mod error;
pub mod implementations;
pub mod laws;

pub use collection_item::CollectionItem;
pub use collection_store::CollectionStore;
pub use collection_trait::{Collection, SequentialCollection};
pub use error::{CollectionError, CollectionResult};
pub use implementations::circular_buffer::CircularBuffer;
