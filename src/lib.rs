//! Memory layout and element allocation for a hierarchical proximity-graph index.
//!
//! The sizing model, the packed element record and the allocator state machine
//! are all stated over integers, so every size and offset is exact.

pub mod element_allocator;
pub mod error;
pub mod index_params;
pub mod layer;
pub mod memory;
pub mod record;

pub use element_allocator::{ElementAllocator, ElementHandle};
pub use error::{ElementAllocationError, InitializationError};
pub use index_params::IndexParams;
pub use layer::{calculate_layer_probabilities, Layer, LevelProbability};
pub use memory::{HeapAllocator, HeapMemory, MemoryAllocation, MemoryAllocator};
