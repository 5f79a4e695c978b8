//! Per-component storage and multi-component queries for an entity-component
//! system: dense, sparse, index-linked and marker containers, a join engine
//! over two or three containers, a registry that owns the containers, and a
//! query dispatcher that picks the join strategy from the layouts.

pub mod container;
pub mod dense;
pub mod entity;
pub mod hash_container;
pub mod laws;
pub mod marker;
pub mod query;
pub mod world;
pub mod zip;

pub use container::{ComponentContainer, Global, VecComponentContainer};
pub use dense::DenseStorage;
pub use entity::Entity;
pub use hash_container::HashComponentContainer;
pub use marker::MarkerContainer;
pub use query::{
    fallback_join2, fallback_join3, for_each2, for_each3, is_valid_entity_index, join2, join3, merge_join, probe_join2,
    probe_join3, safe_entity_new, validate_container, Query,
};
pub use world::{GetComponentContainer, World, WorldContainer};
pub use zip::{zip, zip3, zip3_mut, zip_mut, ZippedQuery2, ZippedQuery3, ZippedQueryMut2, ZippedQueryMut3};
