//! A verified entity-component-system storage core: entity allocation,
//! component registration, columnar tables, sparse sets, the archetype
//! graph, bundles and queries.

pub mod tick;
pub mod archetype;
pub mod table;
pub mod entity;
pub mod component;
pub mod blob_vec;
pub mod sparse_set;
pub mod bundle;
pub mod world;
pub mod query;
pub mod borrow;
