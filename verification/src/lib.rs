//! A schema-typed record store: entries addressed by opaque keys, queried
//! through a small algebra of read requests (exact lookup, field search,
//! substring search, and paginated full scan with sorting).
//!
//! The in-memory backend [`vec_table::VecTable`] executes the query pipeline
//! directly and serves as the reference engine; the relational planner in
//! [`relational`] emits structured commands whose semantics are proved equal
//! to the reference pipeline, so an adapter that renders them faithfully
//! yields the same results. The laws the whole contract obeys — round
//! trips, key freshness, removal visibility, sorting, backend equivalence —
//! are stated and proved in [`laws`] and [`relational`].

pub mod interface;
pub mod laws;
pub mod relational;
pub mod vec_table;

pub use interface::MAX_LIMIT;
