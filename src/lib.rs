//! A dependency-injection container: components declare the interface types
//! they depend on, the container orders their construction so that every
//! dependency is built first, owns the built instances, and drives them
//! through a start phase in build order and a stop phase in reverse order.
pub mod declare;
pub mod error;
pub mod graph;
pub mod lifecycle;
pub mod repository;
