//! Linked-list containers with two storage strategies sharing one behavioral
//! contract: a heap-node list (`DynamicLinkedList`) whose nodes own the rest of
//! the chain, and a fixed-capacity, array-backed list (`StaticLinkedList`) that
//! manages its own slots through an internal free chain and reuses them without
//! further allocation.
#![verifier::loop_isolation(false)]

pub mod elem;
pub mod model;
pub mod dynamic_list;
pub mod static_list;
