//! A view-to-element reconciliation engine.
//!
//! A declaratively rebuilt, immutable description of a user-interface tree
//! (a tree of view configurations) is turned into a persistent, mutable
//! instantiation tree of elements. Every rebuild is diffed against the
//! previous element tree to decide whether each node is reused, updated in
//! place, or destroyed and recreated, and a separate render-object tree is
//! projected from the elements that stand for host-renderable nodes.

pub mod arena;
pub mod build_context;
pub mod element;
pub mod framework;
pub mod keypath;
pub mod lifecycle;
pub mod node;
pub mod observable;
pub mod render;
pub mod tuple;
pub mod view;
