//! Core of a small event catalog: an identity-indexed referential store.
//!
//! The crate provides type-tagged identifiers, a generic keyed container
//! (`IdMap`) with create/read/update/delete/validate operations, a `Catalog`
//! (`Store`) owning a locations store and an events store with
//! referential-integrity-checked deletion and derived occurrence views, a
//! notifying CRUD decorator, and a visitor counter. All operations are
//! specified and verified; I/O, rendering and wire encoding live outside
//! this crate and exchange plain values with it.

pub mod counter;
pub mod crud;
pub mod events;
pub mod id_map;
