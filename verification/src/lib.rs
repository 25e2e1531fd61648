//! Capture and restore of an in-memory entity/attribute world.
//!
//! A world holds identifiable entities, each carrying typed attribute values
//! (components), plus typed singleton values (resources). This crate extracts
//! a detached, point-in-time copy of selected state (a snapshot) and later
//! re-applies it onto a possibly different world, with configurable identity
//! remapping and stale-entity cleanup.
//!
//! The host runtime's dynamic typed access is modelled by plain values: an
//! entity identity is an integer, a type name is an interned integer, and a
//! dynamic value is a type-name tag together with its payload fields.

pub mod keyed;
pub mod value;
pub mod registry;
pub mod policy;
pub mod entity_map;
pub mod world;
pub mod snapshot;
pub mod builder;
pub mod applier;
pub mod laws;
