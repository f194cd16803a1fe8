//! The data core of a game engine, with its contracts proved by Verus: an
//! archetype-based entity–component store, a registry of entities, labels
//! and resources with the restricted view that plugins get of it, a runner
//! that lends systems what they ask for, and keyboard and mouse-button state.
//!
//! Component and resource types are named by caller-chosen integer keys
//! ([`types::TypeKey`]); stored values are of one caller-chosen type `V`.
pub mod types;
pub mod error;
pub mod search;
pub mod maps;
pub mod column;
pub mod bundle;
pub mod archetype;
pub mod world;
pub mod label_index;
pub mod registry;
pub mod registry_view;
pub mod sys_runner;
pub mod input;
pub mod laws;
