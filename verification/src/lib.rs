//! A registry that consolidates independently declared virtual-host bindings
//! (host names, listening interfaces, optional sub-path, backend target) into
//! a minimal sequence of merged server groups, splitting existing groups when
//! a new registration only partially overlaps them.

pub mod config;
pub mod registry;
pub mod render;
