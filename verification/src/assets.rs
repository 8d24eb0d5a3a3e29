//! Statblocks: the per-actor attributes read when a turn is granted.
//!
//! Statblocks are authored as TOML files; decoding those files is plain
//! I/O glue and lives outside this library.  The core only consumes the
//! decoded values: `RecvTurn` refills an actor's movement budget from its
//! statblock speed.

use vstd::prelude::*;

verus! {

/// An actor's statblock: its display name, movement speed in feet, and
/// hit points.
pub struct Statblock {
    pub name: String,
    pub speed: u32,
    pub hit_points: u32,
}

/// Loader identity for statblock assets.
pub struct TomlLoader;

impl TomlLoader {
    pub fn new() -> (r: TomlLoader) {
        TomlLoader
    }

    /// The file extension this loader handles.
    pub fn extensions(&self) -> (r: &'static str)
        ensures
            r@ == "toml"@,
    {
        "toml"
    }
}

} // verus!
