//! A compact, self-describing binary format with interned symbols.
//!
//! The wire format, the atom codec, the integer narrowing rules and the symbol
//! tables are verified; their contracts are stated over byte sequences.

pub mod de;
pub mod error;
pub mod format;
pub mod reader;
pub mod ser;
pub mod value;

pub use crate::error::Error;
pub use crate::value::Value;

use vstd::prelude::*;

verus! {

/// Serialization settings that change what is written.
#[derive(Debug, Eq, PartialEq, Clone, Copy, Structural)]
pub enum Compatibility {
    /// Writes data that every version of the format can read. Unit enum
    /// variants are written as a name alone.
    Full,
    /// Writes unit enum variants as a name followed by a unit, so that a
    /// self-describing reader can tell them from variants that hold data.
    V4,
}

impl Compatibility {
    /// The compatibility used when none is chosen: [`Compatibility::Full`].
    pub fn const_default() -> (r: Compatibility)
        ensures
            r == Compatibility::Full,
    {
        Compatibility::Full
    }
}

/// Serialization and deserialization configuration.
#[derive(Clone, Copy, Debug, PartialEq, Eq, Structural)]
pub struct Config {
    /// The number of bytes a decoder may allocate.
    pub allocation_budget: usize,
    /// How unit enum variants are written.
    pub compatibility: Compatibility,
}

impl Default for Config {
    fn default() -> (r: Config)
        ensures
            r.allocation_budget == usize::MAX,
            r.compatibility == Compatibility::Full,
    {
        Config::new()
    }
}

impl Default for Compatibility {
    fn default() -> (r: Compatibility)
        ensures
            r == Compatibility::Full,
    {
        Compatibility::const_default()
    }
}

impl Config {
    /// Returns the default configuration: an unlimited allocation budget and
    /// [`Compatibility::Full`].
    pub fn new() -> (r: Config)
        ensures
            r.allocation_budget == usize::MAX,
            r.compatibility == Compatibility::Full,
    {
        Config { allocation_budget: usize::MAX, compatibility: Compatibility::const_default() }
    }

    /// Sets the maximum number of bytes a decoder may allocate.
    pub fn allocation_budget(self, budget: usize) -> (r: Config)
        ensures
            r.allocation_budget == budget,
            r.compatibility == self.compatibility,
    {
        Config { allocation_budget: budget, ..self }
    }

    /// Sets the compatibility mode for serializing and returns self.
    pub fn compatibility(self, compatibility: Compatibility) -> (r: Config)
        ensures
            r.allocation_budget == self.allocation_budget,
            r.compatibility == compatibility,
    {
        Config { compatibility, ..self }
    }
}

} // verus!
