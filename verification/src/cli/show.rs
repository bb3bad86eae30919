//! The `show` command: lists the kinds, namespaces or versions of resources.

use vstd::prelude::*;

verus! {

/// What `show` lists.
#[derive(Debug, Clone, Copy, PartialEq, Eq, Structural)]
pub enum ShowType {
    Kinds,
    Namespaces,
    Versions,
}

/// The arguments of `show`.
#[derive(Debug, Clone, Copy, PartialEq, Eq, Structural)]
pub struct Config {
    pub show_type: ShowType,
    pub debug: bool,
}

} // verus!
