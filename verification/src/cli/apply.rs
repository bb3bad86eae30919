//! The `apply` command: writes resources given as files or as JSON.

use vstd::prelude::*;
use crate::resource::Resource;

verus! {

/// The arguments of `apply`: paths of files and resources.
#[derive(Debug, PartialEq)]
pub struct Config {
    pub file: Vec<String>,
    pub json: Vec<Resource>,
    pub debug: bool,
}

} // verus!
