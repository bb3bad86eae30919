//! The commands of the command-line client, as values.

pub mod apply;
pub mod get;
pub mod show;

use vstd::prelude::*;

verus! {

/// What the command-line client is asked to do.
#[derive(Debug, PartialEq)]
pub enum Command {
    Get(get::Config),
    Show(show::Config),
    Apply(apply::Config),
}

/// The endpoint the client connects to when none is named.
pub const DEFAULT_DATASTORE_ENDPOINT: &'static str = "http://127.0.0.1:7000";

} // verus!
