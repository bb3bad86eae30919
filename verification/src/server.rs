//! The choices of the datastore service program.

use vstd::prelude::*;
use crate::text::{chars_eq_str, chars_of, lowercase, push_all, push_str, string_from_chars, to_lowercase};

verus! {

/// The backends the datastore service can keep resources in.
#[derive(Debug, Clone, Copy, PartialEq, Eq, Structural)]
pub enum DatastoreType {
    Mem,
}

/// What `format!("{:?}", s)` gives for a text: the text quoted, with the
/// characters that need it escaped.
pub uninterp spec fn debug_text(s: Seq<char>) -> Seq<char>;

/// Wraps the `Debug` form of a text (`format!("{:?}", s)` on `&str`). The
/// claim is only that the result is a function of the text alone; the
/// escaping itself is left unstated.
#[verifier::external_body]
fn debug_str(s: &str) -> (r: String)
    ensures
        r@ == debug_text(s@),
{
    format!("{:?}", s)
}

/// The message for a backend name that is not known.
pub open spec fn unknown_type_text(s: Seq<char>) -> Seq<char> {
    debug_text(s) + " is not reconized as a datastore type. allowed values are: mem "@
}

/// The message for a backend name that is not known.
fn unknown_datastore_type(s: &str) -> (r: String)
    ensures
        r@ == unknown_type_text(s@),
{
    let mut m: Vec<char> = Vec::new();
    push_all(&mut m, &chars_of(debug_str(s).as_str()));
    push_str(&mut m, " is not reconized as a datastore type. allowed values are: mem ");
    string_from_chars(&m)
}

impl DatastoreType {
    /// Reads a backend name in any letter case; an error where it names no
    /// backend.
    pub fn from_str(s: &str) -> (r: Result<DatastoreType, String>)
        ensures
            r is Ok <==> lowercase(s@) == "mem"@,
            r matches Ok(t) ==> t == DatastoreType::Mem,
            r matches Err(e) ==> e@ == unknown_type_text(s@),
    {
        let lower = to_lowercase(s);
        if chars_eq_str(&chars_of(lower.as_str()), "mem") {
            Ok(DatastoreType::Mem)
        } else {
            Err(unknown_datastore_type(s))
        }
    }
}

} // verus!
