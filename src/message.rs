//! The text shown for a diagnostic message handed back by the code generator.
use vstd::prelude::*;

verus! {

/// The text of a message: its contents, or `(empty)` when there is none.
pub fn display_text(contents: Option<&str>) -> (r: String)
    ensures
        r@ == match contents {
            Some(c) => c@,
            None => "(empty)"@,
        },
{
    match contents {
        Some(c) => c.to_owned(),
        None => String::from_str("(empty)"),
    }
}

} // verus!
