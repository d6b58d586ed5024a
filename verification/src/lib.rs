use vstd::prelude::*;

pub mod find;
pub mod highlight;
pub mod history;
pub mod paths;
pub mod search;
pub mod text;
pub mod types;
pub mod view;

verus! {

/// Value used where a persisted boolean option is missing and defaults to on.
pub fn default_true() -> (b: bool)
    ensures
        b,
{
    true
}

} // verus!
