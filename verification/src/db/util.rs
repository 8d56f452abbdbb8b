//! Grid-square prettifying as the storage layer exposes it.
use vstd::prelude::*;
use crate::util::{spec_grid, Error};

verus! {

/// Validates and normalizes a Maidenhead grid square; see
/// [`crate::util::spec_grid`] for the exact mapping.
pub fn pretty_gridsquare(grid: &String) -> (r: Result<String, Error>)
    ensures
        match spec_grid(grid@) {
            Some(t) => r matches Ok(s) && s@ == t,
            None => r matches Err(e) && (e matches Error::FieldParseError {
                field_name,
                field_value,
                ..
            } && field_name@ == "GRIDSQUARE"@ && field_value@ == grid@),
        },
{
    crate::util::prettyvalidate_gridsquare(grid)
}

} // verus!
