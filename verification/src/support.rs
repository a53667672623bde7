//! Vectors written with their entries separated by single spaces.
use vstd::prelude::*;
use crate::vectors::{parse_separated, vector_value};

verus! {

/// Read a vector written `[a b c]`: the integers between single spaces, with
/// whitespace and brackets around them ignored; `None` where a field is not an
/// integer that fits in an `i64`.
pub fn parse_vector(contents: &str) -> (r: Option<Vec<i64>>)
    ensures
        match r {
            Some(v) => vector_value(contents@, ' ') == Some(v@),
            None => vector_value(contents@, ' ') is None,
        },
{
    parse_separated(contents, ' ')
}

} // verus!
