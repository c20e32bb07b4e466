//! Extraction from the form `function(..){..}(..)`: whitespace between the tokens of the head and of the
//! invocation is skipped, `NaN` is a literal and `undefined` is bound as it
//! stands.
use crate::binder::{bind_spec, table_of, Variant};
use crate::convert::{extract, extract_spec, parse_vars_with};
use crate::search::{needle_of, new_finder};
use crate::table::{bindings_of, Bindings};
use memchr::memmem::Finder;
use vstd::prelude::*;

verus! {

/// Parses the function head and the invocation: the table that binds each
/// parameter to its argument, and the body of the function.
pub fn parse_vars(input: &[u8]) -> (r: Option<(Bindings, &[u8])>)
    ensures
        match bind_spec(input@, Variant::Ifn) {
            Some(bd) => r matches Some(p) && bindings_of(p.0) == table_of(
                input@,
                bd.0,
                bd.1,
                Variant::Ifn,
                bd.0.len() as int,
            ) && p.1@ == input@.subrange(bd.2, bd.3),
            None => r is None,
        },
{
    parse_vars_with(input, Variant::Ifn)
}

/// A finder for the anchor that precedes the target object.
pub fn make_finder_object(object: &[u8]) -> (r: Finder)
    ensures
        needle_of(r) == object@,
{
    new_finder(object)
}

/// Extracts the target object that follows the anchor of `object`, as
/// structured-data bytes; `capacity` is what the output reserves at first.
pub fn parse_object(input: &[u8], object: &Finder, capacity: usize) -> (r: Option<Vec<u8>>)
    ensures
        match extract_spec(input@, needle_of(*object), Variant::Ifn) {
            Some(o) => r matches Some(x) && x@ == o,
            None => r is None,
        },
{
    extract(input, object, capacity, Variant::Ifn)
}

} // verus!
