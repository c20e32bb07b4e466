//! The binding table: parameter names mapped to the literals they were
//! invoked with.
use fxhash::FxHashMap;
use vstd::prelude::*;

verus! {

/// A table from parameter names to literal bytes, kept in an `FxHashMap`.
#[verifier::external_body]
pub struct Bindings {
    map: FxHashMap<Vec<u8>, Vec<u8>>,
}

/// What a table holds.
pub uninterp spec fn bindings_of(t: Bindings) -> Map<Seq<u8>, Seq<u8>>;

/// Relies on `FxHashMap::default`: a new map is empty.
#[verifier::external_body]
pub(crate) fn empty_map() -> (r: Bindings)
    ensures
        bindings_of(r) =~= Map::empty(),
{
    Bindings { map: FxHashMap::default() }
}

/// Relies on `HashMap::insert`: afterwards `k` maps to `v`, the other keys as
/// before.
#[verifier::external_body]
pub(crate) fn map_insert(t: &mut Bindings, k: &[u8], v: &[u8])
    ensures
        bindings_of(*final(t)) == bindings_of(*old(t)).insert(k@, v@),
{
    t.map.insert(k.to_vec(), v.to_vec());
}

/// Relies on `HashMap::get`: the value of `k`, or `None` where `k` is no key.
#[verifier::external_body]
pub(crate) fn map_get<'a>(t: &'a Bindings, k: &[u8]) -> (r: Option<&'a Vec<u8>>)
    ensures
        match r {
            Some(v) => bindings_of(*t).contains_key(k@) && v@ == bindings_of(*t)[k@],
            None => !bindings_of(*t).contains_key(k@),
        },
{
    t.map.get(k)
}

/// Relies on `HashMap::len`: the number of keys.
#[verifier::external_body]
pub(crate) fn map_len(t: &Bindings) -> (r: usize)
    ensures
        r == bindings_of(*t).len(),
{
    t.map.len()
}

impl Bindings {
    /// The literal bound to `name`.
    pub fn get(&self, name: &[u8]) -> (r: Option<&Vec<u8>>)
        ensures
            match r {
                Some(v) => bindings_of(*self).contains_key(name@) && v@ == bindings_of(
                    *self,
                )[name@],
                None => !bindings_of(*self).contains_key(name@),
            },
    {
        map_get(self, name)
    }

    /// The number of names bound.
    pub fn len(&self) -> (r: usize)
        ensures
            r == bindings_of(*self).len(),
    {
        map_len(self)
    }
}

} // verus!
