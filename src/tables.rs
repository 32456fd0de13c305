//! Hash tables of hashbrown, keyed by plain integer tuples, that map a key to
//! a position in a vector held beside them.
use vstd::prelude::*;

verus! {

/// Positions of registry entries, keyed by `(is_pair, first id, second id)`.
#[verifier::external_body]
pub struct ReactionIndex {
    map: hashbrown::HashMap<(bool, u64, u64), usize>,
}

/// Positions of buckets, keyed by grid cell.
#[verifier::external_body]
pub struct CellIndex {
    map: hashbrown::HashMap<(i32, i32, i32), usize>,
}

/// What a `ReactionIndex` maps.
pub uninterp spec fn reaction_entries(t: ReactionIndex) -> Map<(bool, u64, u64), usize>;

/// What a `CellIndex` maps.
pub uninterp spec fn cell_entries(t: CellIndex) -> Map<(i32, i32, i32), usize>;

pub open spec fn no_reactions() -> Map<(bool, u64, u64), usize> {
    Map::empty()
}

pub open spec fn no_cells() -> Map<(i32, i32, i32), usize> {
    Map::empty()
}

/// Relies on hashbrown::HashMap::new: a new map holds no entry.
#[verifier::external_body]
pub(crate) fn reaction_index_new() -> (r: ReactionIndex)
    ensures
        reaction_entries(r) == no_reactions(),
{
    ReactionIndex { map: hashbrown::HashMap::new() }
}

/// Relies on hashbrown::HashMap::insert: the key maps to the value afterwards,
/// every other entry is kept.
#[verifier::external_body]
pub(crate) fn reaction_index_insert(t: &mut ReactionIndex, k: (bool, u64, u64), v: usize)
    ensures
        reaction_entries(*final(t)) == reaction_entries(*old(t)).insert(k, v),
{
    t.map.insert(k, v);
}

/// Relies on hashbrown::HashMap::get: the value the key maps to, if any.
#[verifier::external_body]
pub(crate) fn reaction_index_get(t: &ReactionIndex, k: (bool, u64, u64)) -> (r: Option<usize>)
    ensures
        reaction_entries(*t).contains_key(k) ==> r == Some(reaction_entries(*t)[k]),
        !reaction_entries(*t).contains_key(k) ==> r is None,
{
    t.map.get(&k).copied()
}

/// Relies on hashbrown::HashMap::new: a new map holds no entry.
#[verifier::external_body]
pub(crate) fn cell_index_new() -> (r: CellIndex)
    ensures
        cell_entries(r) == no_cells(),
{
    CellIndex { map: hashbrown::HashMap::new() }
}

/// Relies on hashbrown::HashMap::insert: the key maps to the value afterwards,
/// every other entry is kept.
#[verifier::external_body]
pub(crate) fn cell_index_insert(t: &mut CellIndex, k: (i32, i32, i32), v: usize)
    ensures
        cell_entries(*final(t)) == cell_entries(*old(t)).insert(k, v),
{
    t.map.insert(k, v);
}

/// Relies on hashbrown::HashMap::get: the value the key maps to, if any.
#[verifier::external_body]
pub(crate) fn cell_index_get(t: &CellIndex, k: (i32, i32, i32)) -> (r: Option<usize>)
    ensures
        cell_entries(*t).contains_key(k) ==> r == Some(cell_entries(*t)[k]),
        !cell_entries(*t).contains_key(k) ==> r is None,
{
    t.map.get(&k).copied()
}

} // verus!
