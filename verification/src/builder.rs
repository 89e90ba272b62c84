//! Resolution of a way's node identifiers against one region's cache.

use vstd::prelude::*;
use std::collections::HashMap;
use crate::geom::Coord;

verus! {

broadcast use vstd::std_specs::hash::group_hash_axioms;

/// Every identifier of `ids` has a cached coordinate.
pub open spec fn resolves_in(cache: Map<i64, Coord>, ids: Seq<i64>) -> bool {
    forall|j: int| 0 <= j < ids.len() ==> cache.contains_key(ids[j])
}

/// The coordinate sequence a fully resolved way yields: one coordinate per
/// identifier, in identifier order, duplicates preserved.
pub open spec fn resolved_line(cache: Map<i64, Coord>, ids: Seq<i64>) -> Seq<Coord> {
    Seq::new(ids.len(), |j: int| cache[ids[j]])
}

/// Looks up each identifier in the cache, in order. Returns the full ordered
/// coordinate sequence iff every lookup succeeds; a single missing identifier
/// yields `None` (the caller decides what a miss means).
pub fn resolve(ids: &Vec<i64>, cache: &HashMap<i64, Coord>) -> (r: Option<Vec<Coord>>)
    ensures
        r is Some <==> resolves_in(cache@, ids@),
        r matches Some(line) ==> line@ == resolved_line(cache@, ids@),
{
    let mut line: Vec<Coord> = Vec::new();
    let mut i: usize = 0;
    while i < ids.len()
        invariant
            i <= ids@.len(),
            line@.len() == i,
            forall|j: int| 0 <= j < i ==> cache@.contains_key(ids@[j]),
            forall|j: int| 0 <= j < i ==> line@[j] == cache@[ids@[j]],
        decreases ids@.len() - i,
    {
        match cache.get(&ids[i]) {
            Some(c) => {
                line.push(*c);
            },
            None => {
                return None;
            },
        }
        i += 1;
    }
    proof {
        assert(line@ =~= resolved_line(cache@, ids@));
    }
    Some(line)
}

} // verus!
