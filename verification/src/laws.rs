//! The library's global guarantees, proved over the stream model.

use vstd::prelude::*;
use crate::geom::{Coord, rect_contains};
use crate::tags::{TagFilter, filter_accepts, has_key};
use crate::builder::{resolves_in, resolved_line};
use crate::region::{
    RegionView, region_with_node, region_with_record, registry_with_way, first_resolving,
    lemma_first_resolving_characterization,
};
use crate::stream::{Element, required_way_key, step, run};

verus! {

/// Whether `e` is a node carrying the identifier `id`.
pub open spec fn is_node_with_id(e: Element, id: i64) -> bool {
    e matches Element::Node { id: nid, .. } && nid == id
}

/// Every cached coordinate lies inside its region's rectangle.
pub open spec fn caches_lie_in_rects(rs: Seq<RegionView>) -> bool {
    forall|k: int, id: i64|
        0 <= k < rs.len() && #[trigger] rs[k].cache.contains_key(id) ==> rect_contains(
            rs[k].rect,
            rs[k].cache[id],
        )
}

/// One step never changes a region's name or rectangle, never shrinks a
/// cache, and never changes the number of regions.
pub proof fn lemma_step_keeps_shape(rs: Seq<RegionView>, f: TagFilter, e: Element)
    ensures
        step(rs, f, e).len() == rs.len(),
        forall|k: int| 0 <= k < rs.len() ==> #[trigger] step(rs, f, e)[k].name == rs[k].name,
        forall|k: int| 0 <= k < rs.len() ==> #[trigger] step(rs, f, e)[k].rect == rs[k].rect,
        forall|k: int, id: i64|
            0 <= k < rs.len() && #[trigger] rs[k].cache.contains_key(id) ==> step(
                rs,
                f,
                e,
            )[k].cache.contains_key(id),
{
    match e {
        Element::Node { .. } => {
        },
        Element::Way { id: _, node_ids, tags } => {
            if filter_accepts(f, tags@) && has_key(tags@, required_way_key()) {
                lemma_first_resolving_characterization(rs, node_ids@);
            }
        },
    }
}

/// A whole run never changes a region's name or rectangle, never shrinks a
/// cache, and never changes the number of regions: caches grow
/// monotonically for the lifetime of the run.
pub proof fn lemma_run_keeps_shape(rs: Seq<RegionView>, f: TagFilter, elems: Seq<Element>)
    ensures
        run(rs, f, elems).len() == rs.len(),
        forall|k: int| 0 <= k < rs.len() ==> #[trigger] run(rs, f, elems)[k].name == rs[k].name,
        forall|k: int| 0 <= k < rs.len() ==> #[trigger] run(rs, f, elems)[k].rect == rs[k].rect,
        forall|k: int, id: i64|
            0 <= k < rs.len() && #[trigger] rs[k].cache.contains_key(id) ==> run(
                rs,
                f,
                elems,
            )[k].cache.contains_key(id),
    decreases elems.len(),
{
    if elems.len() > 0 {
        lemma_step_keeps_shape(rs, f, elems[0]);
        lemma_run_keeps_shape(step(rs, f, elems[0]), f, elems.drop_first());
    }
}

/// One step only appends to sinks: every record present before is present,
/// unchanged and in place, afterwards.
pub proof fn lemma_step_appends_only(rs: Seq<RegionView>, f: TagFilter, e: Element)
    ensures
        forall|k: int|
            0 <= k < rs.len() ==> #[trigger] step(rs, f, e)[k].sink.len() >= rs[k].sink.len(),
        forall|k: int, i: int|
            #![trigger step(rs, f, e)[k].sink[i]]
            0 <= k < rs.len() && 0 <= i < rs[k].sink.len() ==> step(rs, f, e)[k].sink[i]
                == rs[k].sink[i],
{
    match e {
        Element::Node { id: nid, coord, tags } => {
            if filter_accepts(f, tags@) {
                assert forall|k: int| 0 <= k < rs.len() implies #[trigger] step(
                    rs,
                    f,
                    e,
                )[k].sink == rs[k].sink by {
                    assert(step(rs, f, e)[k] == region_with_node(rs[k], nid, coord));
                }
            }
        },
        Element::Way { id: _, node_ids, tags } => {
            if filter_accepts(f, tags@) && has_key(tags@, required_way_key()) {
                lemma_first_resolving_characterization(rs, node_ids@);
            }
        },
    }
}

/// A whole run only appends to sinks: records already written are never
/// mutated, reordered or removed, in any region.
pub proof fn lemma_run_appends_only(rs: Seq<RegionView>, f: TagFilter, elems: Seq<Element>)
    ensures
        forall|k: int|
            0 <= k < rs.len() ==> #[trigger] run(rs, f, elems)[k].sink.len() >= rs[k].sink.len(),
        forall|k: int, i: int|
            #![trigger run(rs, f, elems)[k].sink[i]]
            0 <= k < rs.len() && 0 <= i < rs[k].sink.len() ==> run(rs, f, elems)[k].sink[i]
                == rs[k].sink[i],
    decreases elems.len(),
{
    if elems.len() > 0 {
        let rs2 = step(rs, f, elems[0]);
        lemma_step_keeps_shape(rs, f, elems[0]);
        lemma_step_appends_only(rs, f, elems[0]);
        lemma_run_appends_only(rs2, f, elems.drop_first());
        assert forall|k: int| 0 <= k < rs.len() implies #[trigger] run(
            rs,
            f,
            elems,
        )[k].sink.len() >= rs[k].sink.len() by {
            assert(step(rs, f, elems[0])[k].sink.len() >= rs[k].sink.len());
            assert(run(rs2, f, elems.drop_first())[k].sink.len() >= rs2[k].sink.len());
        }
        assert forall|k: int, i: int|
            0 <= k < rs.len() && 0 <= i < rs[k].sink.len() implies #[trigger] run(
            rs,
            f,
            elems,
        )[k].sink[i] == rs[k].sink[i] by {
            assert(rs2[k].sink[i] == rs[k].sink[i]);
            assert(run(rs2, f, elems.drop_first())[k].sink[i] == rs2[k].sink[i]);
        }
    }
}

/// One step keeps every cached coordinate inside its region's rectangle.
pub proof fn lemma_step_keeps_caches_sound(rs: Seq<RegionView>, f: TagFilter, e: Element)
    requires
        caches_lie_in_rects(rs),
    ensures
        caches_lie_in_rects(step(rs, f, e)),
{
    let rs2 = step(rs, f, e);
    lemma_step_keeps_shape(rs, f, e);
    assert forall|k: int, id: i64|
        0 <= k < rs2.len() && #[trigger] rs2[k].cache.contains_key(id) implies rect_contains(
        rs2[k].rect,
        rs2[k].cache[id],
    ) by {
        match e {
            Element::Node { id: nid, coord, tags } => {
                if filter_accepts(f, tags@) {
                    assert(rs2[k] == region_with_node(rs[k], nid, coord));
                }
            },
            Element::Way { id: _, node_ids, tags } => {
                if filter_accepts(f, tags@) && has_key(tags@, required_way_key()) {
                    lemma_first_resolving_characterization(rs, node_ids@);
                    match first_resolving(rs, node_ids@) {
                        None => {
                        },
                        Some(m) => {
                            assert(rs2[k].cache == rs[k].cache);
                        },
                    }
                }
            },
        }
    }
}

/// Half of the first guarantee of the node phase: starting from caches whose
/// entries all lie inside their rectangles (an empty cache does), every
/// cache entry after any run still lies inside its region's rectangle. A
/// coordinate outside a rectangle is never cached there.
pub proof fn lemma_run_keeps_caches_sound(rs: Seq<RegionView>, f: TagFilter, elems: Seq<Element>)
    requires
        caches_lie_in_rects(rs),
    ensures
        caches_lie_in_rects(run(rs, f, elems)),
    decreases elems.len(),
{
    if elems.len() > 0 {
        lemma_step_keeps_caches_sound(rs, f, elems[0]);
        lemma_run_keeps_caches_sound(step(rs, f, elems[0]), f, elems.drop_first());
    }
}

/// A run that holds no node carrying `id` leaves an existing cache entry for
/// `id` exactly as it was.
pub proof fn lemma_run_without_node_keeps_entry(
    rs: Seq<RegionView>,
    f: TagFilter,
    elems: Seq<Element>,
    k: int,
    id: i64,
)
    requires
        0 <= k < rs.len(),
        rs[k].cache.contains_key(id),
        forall|j: int| 0 <= j < elems.len() ==> !is_node_with_id(#[trigger] elems[j], id),
    ensures
        run(rs, f, elems)[k].cache.contains_key(id),
        run(rs, f, elems)[k].cache[id] == rs[k].cache[id],
    decreases elems.len(),
{
    if elems.len() > 0 {
        let rs2 = step(rs, f, elems[0]);
        match elems[0] {
            Element::Node { id: nid, coord, tags } => {
                assert(!is_node_with_id(elems[0], id));
                if filter_accepts(f, tags@) {
                    assert(rs2[k] == region_with_node(rs[k], nid, coord));
                }
            },
            Element::Way { id: _, node_ids, tags } => {
                if filter_accepts(f, tags@) && has_key(tags@, required_way_key()) {
                    lemma_first_resolving_characterization(rs, node_ids@);
                    match first_resolving(rs, node_ids@) {
                        None => {
                        },
                        Some(m) => {
                            assert(rs2[k].cache == rs[k].cache);
                        },
                    }
                }
            },
        }
        assert(forall|j: int|
            0 <= j < elems.drop_first().len() ==> !is_node_with_id(
                #[trigger] elems.drop_first()[j],
                id,
            ));
        lemma_run_without_node_keeps_entry(rs2, f, elems.drop_first(), k, id);
    }
}

/// The other half of the first guarantee of the node phase: a node the
/// filter accepts, whose coordinate lies inside a region's rectangle
/// (boundary inclusive), is present in that region's cache after the run;
/// when no later element of the stream is a node carrying the same
/// identifier, the cached coordinate is exactly the node's.
pub proof fn lemma_accepted_node_is_cached(
    rs: Seq<RegionView>,
    f: TagFilter,
    elems: Seq<Element>,
    i: int,
    k: int,
    id: i64,
    coord: Coord,
)
    requires
        0 <= i < elems.len(),
        0 <= k < rs.len(),
        elems[i] matches Element::Node { id: nid, coord: c, tags } && nid == id && c == coord
            && filter_accepts(f, tags@),
        rect_contains(rs[k].rect, coord),
    ensures
        run(rs, f, elems)[k].cache.contains_key(id),
        (forall|j: int| i < j < elems.len() ==> !is_node_with_id(#[trigger] elems[j], id))
            ==> run(rs, f, elems)[k].cache[id] == coord,
    decreases elems.len(),
{
    let rs2 = step(rs, f, elems[0]);
    let rest = elems.drop_first();
    lemma_step_keeps_shape(rs, f, elems[0]);
    if i == 0 {
        match elems[0] {
            Element::Node { id: nid, coord: c, tags } => {
                assert(rs2[k] == region_with_node(rs[k], nid, c));
                assert(rs2[k].cache.contains_key(id));
                assert(rs2[k].cache[id] == coord);
            },
            Element::Way { .. } => {
                assert(false);
            },
        }
        lemma_run_keeps_shape(rs2, f, rest);
        if forall|j: int| i < j < elems.len() ==> !is_node_with_id(#[trigger] elems[j], id) {
            assert(forall|j: int|
                0 <= j < rest.len() ==> !is_node_with_id(#[trigger] rest[j], id));
            lemma_run_without_node_keeps_entry(rs2, f, rest, k, id);
        }
    } else {
        assert(rest[i - 1] == elems[i]);
        lemma_accepted_node_is_cached(rs2, f, rest, i - 1, k, id, coord);
        if forall|j: int| i < j < elems.len() ==> !is_node_with_id(#[trigger] elems[j], id) {
            assert forall|j: int| i - 1 < j < rest.len() implies !is_node_with_id(
                #[trigger] rest[j],
                id,
            ) by {
                assert(rest[j] == elems[j + 1]);
            }
        }
    }
}

/// The per-observation form of the node guarantee: after one region sees a
/// node, the identifier is cached iff the coordinate lies in the region's
/// rectangle (boundary inclusive) or the identifier was cached before; a
/// contained node is cached under exactly its coordinate; a node outside the
/// rectangle leaves the region exactly as it was.
pub proof fn lemma_node_cached_iff_in_rect(r: RegionView, id: i64, c: Coord)
    ensures
        region_with_node(r, id, c).cache.contains_key(id) <==> (rect_contains(r.rect, c)
            || r.cache.contains_key(id)),
        rect_contains(r.rect, c) ==> region_with_node(r, id, c).cache[id] == c,
        !rect_contains(r.rect, c) ==> region_with_node(r, id, c) == r,
{
}

/// A way the filter accepts, carrying the required key, is handed to the
/// routing transform exactly as it is — the step does nothing else.
pub proof fn lemma_qualifying_way_routed(
    rs: Seq<RegionView>,
    f: TagFilter,
    e: Element,
    ids: Seq<i64>,
)
    requires
        e matches Element::Way { id: _, node_ids, tags } && node_ids@ == ids && filter_accepts(
            f,
            tags@,
        ) && has_key(tags@, required_way_key()),
    ensures
        step(rs, f, e) == registry_with_way(rs, ids),
{
}

/// The routing guarantee: a qualifying way is emitted exactly once iff some
/// region's cache resolves every one of its identifiers — then the first
/// such region in registration order receives exactly one new record, the
/// way's resolved line, and every other region is untouched in every part;
/// when no region resolves it, every region is untouched.
pub proof fn lemma_way_emitted_once(rs: Seq<RegionView>, ids: Seq<i64>)
    ensures
        registry_with_way(rs, ids).len() == rs.len(),
        (exists|k: int| 0 <= k < rs.len() && resolves_in(#[trigger] rs[k].cache, ids))
            <==> first_resolving(rs, ids) is Some,
        first_resolving(rs, ids) is None ==> registry_with_way(rs, ids) == rs,
        first_resolving(rs, ids) matches Some(k) ==> {
            &&& 0 <= k < rs.len()
            &&& resolves_in(rs[k].cache, ids)
            &&& (forall|j: int| 0 <= j < k ==> !resolves_in(#[trigger] rs[j].cache, ids))
            &&& registry_with_way(rs, ids)[k] == region_with_record(
                rs[k],
                resolved_line(rs[k].cache, ids),
            )
            &&& registry_with_way(rs, ids)[k].sink == rs[k].sink.push(
                resolved_line(rs[k].cache, ids),
            )
            &&& (forall|j: int|
                0 <= j < rs.len() && j != k ==> #[trigger] registry_with_way(rs, ids)[j] == rs[j])
        },
{
    lemma_first_resolving_characterization(rs, ids);
}

/// A way missing the required tag key never produces an output record,
/// however resolvable its geometry is: the step leaves every region as it
/// was.
pub proof fn lemma_way_without_required_key_dropped(rs: Seq<RegionView>, f: TagFilter, e: Element)
    requires
        e matches Element::Way { id: _, node_ids: _, tags } && !has_key(tags@, required_way_key()),
    ensures
        step(rs, f, e) == rs,
{
}

/// An element the filter rejects changes nothing.
pub proof fn lemma_rejected_element_dropped(rs: Seq<RegionView>, f: TagFilter, e: Element)
    requires
        match e {
            Element::Node { tags, .. } => !filter_accepts(f, tags@),
            Element::Way { tags, .. } => !filter_accepts(f, tags@),
        },
    ensures
        step(rs, f, e) == rs,
{
}

/// An emitted record preserves the way's identifier sequence exactly: one
/// coordinate per identifier, in identifier order, repeats preserved.
pub proof fn lemma_resolved_line_preserves_order(cache: Map<i64, Coord>, ids: Seq<i64>)
    ensures
        resolved_line(cache, ids).len() == ids.len(),
        forall|j: int|
            0 <= j < ids.len() ==> #[trigger] resolved_line(cache, ids)[j] == cache[ids[j]],
{
}

/// Idempotence of the pipeline: two runs over equal starting registries,
/// the same filter and an unchanged stream end in equal registries — the
/// same record counts and the same coordinate sequences, in the same order,
/// in every sink.
pub proof fn lemma_rerun_yields_identical_sinks(
    rs1: Seq<RegionView>,
    rs2: Seq<RegionView>,
    f: TagFilter,
    elems: Seq<Element>,
)
    requires
        rs1 == rs2,
    ensures
        run(rs1, f, elems) == run(rs2, f, elems),
{
}

} // verus!
