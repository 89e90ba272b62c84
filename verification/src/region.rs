//! Named regions, their node caches, and the ordered region registry.

use vstd::prelude::*;
use std::collections::HashMap;
use crate::geom::{Coord, Rect, rect_contains};
use crate::builder::{resolve, resolves_in, resolved_line};
use crate::sink::ShapeSink;

verus! {

broadcast use vstd::std_specs::hash::group_hash_axioms;

/// The mathematical content of one region: its name, its rectangle, the
/// node-identifier-to-coordinate cache, and the record sequence of its sink.
pub ghost struct RegionView {
    pub name: Seq<char>,
    pub rect: Rect,
    pub cache: Map<i64, Coord>,
    pub sink: Seq<Seq<Coord>>,
}

/// One named region of interest: a rectangle, a private coordinate cache
/// populated from the node stream, and the region's output sink.
pub struct Region {
    pub name: String,
    pub rect: Rect,
    pub cache: HashMap<i64, Coord>,
    pub sink: ShapeSink,
}

impl View for Region {
    type V = RegionView;

    open spec fn view(&self) -> RegionView {
        RegionView { name: self.name@, rect: self.rect, cache: self.cache@, sink: self.sink@ }
    }
}

/// How one region reacts to an observed node: if the coordinate lies in the
/// region's rectangle (boundary inclusive) the pair enters the cache,
/// otherwise the region is untouched.
pub open spec fn region_with_node(r: RegionView, id: i64, c: Coord) -> RegionView {
    if rect_contains(r.rect, c) {
        RegionView { name: r.name, rect: r.rect, cache: r.cache.insert(id, c), sink: r.sink }
    } else {
        r
    }
}

/// How one region reacts to a routed line: the record is appended to its sink.
pub open spec fn region_with_record(r: RegionView, line: Seq<Coord>) -> RegionView {
    RegionView { name: r.name, rect: r.rect, cache: r.cache, sink: r.sink.push(line) }
}

impl Region {
    /// A fresh region: empty cache, empty sink.
    pub fn new(name: String, rect: Rect) -> (r: Region)
        ensures
            r@.name == name@,
            r@.rect == rect,
            r@.cache == Map::<i64, Coord>::empty(),
            r@.sink == Seq::<Seq<Coord>>::empty(),
    {
        Region { name, rect, cache: HashMap::new(), sink: ShapeSink::new() }
    }

    /// Caches the node iff its coordinate lies in this region's rectangle.
    pub fn observe(&mut self, id: i64, coord: Coord)
        ensures
            final(self)@ == region_with_node(old(self)@, id, coord),
    {
        if self.rect.contains(&coord) {
            self.cache.insert(id, coord);
        }
    }
}

/// The ordered collection of regions. The order is significant: it is the
/// tie-break when a way fully resolves in more than one region.
pub struct RegionRegistry {
    pub regions: Vec<Region>,
}

impl View for RegionRegistry {
    type V = Seq<RegionView>;

    open spec fn view(&self) -> Seq<RegionView> {
        self.regions@.map_values(|r: Region| r@)
    }
}

/// Every region caches the node independently: overlapping rectangles may
/// each cache it, and a coordinate outside every rectangle is cached nowhere.
pub open spec fn registry_with_node(rs: Seq<RegionView>, id: i64, c: Coord) -> Seq<RegionView> {
    rs.map_values(|r: RegionView| region_with_node(r, id, c))
}

/// The position of the first region whose cache resolves every identifier,
/// if any region does.
pub open spec fn first_resolving(rs: Seq<RegionView>, ids: Seq<i64>) -> Option<int>
    decreases rs.len(),
{
    if rs.len() == 0 {
        None
    } else if resolves_in(rs[0].cache, ids) {
        Some(0int)
    } else {
        match first_resolving(rs.drop_first(), ids) {
            None => None,
            Some(k) => Some(k + 1),
        }
    }
}

/// What routing a qualifying way does to the registry: the first region that
/// fully resolves the way receives exactly one new record — the way's
/// resolved line — and every other region is untouched. If no region
/// resolves the way, the registry is untouched.
pub open spec fn registry_with_way(rs: Seq<RegionView>, ids: Seq<i64>) -> Seq<RegionView> {
    match first_resolving(rs, ids) {
        None => rs,
        Some(k) => rs.update(k, region_with_record(rs[k], resolved_line(rs[k].cache, ids))),
    }
}

/// `first_resolving` finds a resolving region exactly when one exists, and
/// then the earliest one: the found region resolves the way and no region
/// before it does.
pub proof fn lemma_first_resolving_characterization(rs: Seq<RegionView>, ids: Seq<i64>)
    ensures
        match first_resolving(rs, ids) {
            None => forall|k: int| 0 <= k < rs.len() ==> !resolves_in(rs[k].cache, ids),
            Some(k) => 0 <= k < rs.len() && resolves_in(rs[k].cache, ids) && (forall|j: int|
                0 <= j < k ==> !resolves_in(rs[j].cache, ids)),
        },
    decreases rs.len(),
{
    if rs.len() == 0 {
    } else if resolves_in(rs[0].cache, ids) {
    } else {
        let tail = rs.drop_first();
        lemma_first_resolving_characterization(tail, ids);
        match first_resolving(tail, ids) {
            None => {
                assert(first_resolving(rs, ids) is None);
                assert forall|k: int| 0 <= k < rs.len() implies !resolves_in(
                    rs[k].cache,
                    ids,
                ) by {
                    if k > 0 {
                        assert(tail[k - 1] == rs[k]);
                        assert(!resolves_in(tail[k - 1].cache, ids));
                    }
                }
            },
            Some(k) => {
                assert(first_resolving(rs, ids) == Some(k + 1));
                assert(tail[k] == rs[k + 1]);
                assert forall|j: int| 0 <= j < k + 1 implies !resolves_in(
                    rs[j].cache,
                    ids,
                ) by {
                    if j > 0 {
                        assert(tail[j - 1] == rs[j]);
                        assert(!resolves_in(tail[j - 1].cache, ids));
                    }
                }
            },
        }
    }
}

/// The converse direction: a region that resolves the way and is preceded by
/// none that does is exactly the region `first_resolving` names.
pub proof fn lemma_first_resolving_from_witness(rs: Seq<RegionView>, ids: Seq<i64>, k: int)
    requires
        0 <= k < rs.len(),
        resolves_in(rs[k].cache, ids),
        forall|j: int| 0 <= j < k ==> !resolves_in(rs[j].cache, ids),
    ensures
        first_resolving(rs, ids) == Some(k),
{
    lemma_first_resolving_characterization(rs, ids);
    match first_resolving(rs, ids) {
        None => {
            assert(!resolves_in(rs[k].cache, ids));
        },
        Some(m) => {
            if m < k {
                assert(!resolves_in(rs[m].cache, ids));
            } else if k < m {
                assert(!resolves_in(rs[k].cache, ids));
            }
        },
    }
}

/// No region resolves the way iff `first_resolving` finds none.
pub proof fn lemma_first_resolving_none(rs: Seq<RegionView>, ids: Seq<i64>)
    requires
        forall|j: int| 0 <= j < rs.len() ==> !resolves_in(rs[j].cache, ids),
    ensures
        first_resolving(rs, ids) is None,
{
    lemma_first_resolving_characterization(rs, ids);
    if let Some(m) = first_resolving(rs, ids) {
        assert(!resolves_in(rs[m].cache, ids));
    }
}

impl RegionRegistry {
    /// An empty registry.
    pub fn new() -> (r: RegionRegistry)
        ensures
            r@ == Seq::<RegionView>::empty(),
    {
        let r = RegionRegistry { regions: Vec::new() };
        proof {
            assert(r@ =~= Seq::<RegionView>::empty());
        }
        r
    }

    /// Appends a fresh region with the given name and rectangle. Registration
    /// order is the routing priority order.
    pub fn register(&mut self, name: String, rect: Rect)
        ensures
            final(self)@.len() == old(self)@.len() + 1,
            final(self)@.subrange(0, old(self)@.len() as int) == old(self)@,
            final(self)@.last().name == name@,
            final(self)@.last().rect == rect,
            final(self)@.last().cache == Map::<i64, Coord>::empty(),
            final(self)@.last().sink == Seq::<Seq<Coord>>::empty(),
    {
        let ghost before = self@;
        let region = Region::new(name, rect);
        let ghost region_view = region@;
        self.regions.push(region);
        proof {
            assert(self@ =~= before.push(region_view));
            assert(self@.subrange(0, before.len() as int) =~= before);
        }
    }

    /// How many regions are registered.
    pub fn len(&self) -> (n: usize)
        ensures
            n == self@.len(),
    {
        self.regions.len()
    }

    /// Hands the node to every region: each region whose rectangle contains
    /// the coordinate caches the pair; every other region is untouched.
    pub fn observe_node(&mut self, id: i64, coord: Coord)
        ensures
            final(self)@ == registry_with_node(old(self)@, id, coord),
    {
        let ghost init = self@;
        let n = self.regions.len();
        let mut i: usize = 0;
        proof {
            assert forall|j: int| 0 <= j < n implies #[trigger] self.regions@[j]@ == init[j] by {
                assert(init[j] == self.regions@[j]@);
            }
        }
        while i < n
            invariant
                i <= n,
                n == self.regions@.len(),
                n == init.len(),
                forall|j: int| i <= j < n ==> #[trigger] self.regions@[j]@ == init[j],
                forall|j: int|
                    0 <= j < i ==> #[trigger] self.regions@[j]@ == region_with_node(
                        init[j],
                        id,
                        coord,
                    ),
            decreases n - i,
        {
            let ghost before = self.regions@;
            let region = &mut self.regions[i];
            region.observe(id, coord);
            proof {
                assert(self.regions@ == before.update(i as int, self.regions@[i as int]));
                assert(self.regions@[i as int]@ == region_with_node(init[i as int], id, coord));
                assert(forall|j: int|
                    0 <= j < n && j != i ==> #[trigger] self.regions@[j] == before[j]);
            }
            i += 1;
        }
        proof {
            assert forall|j: int| 0 <= j < n implies self@[j] == registry_with_node(
                init,
                id,
                coord,
            )[j] by {
                assert(self@[j] == self.regions@[j]@);
            }
            assert(self@ =~= registry_with_node(init, id, coord));
        }
    }

    /// Iterates the regions in registration order and, at the first region
    /// whose cache resolves every identifier, appends the resolved line to
    /// that region's sink and stops. Returns the position of the region that
    /// received the record, or `None` when no region resolved the way (a
    /// soft miss: the registry is untouched).
    pub fn resolve_and_route_way(&mut self, ids: &Vec<i64>) -> (routed: Option<usize>)
        ensures
            final(self)@ == registry_with_way(old(self)@, ids@),
            match routed {
                Some(k) => first_resolving(old(self)@, ids@) == Some(k as int),
                None => first_resolving(old(self)@, ids@) is None,
            },
    {
        let n = self.regions.len();
        let mut i: usize = 0;
        while i < n
            invariant
                i <= n,
                n == self.regions@.len(),
                self@ == old(self)@,
                forall|j: int| 0 <= j < i ==> !resolves_in(old(self)@[j].cache, ids@),
            decreases n - i,
        {
            proof {
                assert(old(self)@[i as int] == self.regions@[i as int]@);
            }
            let line = resolve(ids, &self.regions[i].cache);
            match line {
                Some(line) => {
                    proof {
                        assert(resolves_in(old(self)@[i as int].cache, ids@));
                        lemma_first_resolving_from_witness(old(self)@, ids@, i as int);
                    }
                    let ghost before = self.regions@;
                    let region = &mut self.regions[i];
                    region.sink.append(line);
                    proof {
                        assert(self.regions@ == before.update(i as int, self.regions@[i as int]));
                        assert(self.regions@[i as int]@ == region_with_record(
                            old(self)@[i as int],
                            resolved_line(old(self)@[i as int].cache, ids@),
                        ));
                        assert forall|j: int| 0 <= j < old(self)@.len() implies self@[j]
                            == registry_with_way(old(self)@, ids@)[j] by {
                            assert(self@[j] == self.regions@[j]@);
                            if j != i {
                                assert(self.regions@[j] == before[j]);
                                assert(old(self)@[j] == before[j]@);
                            }
                        }
                        assert(self@ =~= registry_with_way(old(self)@, ids@));
                    }
                    return Some(i);
                },
                None => {
                    proof {
                        assert(!resolves_in(old(self)@[i as int].cache, ids@));
                    }
                    i += 1;
                },
            }
        }
        proof {
            lemma_first_resolving_none(old(self)@, ids@);
        }
        None
    }
}

} // verus!
