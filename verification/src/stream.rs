//! The driving loop: one pass over the element stream.
//!
//! The pass is strictly single-pass: a way resolves only against node
//! coordinates cached before the way arrives. A way whose nodes appear
//! later in the stream is treated as unresolved and silently dropped, so
//! correctness of the output rests on the upstream decoder presenting all
//! relevant nodes before the ways that reference them.

use vstd::prelude::*;
use crate::geom::Coord;
use crate::tags::{Tag, TagFilter, filter_accepts, has_key, tags_contain_key};
use crate::region::{RegionRegistry, RegionView, registry_with_node, registry_with_way};

verus! {

/// One record of the source stream: a node (a coordinate with an identifier)
/// or a way (an ordered, possibly repeating sequence of node identifiers).
pub enum Element {
    Node { id: i64, coord: Coord, tags: Vec<Tag> },
    Way { id: i64, node_ids: Vec<i64>, tags: Vec<Tag> },
}

/// The tag key a way must carry to be routed at all, over and above the
/// configured filter.
pub open spec fn required_way_key() -> Seq<char> {
    "highway"@
}

/// Builds the required way key for the running code.
pub fn required_way_key_exec() -> (s: String)
    ensures
        s@ == required_way_key(),
{
    let s: String = "highway".to_owned();
    s
}

/// What processing one element does to the registry. An element the filter
/// rejects changes nothing. An accepted node is cached by every region whose
/// rectangle contains it. An accepted way is routed only if it also carries
/// the required key; it then lands in the first region that fully resolves
/// it, or nowhere.
pub open spec fn step(rs: Seq<RegionView>, f: TagFilter, e: Element) -> Seq<RegionView> {
    match e {
        Element::Node { id, coord, tags } => {
            if filter_accepts(f, tags@) {
                registry_with_node(rs, id, coord)
            } else {
                rs
            }
        },
        Element::Way { id, node_ids, tags } => {
            if filter_accepts(f, tags@) && has_key(tags@, required_way_key()) {
                registry_with_way(rs, node_ids@)
            } else {
                rs
            }
        },
    }
}

/// Folding `step` over a whole stream, in arrival order.
pub open spec fn run(rs: Seq<RegionView>, f: TagFilter, elems: Seq<Element>) -> Seq<RegionView>
    decreases elems.len(),
{
    if elems.len() == 0 {
        rs
    } else {
        run(step(rs, f, elems[0]), f, elems.drop_first())
    }
}

/// Running a stream extended by one element is running the stream and then
/// stepping on that element.
pub proof fn lemma_run_snoc(rs: Seq<RegionView>, f: TagFilter, elems: Seq<Element>, e: Element)
    ensures
        run(rs, f, elems.push(e)) == step(run(rs, f, elems), f, e),
    decreases elems.len(),
{
    let s = elems.push(e);
    if elems.len() == 0 {
        assert(s[0] == e);
        assert(s.drop_first() =~= Seq::<Element>::empty());
        assert(run(rs, f, s) == run(step(rs, f, e), f, s.drop_first()));
        assert(run(step(rs, f, e), f, s.drop_first()) == step(rs, f, e));
        assert(run(rs, f, elems) == rs);
    } else {
        assert(s[0] == elems[0]);
        assert(s.drop_first() =~= elems.drop_first().push(e));
        lemma_run_snoc(step(rs, f, elems[0]), f, elems.drop_first(), e);
        assert(run(rs, f, s) == run(step(rs, f, s[0]), f, s.drop_first()));
        assert(run(rs, f, elems) == run(step(rs, f, elems[0]), f, elems.drop_first()));
    }
}

/// The orchestrator: the configured filter and the ordered region registry
/// it routes into.
pub struct StreamProcessor {
    pub filter: TagFilter,
    pub registry: RegionRegistry,
}

impl StreamProcessor {
    /// A processor over the given filter and registry.
    pub fn new(filter: TagFilter, registry: RegionRegistry) -> (p: StreamProcessor)
        ensures
            p.filter == filter,
            p.registry@ == registry@,
    {
        StreamProcessor { filter, registry }
    }

    /// Consumes one element, in arrival order: exactly the `step` function
    /// applied to the registry. The filter itself never changes.
    pub fn process_element(&mut self, e: &Element)
        ensures
            final(self).registry@ == step(old(self).registry@, old(self).filter, *e),
            final(self).filter == old(self).filter,
    {
        match e {
            Element::Node { id, coord, tags } => {
                if self.filter.matches(tags) {
                    self.registry.observe_node(*id, *coord);
                }
            },
            Element::Way { id: _, node_ids, tags } => {
                if self.filter.matches(tags) {
                    let key = required_way_key_exec();
                    if tags_contain_key(tags, &key) {
                        self.registry.resolve_and_route_way(node_ids);
                    }
                }
            },
        }
    }

    /// Consumes a whole stream, element by element in arrival order: exactly
    /// the `run` fold of `step` over the stream.
    pub fn process_stream(&mut self, elems: &Vec<Element>)
        ensures
            final(self).registry@ == run(old(self).registry@, old(self).filter, elems@),
            final(self).filter == old(self).filter,
    {
        let ghost init = self.registry@;
        let ghost f = self.filter;
        let mut i: usize = 0;
        while i < elems.len()
            invariant
                i <= elems@.len(),
                self.filter == f,
                self.registry@ == run(init, f, elems@.take(i as int)),
            decreases elems@.len() - i,
        {
            let ghost prefix = elems@.take(i as int);
            self.process_element(&elems[i]);
            proof {
                assert(prefix.push(elems@[i as int]) =~= elems@.take(i as int + 1));
                lemma_run_snoc(init, f, prefix, elems@[i as int]);
            }
            i += 1;
        }
        proof {
            assert(elems@.take(elems@.len() as int) =~= elems@);
        }
    }
}

} // verus!
