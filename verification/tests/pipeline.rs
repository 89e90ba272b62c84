use region_lines::builder::resolve;
use region_lines::geom::{Coord, Rect};
use region_lines::region::{Region, RegionRegistry};
use region_lines::sink::ShapeSink;
use region_lines::stream::{Element, StreamProcessor};
use region_lines::tags::{Tag, TagFilter};
use std::collections::HashMap;

fn c(x: i64, y: i64) -> Coord {
    Coord { x, y }
}

fn tag(key: &str, value: &str) -> Tag {
    Tag { key: key.to_owned(), value: value.to_owned() }
}

fn highway_tags() -> Vec<Tag> {
    vec![tag("highway", "residential")]
}

/// Two disjoint regions: "R1" near the origin, "R2" well away from it.
fn two_regions() -> RegionRegistry {
    let mut registry = RegionRegistry::new();
    registry.register("R1".to_owned(), Rect::new(c(0, 0), c(1000, 1000)));
    registry.register("R2".to_owned(), Rect::new(c(5000, 5000), c(6000, 6000)));
    registry
}

fn node(id: i64, coord: Coord) -> Element {
    Element::Node { id, coord, tags: vec![] }
}

fn way(id: i64, node_ids: Vec<i64>, tags: Vec<Tag>) -> Element {
    Element::Way { id, node_ids, tags }
}

#[test]
fn rect_new_normalizes_corners() {
    let r = Rect::new(c(10, -5), c(-3, 7));
    assert_eq!(r.min, c(-3, -5));
    assert_eq!(r.max, c(10, 7));
}

#[test]
fn rect_contains_is_boundary_inclusive() {
    let r = Rect::new(c(0, 0), c(10, 10));
    assert!(r.contains(&c(0, 0)));
    assert!(r.contains(&c(10, 10)));
    assert!(r.contains(&c(0, 10)));
    assert!(r.contains(&c(5, 5)));
    assert!(!r.contains(&c(11, 5)));
    assert!(!r.contains(&c(5, -1)));
}

#[test]
fn filter_all_accepts_everything() {
    let f = TagFilter::All;
    assert!(f.matches(&vec![]));
    assert!(f.matches(&highway_tags()));
}

#[test]
fn filter_key_present_ignores_value() {
    let f = TagFilter::KeyPresent("highway".to_owned());
    assert!(f.matches(&highway_tags()));
    assert!(f.matches(&vec![tag("highway", "primary")]));
    assert!(!f.matches(&vec![tag("building", "yes")]));
    assert!(!f.matches(&vec![]));
}

#[test]
fn filter_key_value_requires_exact_value() {
    let f = TagFilter::KeyValue("highway".to_owned(), "residential".to_owned());
    assert!(f.matches(&highway_tags()));
    assert!(!f.matches(&vec![tag("highway", "primary")]));
    assert!(!f.matches(&vec![tag("name", "residential")]));
    assert!(!f.matches(&vec![]));
}

#[test]
fn sink_appends_in_order() {
    let mut sink = ShapeSink::new();
    assert_eq!(sink.len(), 0);
    sink.append(vec![c(1, 1), c(2, 2)]);
    sink.append(vec![c(3, 3)]);
    assert_eq!(sink.len(), 2);
    assert_eq!(sink.records[0], vec![c(1, 1), c(2, 2)]);
    assert_eq!(sink.records[1], vec![c(3, 3)]);
}

#[test]
fn resolve_returns_full_line_in_order() {
    let mut cache: HashMap<i64, Coord> = HashMap::new();
    cache.insert(1, c(10, 10));
    cache.insert(2, c(20, 20));
    let line = resolve(&vec![2, 1, 2], &cache).unwrap();
    assert_eq!(line, vec![c(20, 20), c(10, 10), c(20, 20)]);
}

#[test]
fn resolve_fails_on_any_missing_identifier() {
    let mut cache: HashMap<i64, Coord> = HashMap::new();
    cache.insert(1, c(10, 10));
    assert!(resolve(&vec![1, 99], &cache).is_none());
    assert!(resolve(&vec![99], &cache).is_none());
    assert!(resolve(&vec![], &cache).is_some());
}

#[test]
fn node_cached_exactly_in_containing_regions() {
    let mut registry = two_regions();
    registry.observe_node(1, c(500, 500));
    registry.observe_node(2, c(5500, 5500));
    registry.observe_node(3, c(3000, 3000));
    registry.observe_node(4, c(0, 1000));
    let r1 = &registry.regions[0];
    let r2 = &registry.regions[1];
    assert_eq!(r1.cache.get(&1), Some(&c(500, 500)));
    assert!(r2.cache.get(&1).is_none());
    assert!(r1.cache.get(&2).is_none());
    assert_eq!(r2.cache.get(&2), Some(&c(5500, 5500)));
    assert!(r1.cache.get(&3).is_none());
    assert!(r2.cache.get(&3).is_none());
    assert_eq!(r1.cache.get(&4), Some(&c(0, 1000)));
}

#[test]
fn node_in_overlapping_regions_cached_in_each() {
    let mut registry = RegionRegistry::new();
    registry.register("a".to_owned(), Rect::new(c(0, 0), c(100, 100)));
    registry.register("b".to_owned(), Rect::new(c(50, 50), c(200, 200)));
    registry.observe_node(7, c(60, 60));
    assert_eq!(registry.regions[0].cache.get(&7), Some(&c(60, 60)));
    assert_eq!(registry.regions[1].cache.get(&7), Some(&c(60, 60)));
}

#[test]
fn three_node_way_lands_in_r1_only() {
    let mut p = StreamProcessor::new(TagFilter::All, two_regions());
    let elems = vec![
        node(1, c(100, 100)),
        node(2, c(200, 200)),
        node(3, c(300, 300)),
        way(10, vec![1, 2, 3], highway_tags()),
    ];
    p.process_stream(&elems);
    let r1 = &p.registry.regions[0];
    let r2 = &p.registry.regions[1];
    assert_eq!(r1.sink.records.len(), 1);
    assert_eq!(r1.sink.records[0], vec![c(100, 100), c(200, 200), c(300, 300)]);
    assert_eq!(r2.sink.records.len(), 0);
}

#[test]
fn way_with_node_outside_every_region_is_dropped() {
    let mut p = StreamProcessor::new(TagFilter::All, two_regions());
    let elems = vec![
        node(1, c(100, 100)),
        node(2, c(3000, 3000)),
        node(3, c(300, 300)),
        way(10, vec![1, 2, 3], highway_tags()),
    ];
    p.process_stream(&elems);
    assert_eq!(p.registry.regions[0].sink.records.len(), 0);
    assert_eq!(p.registry.regions[1].sink.records.len(), 0);
}

#[test]
fn filter_mismatch_drops_way() {
    let filter = TagFilter::KeyValue("name".to_owned(), "Bar".to_owned());
    let mut p = StreamProcessor::new(filter, two_regions());
    let elems = vec![
        node(1, c(100, 100)),
        node(2, c(200, 200)),
        node(3, c(300, 300)),
        way(10, vec![1, 2, 3], vec![tag("highway", "residential"), tag("name", "Foo")]),
    ];
    p.process_stream(&elems);
    assert_eq!(p.registry.regions[0].sink.records.len(), 0);
    assert_eq!(p.registry.regions[1].sink.records.len(), 0);
}

#[test]
fn way_without_highway_key_is_never_emitted() {
    let mut p = StreamProcessor::new(TagFilter::All, two_regions());
    let elems = vec![
        node(1, c(100, 100)),
        node(2, c(200, 200)),
        way(10, vec![1, 2], vec![tag("name", "Foo")]),
    ];
    p.process_stream(&elems);
    assert_eq!(p.registry.regions[0].sink.records.len(), 0);
    assert_eq!(p.registry.regions[1].sink.records.len(), 0);
}

#[test]
fn way_resolving_in_two_regions_goes_to_first_registered() {
    let mut registry = RegionRegistry::new();
    registry.register("first".to_owned(), Rect::new(c(0, 0), c(100, 100)));
    registry.register("second".to_owned(), Rect::new(c(0, 0), c(100, 100)));
    let mut p = StreamProcessor::new(TagFilter::All, registry);
    let elems = vec![
        node(1, c(10, 10)),
        node(2, c(20, 20)),
        way(10, vec![1, 2], highway_tags()),
    ];
    p.process_stream(&elems);
    assert_eq!(p.registry.regions[0].sink.records.len(), 1);
    assert_eq!(p.registry.regions[1].sink.records.len(), 0);
}

#[test]
fn repeated_node_identifiers_are_preserved() {
    let mut p = StreamProcessor::new(TagFilter::All, two_regions());
    let elems = vec![
        node(1, c(100, 100)),
        node(2, c(200, 200)),
        way(10, vec![1, 2, 1, 1], highway_tags()),
    ];
    p.process_stream(&elems);
    let records = &p.registry.regions[0].sink.records;
    assert_eq!(records.len(), 1);
    assert_eq!(records[0], vec![c(100, 100), c(200, 200), c(100, 100), c(100, 100)]);
}

#[test]
fn way_arriving_before_its_nodes_is_dropped() {
    let mut p = StreamProcessor::new(TagFilter::All, two_regions());
    let elems = vec![
        way(10, vec![1, 2], highway_tags()),
        node(1, c(100, 100)),
        node(2, c(200, 200)),
    ];
    p.process_stream(&elems);
    assert_eq!(p.registry.regions[0].sink.records.len(), 0);
    assert_eq!(p.registry.regions[1].sink.records.len(), 0);
}

#[test]
fn rerun_on_unchanged_input_yields_identical_sinks() {
    let elems = vec![
        node(1, c(100, 100)),
        node(2, c(200, 200)),
        node(3, c(5500, 5500)),
        way(10, vec![1, 2], highway_tags()),
        way(11, vec![3], highway_tags()),
        way(12, vec![1, 3], highway_tags()),
    ];
    let mut first = StreamProcessor::new(TagFilter::All, two_regions());
    first.process_stream(&elems);
    let mut second = StreamProcessor::new(TagFilter::All, two_regions());
    second.process_stream(&elems);
    for k in 0..2 {
        let a = &first.registry.regions[k].sink.records;
        let b = &second.registry.regions[k].sink.records;
        assert_eq!(a, b);
    }
    assert_eq!(first.registry.regions[0].sink.records.len(), 1);
    assert_eq!(first.registry.regions[1].sink.records.len(), 1);
}

#[test]
fn registry_reports_registration_order() {
    let registry = two_regions();
    assert_eq!(registry.len(), 2);
    assert_eq!(registry.regions[0].name, "R1");
    assert_eq!(registry.regions[1].name, "R2");
}

#[test]
fn region_starts_empty() {
    let region = Region::new("r".to_owned(), Rect::new(c(0, 0), c(1, 1)));
    assert!(region.cache.is_empty());
    assert_eq!(region.sink.records.len(), 0);
}

#[test]
fn rejected_node_is_not_cached() {
    let filter = TagFilter::KeyPresent("power".to_owned());
    let mut p = StreamProcessor::new(filter, two_regions());
    p.process_element(&node(1, c(100, 100)));
    assert!(p.registry.regions[0].cache.is_empty());
}
