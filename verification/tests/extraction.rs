use osm_processor::extract::{
    add_node, add_way_nodes, collect_highway_nodes, empty_load, extract_segments,
    extract_street_segments, load_element, load_node_coords, merge_loads, resolve_coords,
    segment_of_way, way_is_named_highway,
};
use osm_processor::segment::{Coord, Element, Node, Way};
use osm_processor::streets::group_segments_into_streets;
use osm_processor::tags::Tags;
use std::collections::{HashMap, HashSet};

fn way(id: i64, refs: Vec<i64>, pairs: &[(&str, &str)]) -> Way {
    let mut tags = Tags::new();
    for (key, value) in pairs {
        tags.insert(key.to_string(), value.to_string());
    }
    Way { id, refs, tags }
}

fn node(id: i64, lat: i64, lon: i64) -> Node {
    Node { id, coord: Coord { lat, lon } }
}

fn elements() -> Vec<Element> {
    vec![
        Element::Node(node(1, 10, 11)),
        Element::Node(node(2, 20, 21)),
        Element::Node(node(3, 30, 31)),
        Element::Node(node(4, 40, 41)),
        Element::Other,
        Element::Way(way(100, vec![1, 2], &[("name", "Main Street"), ("highway", "primary"), ("lanes", "2")])),
        Element::Way(way(101, vec![3, 4], &[("name", "Nameless Lake")])),
        Element::Way(way(102, vec![4, 5], &[("highway", "service")])),
        Element::Way(way(103, vec![2, 9, 3], &[("highway", "residential"), ("name", "Oak Avenue")])),
        Element::Way(way(104, vec![8, 9], &[("highway", "residential"), ("name", "Lost Lane")])),
    ]
}

fn set(ids: &[i64]) -> HashSet<i64> {
    ids.iter().copied().collect()
}

#[test]
fn the_filter_holds_the_nodes_of_the_named_highways() {
    let (nodes, ways) = collect_highway_nodes(&elements());
    assert_eq!(nodes, set(&[1, 2, 3, 8, 9]));
    assert_eq!(ways, 3);
}

#[test]
fn no_elements_give_an_empty_filter() {
    let (nodes, ways) = collect_highway_nodes(&Vec::new());
    assert!(nodes.is_empty());
    assert_eq!(ways, 0);
}

#[test]
fn a_way_needs_both_a_name_and_a_classification() {
    assert!(way_is_named_highway(&way(1, vec![], &[("name", "a"), ("highway", "b")])));
    assert!(!way_is_named_highway(&way(1, vec![], &[("name", "a")])));
    assert!(!way_is_named_highway(&way(1, vec![], &[("highway", "b")])));
    assert!(!way_is_named_highway(&way(1, vec![], &[])));
    assert!(way_is_named_highway(&way(1, vec![], &[("name", ""), ("highway", "")])));
}

#[test]
fn only_named_highways_add_their_nodes() {
    let mut nodes = set(&[7]);
    assert!(!add_way_nodes(&mut nodes, &way(1, vec![1, 2], &[("name", "a")])));
    assert_eq!(nodes, set(&[7]));
    assert!(add_way_nodes(&mut nodes, &way(1, vec![1, 2, 1], &[("name", "a"), ("highway", "b")])));
    assert_eq!(nodes, set(&[1, 2, 7]));
}

#[test]
fn wanted_nodes_are_located() {
    let load = load_node_coords(&elements(), &set(&[1, 2, 3, 8, 9]));
    assert_eq!(load.total, 4);
    assert_eq!(load.matched, 3);
    let mut expected = HashMap::new();
    expected.insert(1, Coord { lat: 10, lon: 11 });
    expected.insert(2, Coord { lat: 20, lon: 21 });
    expected.insert(3, Coord { lat: 30, lon: 31 });
    assert_eq!(load.coords, expected);
}

#[test]
fn one_element_gives_at_most_one_position() {
    let wanted = set(&[1]);
    let hit = load_element(&Element::Node(node(1, 10, 11)), &wanted);
    assert_eq!((hit.total, hit.matched, hit.coords.len()), (1, 1, 1));
    assert_eq!(hit.coords[&1], Coord { lat: 10, lon: 11 });
    let miss = load_element(&Element::Node(node(2, 20, 21)), &wanted);
    assert_eq!((miss.total, miss.matched, miss.coords.len()), (1, 0, 0));
    let other = load_element(&Element::Way(way(1, vec![1], &[])), &wanted);
    assert_eq!((other.total, other.matched, other.coords.len()), (0, 0, 0));
    let nothing = empty_load();
    assert_eq!((nothing.total, nothing.matched, nothing.coords.len()), (0, 0, 0));
}

#[test]
fn loads_combine_in_any_grouping() {
    let wanted = set(&[1, 2, 3]);
    let all = elements();
    let part = |from: usize, to: usize| load_node_coords(&all[from..to].to_vec_elements(), &wanted);
    let left = merge_loads(merge_loads(part(0, 1), part(1, 3)), part(3, 10));
    let right = merge_loads(part(0, 1), merge_loads(part(1, 3), part(3, 10)));
    let swapped = merge_loads(part(3, 10), merge_loads(part(1, 3), part(0, 1)));
    let whole = load_node_coords(&all, &wanted);
    for load in [&left, &right, &swapped] {
        assert_eq!(load.coords, whole.coords);
        assert_eq!(load.total, whole.total);
        assert_eq!(load.matched, whole.matched);
    }
    assert_eq!(whole.coords.len(), 3);
}

trait ToVecElements {
    fn to_vec_elements(&self) -> Vec<Element>;
}

impl ToVecElements for [Element] {
    fn to_vec_elements(&self) -> Vec<Element> {
        self.iter()
            .map(|e| match e {
                Element::Node(n) => Element::Node(*n),
                Element::Way(w) => Element::Way(Way { id: w.id, refs: w.refs.clone(), tags: w.tags.duplicate() }),
                Element::Other => Element::Other,
            })
            .collect()
    }
}

#[test]
fn the_second_load_wins_where_both_have_a_position() {
    let wanted = set(&[1]);
    let first = load_element(&Element::Node(node(1, 10, 11)), &wanted);
    let second = load_element(&Element::Node(node(1, 12, 13)), &wanted);
    let both = merge_loads(first, second);
    assert_eq!(both.coords[&1], Coord { lat: 12, lon: 13 });
    assert_eq!((both.total, both.matched), (2, 2));
}

#[test]
fn nodes_enter_a_load_one_by_one() {
    let wanted = set(&[1]);
    let mut load = empty_load();
    add_node(&mut load, &node(1, 10, 11), &wanted);
    add_node(&mut load, &node(2, 20, 21), &wanted);
    assert_eq!((load.total, load.matched), (2, 1));
    assert_eq!(load.coords.len(), 1);
    assert_eq!(load.coords[&1], Coord { lat: 10, lon: 11 });
}

#[test]
fn positions_are_resolved_in_order_and_misses_skipped() {
    let mut coords = HashMap::new();
    coords.insert(1, Coord { lat: 10, lon: 11 });
    coords.insert(3, Coord { lat: 30, lon: 31 });
    assert_eq!(
        resolve_coords(&vec![3, 2, 1, 3], &coords),
        vec![Coord { lat: 30, lon: 31 }, Coord { lat: 10, lon: 11 }, Coord { lat: 30, lon: 31 }]
    );
    assert_eq!(resolve_coords(&vec![2, 4], &coords), Vec::new());
}

#[test]
fn a_named_highway_with_a_position_gives_a_segment() {
    let mut coords = HashMap::new();
    coords.insert(2, Coord { lat: 20, lon: 21 });
    let state = "delaware".to_string();
    let source = way(7, vec![1, 2, 3], &[("name", "Main Street"), ("highway", "primary"), ("lanes", "2")]);
    let segment = segment_of_way(&source, &state, &coords).unwrap();
    assert_eq!(segment.street_name(), "Main Street");
    assert_eq!(segment.state(), "delaware");
    assert_eq!(segment.way_id(), 7);
    assert_eq!(segment.node_ids(), &vec![1, 2, 3]);
    assert_eq!(segment.coords(), &vec![Coord { lat: 20, lon: 21 }]);
    assert_eq!(segment.highway_type(), "primary");
    assert_eq!(segment.tags().len(), 3);
    assert_eq!(segment.tags().get(&"lanes".to_string()), Some(&"2".to_string()));
    assert!(segment.coords().len() <= segment.node_ids().len());
}

#[test]
fn ways_without_tags_or_positions_give_no_segment() {
    let mut coords = HashMap::new();
    coords.insert(2, Coord { lat: 20, lon: 21 });
    let state = "delaware".to_string();
    assert!(segment_of_way(&way(7, vec![2], &[("name", "a")]), &state, &coords).is_none());
    assert!(segment_of_way(&way(7, vec![2], &[("highway", "b")]), &state, &coords).is_none());
    assert!(segment_of_way(&way(7, vec![1, 3], &[("name", "a"), ("highway", "b")]), &state, &coords).is_none());
    assert!(segment_of_way(&way(7, vec![], &[("name", "a"), ("highway", "b")]), &state, &coords).is_none());
}

#[test]
fn segments_come_in_the_order_of_the_ways() {
    let all = elements();
    let (wanted, _) = collect_highway_nodes(&all);
    let state = "delaware".to_string();
    let segments = extract_street_segments(&all, &state, &wanted);
    let ids: Vec<i64> = segments.iter().map(|s| s.way_id()).collect();
    assert_eq!(ids, vec![100, 103]);
    assert_eq!(segments[0].coords(), &vec![Coord { lat: 10, lon: 11 }, Coord { lat: 20, lon: 21 }]);
    assert_eq!(segments[1].node_ids(), &vec![2, 9, 3]);
    assert_eq!(segments[1].coords(), &vec![Coord { lat: 20, lon: 21 }, Coord { lat: 30, lon: 31 }]);
    assert_eq!(segments[1].street_name(), "Oak Avenue");
    assert_eq!(segments[1].highway_type(), "residential");
    for segment in &segments {
        assert!(!segment.street_name().is_empty());
        assert!(!segment.highway_type().is_empty());
        assert!(!segment.coords().is_empty());
        assert!(segment.coords().len() <= segment.node_ids().len());
    }
    let load = load_node_coords(&all, &wanted);
    let again = extract_segments(&all, &state, &load.coords);
    assert_eq!(again.len(), 2);
}

#[test]
fn the_passes_lead_from_elements_to_streets() {
    let all = elements();
    let (wanted, _) = collect_highway_nodes(&all);
    let segments = extract_street_segments(&all, &"delaware".to_string(), &wanted);
    let streets = group_segments_into_streets(segments, 200_000_000);
    assert_eq!(streets.len(), 2);
    assert_eq!(streets[0].street_name, "Main Street");
    assert_eq!((streets[0].lat, streets[0].lon), (10, 11));
    assert_eq!(streets[0].num_segments, 1);
    assert_eq!(streets[0].tags.get(&"lanes".to_string()), Some(&"2".to_string()));
    assert_eq!(streets[1].street_name, "Oak Avenue");
    assert_eq!(streets[1].highway_type, "residential");
}

#[test]
fn the_whole_way_gives_the_same_streets() {
    let streets = osm_processor::pipeline::process_osm_elements(
        &elements(),
        &"delaware".to_string(),
        200_000_000,
    );
    assert_eq!(streets.len(), 2);
    assert_eq!(streets[0].street_name, "Main Street");
    assert_eq!(streets[0].state, "delaware");
    assert_eq!((streets[0].lat, streets[0].lon), (10, 11));
    assert_eq!(streets[0].highway_type, "primary");
    assert_eq!(streets[1].street_name, "Oak Avenue");
    assert_eq!((streets[1].lat, streets[1].lon), (20, 21));
    assert_eq!(streets[1].num_segments, 1);
    let none = osm_processor::pipeline::process_osm_elements(
        &Vec::new(),
        &"delaware".to_string(),
        200_000_000,
    );
    assert_eq!(none.len(), 0);
}

#[test]
fn the_last_of_two_nodes_with_one_identifier_counts() {
    let twice = vec![
        Element::Node(node(1, 10, 11)),
        Element::Node(node(1, 12, 13)),
        Element::Node(node(2, 20, 21)),
    ];
    let load = load_node_coords(&twice, &set(&[1]));
    assert_eq!((load.total, load.matched), (3, 2));
    assert_eq!(load.coords.len(), 1);
    assert_eq!(load.coords[&1], Coord { lat: 12, lon: 13 });
}
