use osm_processor::connectivity::find_connected_components;
use osm_processor::flood_fill::connected_components;
use osm_processor::segment::{Coord, Street, StreetSegment};
use osm_processor::spatial::{
    components_are_near, coords_are_close, group_nearby_components, is_closer_than,
};
use osm_processor::streets::{group_segments_into_streets, partition_by_name, streets_of_name};
use osm_processor::tags::Tags;

const KM: u64 = 1_000_000_000;

fn at(lat_micro: i64, lon_micro: i64) -> Coord {
    Coord { lat: lat_micro * 1000, lon: lon_micro * 1000 }
}

fn segment(name: &str, way_id: i64, node_ids: Vec<i64>, coords: Vec<Coord>) -> StreetSegment {
    StreetSegment::new(
        name.to_string(),
        "test".to_string(),
        way_id,
        node_ids,
        coords,
        "residential".to_string(),
        Tags::new(),
    )
    .unwrap()
}

fn main_street() -> Vec<StreetSegment> {
    vec![
        segment("Main Street", 1, vec![1, 100], vec![at(39_000_000, -75_000_000), at(39_001_000, -75_000_000)]),
        segment("Main Street", 2, vec![100, 2], vec![at(39_001_000, -75_000_000), at(39_002_000, -75_000_000)]),
        segment("Main Street", 3, vec![3], vec![at(39_050_000, -75_000_000)]),
    ]
}

fn sorted(mut groups: Vec<Vec<usize>>) -> Vec<Vec<usize>> {
    for group in groups.iter_mut() {
        group.sort();
    }
    groups.sort();
    groups
}

fn sizes(streets: &Vec<Street>) -> Vec<usize> {
    let mut sizes: Vec<usize> = streets.iter().map(|s| s.num_segments).collect();
    sizes.sort();
    sizes
}

#[test]
fn shared_node_and_distant_segment_make_two_streets() {
    let streets = group_segments_into_streets(main_street(), KM / 5);
    assert_eq!(streets.len(), 2);
    assert_eq!(sizes(&streets), vec![1, 2]);
    let pair = streets.iter().find(|s| s.num_segments == 2).unwrap();
    assert_eq!(pair.street_name, "Main Street");
    assert_eq!(pair.state, "test");
    assert_eq!((pair.lat, pair.lon), (39_000_000_000, -75_000_000_000));
    assert_eq!(pair.highway_type, "residential");
    let single = streets.iter().find(|s| s.num_segments == 1).unwrap();
    assert_eq!((single.lat, single.lon), (39_050_000_000, -75_000_000_000));
}

#[test]
fn wide_threshold_makes_one_street_of_three() {
    let streets = group_segments_into_streets(main_street(), 10 * KM);
    assert_eq!(streets.len(), 1);
    assert_eq!(streets[0].num_segments, 3);
    assert_eq!((streets[0].lat, streets[0].lon), (39_000_000_000, -75_000_000_000));
}

#[test]
fn zero_threshold_merges_nothing_even_at_zero_distance() {
    let segments = vec![
        segment("Main Street", 1, vec![1], vec![at(39_000_000, -75_000_000)]),
        segment("Main Street", 2, vec![2], vec![at(39_000_000, -75_000_000)]),
    ];
    let streets = group_segments_into_streets(segments, 0);
    assert_eq!(sizes(&streets), vec![1, 1]);
}

#[test]
fn different_names_are_never_grouped() {
    let segments = vec![
        segment("Main Street", 1, vec![1, 100], vec![at(39_000_000, -75_000_000)]),
        segment("Oak Avenue", 2, vec![100, 2], vec![at(39_000_000, -75_000_000)]),
    ];
    let streets = group_segments_into_streets(segments, 10 * KM);
    assert_eq!(sizes(&streets), vec![1, 1]);
    let mut names: Vec<String> = streets.iter().map(|s| s.street_name.clone()).collect();
    names.sort();
    assert_eq!(names, vec!["Main Street".to_string(), "Oak Avenue".to_string()]);
}

#[test]
fn different_regions_are_never_grouped() {
    let here = segment("Main Street", 1, vec![1, 100], vec![at(39_000_000, -75_000_000)]);
    let there = StreetSegment::new(
        "Main Street".to_string(),
        "elsewhere".to_string(),
        2,
        vec![100],
        vec![at(39_000_000, -75_000_000)],
        "residential".to_string(),
        Tags::new(),
    )
    .unwrap();
    let streets = group_segments_into_streets(vec![here, there], 10 * KM);
    assert_eq!(sizes(&streets), vec![1, 1]);
}

#[test]
fn no_segments_give_no_streets() {
    assert_eq!(group_segments_into_streets(Vec::new(), KM / 5).len(), 0);
    assert_eq!(streets_of_name(&Vec::new(), KM / 5).len(), 0);
    assert_eq!(find_connected_components(&Vec::new()).len(), 0);
}

#[test]
fn components_follow_chains_of_shared_nodes() {
    let segments = vec![
        segment("a", 1, vec![1, 2], vec![at(0, 0)]),
        segment("a", 2, vec![7, 8], vec![at(0, 0)]),
        segment("a", 3, vec![2, 3], vec![at(0, 0)]),
        segment("a", 4, vec![3, 4], vec![at(0, 0)]),
        segment("a", 5, vec![9], vec![at(0, 0)]),
        segment("a", 6, vec![8, 10], vec![at(0, 0)]),
    ];
    let components = find_connected_components(&segments);
    assert_eq!(
        sorted(components.clone()),
        vec![vec![0, 2, 3], vec![1, 5], vec![4]]
    );
    let firsts: Vec<usize> = components.iter().map(|c| c[0]).collect();
    assert_eq!(firsts, vec![0, 1, 4]);
}

#[test]
fn components_do_not_depend_on_the_order_of_the_segments() {
    let forward = vec![
        segment("a", 1, vec![1, 2], vec![at(0, 0)]),
        segment("a", 2, vec![2, 3], vec![at(0, 0)]),
        segment("a", 3, vec![5], vec![at(0, 0)]),
        segment("a", 4, vec![3, 4], vec![at(0, 0)]),
    ];
    let backward = vec![
        segment("a", 4, vec![3, 4], vec![at(0, 0)]),
        segment("a", 3, vec![5], vec![at(0, 0)]),
        segment("a", 2, vec![2, 3], vec![at(0, 0)]),
        segment("a", 1, vec![1, 2], vec![at(0, 0)]),
    ];
    let ways = |segments: &Vec<StreetSegment>, groups: Vec<Vec<usize>>| -> Vec<Vec<i64>> {
        let mut named: Vec<Vec<i64>> = groups
            .iter()
            .map(|g| {
                let mut ids: Vec<i64> = g.iter().map(|&i| segments[i].way_id()).collect();
                ids.sort();
                ids
            })
            .collect();
        named.sort();
        named
    };
    let first = ways(&forward, find_connected_components(&forward));
    let second = ways(&backward, find_connected_components(&backward));
    assert_eq!(first, vec![vec![1, 2, 4], vec![3]]);
    assert_eq!(first, second);
}

#[test]
fn grouping_twice_gives_the_same_partition() {
    let once = find_connected_components(&main_street());
    let twice = find_connected_components(&main_street());
    assert_eq!(sorted(once.clone()), sorted(twice));
    assert_eq!(sorted(once), vec![vec![0, 1], vec![2]]);
}

#[test]
fn a_way_that_closes_on_itself_is_one_component() {
    let segments = vec![
        segment("ring", 1, vec![1, 2, 3, 1], vec![at(0, 0)]),
        segment("ring", 2, vec![4], vec![at(0, 0)]),
    ];
    assert_eq!(sorted(find_connected_components(&segments)), vec![vec![0], vec![1]]);
}

#[test]
fn flood_fill_finds_the_components_of_a_graph() {
    let adj = vec![vec![2], vec![], vec![0, 3], vec![2], vec![5], vec![4]];
    let components = connected_components(&adj);
    assert_eq!(sorted(components.clone()), vec![vec![0, 2, 3], vec![1], vec![4, 5]]);
    assert_eq!(components[0][0], 0);
    assert_eq!(components[1][0], 1);
    assert_eq!(components[2][0], 4);
}

#[test]
fn distance_is_111_micrometres_to_the_nanodegree() {
    let p = Coord { lat: 0, lon: 0 };
    let north = Coord { lat: 1000, lon: 0 };
    assert!(!is_closer_than(p, north, 111_000));
    assert!(is_closer_than(p, north, 111_001));
    assert!(!is_closer_than(north, p, 111_000));
    assert!(is_closer_than(north, p, 111_001));
    let diagonal = Coord { lat: 3000, lon: -4000 };
    assert!(!is_closer_than(p, diagonal, 555_000));
    assert!(is_closer_than(p, diagonal, 555_001));
}

#[test]
fn nothing_is_closer_than_zero() {
    let p = Coord { lat: 5, lon: 7 };
    assert!(!is_closer_than(p, p, 0));
    assert!(is_closer_than(p, p, 1));
}

#[test]
fn distance_holds_at_the_limits_of_the_numbers() {
    let low = Coord { lat: i64::MIN, lon: i64::MIN };
    let high = Coord { lat: i64::MAX, lon: i64::MAX };
    assert!(!is_closer_than(low, high, u64::MAX));
    assert!(is_closer_than(low, low, u64::MAX));
    let near_limit = Coord { lat: (u64::MAX / 111 - 1) as i64, lon: 0 };
    let origin = Coord { lat: 0, lon: 0 };
    assert!(is_closer_than(origin, near_limit, u64::MAX));
    let both = Coord { lat: (u64::MAX / 111 - 1) as i64, lon: (u64::MAX / 111 - 1) as i64 };
    assert!(!is_closer_than(origin, both, u64::MAX));
}

#[test]
fn lists_are_close_when_one_pair_is() {
    let a = vec![at(0, 0), at(10_000, 0)];
    let b = vec![at(50_000, 0), at(11_000, 0)];
    assert!(coords_are_close(&a, &b, KM / 5));
    assert!(!coords_are_close(&a, &b, KM / 10));
    assert!(!coords_are_close(&a, &Vec::new(), KM));
}

#[test]
fn components_are_near_when_one_pair_of_segments_is() {
    let segments = main_street();
    assert!(!components_are_near(&segments, &vec![0, 1], &vec![2], 5 * KM));
    assert!(components_are_near(&segments, &vec![0, 1], &vec![2], 6 * KM));
    assert!(components_are_near(&segments, &vec![2], &vec![0, 1], 6 * KM));
    assert!(!components_are_near(&segments, &vec![0], &vec![2], 5_328 * KM / 1000));
    assert!(components_are_near(&segments, &vec![1], &vec![2], 5_328 * KM / 1000 + 1));
}

#[test]
fn nearby_components_are_merged_through_chains() {
    let segments = vec![
        segment("a", 1, vec![1], vec![at(0, 0)]),
        segment("a", 2, vec![2], vec![at(30_000, 0)]),
        segment("a", 3, vec![3], vec![at(1_000, 0)]),
        segment("a", 4, vec![4], vec![at(2_000, 0)]),
    ];
    let components = vec![vec![0], vec![1], vec![2], vec![3]];
    let merged = group_nearby_components(&segments, components.clone(), KM / 5);
    assert_eq!(merged.len(), 2);
    assert_eq!(sorted(merged.clone()), vec![vec![0, 2, 3], vec![1]]);
    assert_eq!(merged[0][0], 0);
    let apart = group_nearby_components(&segments, components.clone(), KM / 10);
    assert_eq!(sorted(apart), vec![vec![0], vec![1], vec![2], vec![3]]);
    let all = group_nearby_components(&segments, components, 4 * KM);
    assert_eq!(sorted(all), vec![vec![0, 1, 2, 3]]);
}

#[test]
fn one_component_is_left_as_it_is() {
    let segments = main_street();
    assert_eq!(group_nearby_components(&segments, vec![vec![1, 0]], KM), vec![vec![1, 0]]);
    assert_eq!(group_nearby_components(&segments, Vec::new(), KM).len(), 0);
}

#[test]
fn segments_are_split_by_name_and_region() {
    let segments = vec![
        segment("b", 1, vec![1], vec![at(0, 0)]),
        segment("a", 2, vec![1], vec![at(0, 0)]),
        segment("b", 3, vec![1], vec![at(0, 0)]),
        segment("c", 4, vec![1], vec![at(0, 0)]),
        segment("a", 5, vec![1], vec![at(0, 0)]),
    ];
    assert_eq!(partition_by_name(&segments), vec![vec![0, 2], vec![1, 4], vec![3]]);
}

#[test]
fn a_segment_needs_a_position() {
    let none = StreetSegment::new(
        "a".to_string(),
        "test".to_string(),
        1,
        vec![1, 2],
        Vec::new(),
        "residential".to_string(),
        Tags::new(),
    );
    assert!(none.is_none());
    let some = segment("a", 1, vec![1, 2], vec![at(1, 2), at(3, 4)]);
    assert_eq!(some.rep_coords(), at(1, 2));
    assert_eq!(some.street_name(), "a");
    assert_eq!(some.state(), "test");
    assert_eq!(some.way_id(), 1);
    assert_eq!(some.node_ids(), &vec![1, 2]);
    assert_eq!(some.coords(), &vec![at(1, 2), at(3, 4)]);
    assert_eq!(some.highway_type(), "residential");
    assert_eq!(some.tags().len(), 0);
    let copy = some.duplicate();
    assert_eq!(copy.coords(), some.coords());
    assert_eq!(copy.node_ids(), some.node_ids());
    assert_eq!(copy.street_name(), some.street_name());
}
