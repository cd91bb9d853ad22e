use osm_processor::consensus::{consensus_highway_type, consensus_tags};
use osm_processor::graph::{add_edge, empty_rows, push_row, push_to_row};
use osm_processor::segment::{Coord, StreetSegment};
use osm_processor::streets::{group_segments_into_streets, make_street};
use osm_processor::tags::Tags;

fn tags_of(pairs: &[(&str, &str)]) -> Tags {
    let mut tags = Tags::new();
    for (key, value) in pairs {
        tags.insert(key.to_string(), value.to_string());
    }
    tags
}

fn tagged(highway_type: &str, pairs: &[(&str, &str)]) -> StreetSegment {
    StreetSegment::new(
        "Main Street".to_string(),
        "test".to_string(),
        1,
        vec![100],
        vec![Coord { lat: 1, lon: 2 }],
        highway_type.to_string(),
        tags_of(pairs),
    )
    .unwrap()
}

fn value(tags: &Tags, key: &str) -> Option<String> {
    tags.get(&key.to_string()).cloned()
}

#[test]
fn tag_in_three_of_four_segments_is_kept() {
    let segments = vec![
        tagged("residential", &[("lanes", "2")]),
        tagged("residential", &[("lanes", "2")]),
        tagged("residential", &[]),
        tagged("residential", &[("lanes", "2")]),
    ];
    let tags = consensus_tags(&segments, &vec![0, 1, 2, 3]);
    assert_eq!(value(&tags, "lanes"), Some("2".to_string()));
    assert_eq!(tags.len(), 1);
}

#[test]
fn tag_in_one_of_three_segments_is_kept() {
    let segments = vec![
        tagged("residential", &[]),
        tagged("residential", &[("lit", "yes")]),
        tagged("residential", &[]),
    ];
    let tags = consensus_tags(&segments, &vec![0, 1, 2]);
    assert_eq!(value(&tags, "lit"), Some("yes".to_string()));
}

#[test]
fn tag_in_one_of_four_segments_is_dropped() {
    let segments = vec![
        tagged("residential", &[("lit", "yes"), ("lanes", "2")]),
        tagged("residential", &[("lanes", "2")]),
        tagged("residential", &[]),
        tagged("residential", &[]),
    ];
    let tags = consensus_tags(&segments, &vec![0, 1, 2, 3]);
    assert_eq!(value(&tags, "lit"), None);
    assert_eq!(value(&tags, "lanes"), Some("2".to_string()));
}

#[test]
fn tag_in_two_of_five_segments_is_kept() {
    let segments = vec![
        tagged("residential", &[("surface", "asphalt")]),
        tagged("residential", &[]),
        tagged("residential", &[("surface", "asphalt")]),
        tagged("residential", &[]),
        tagged("residential", &[("oneway", "yes")]),
    ];
    let tags = consensus_tags(&segments, &vec![0, 1, 2, 3, 4]);
    assert_eq!(value(&tags, "surface"), Some("asphalt".to_string()));
    assert_eq!(value(&tags, "oneway"), None);
}

#[test]
fn a_single_segment_keeps_all_its_tags() {
    let segments = vec![tagged("residential", &[("lit", "yes"), ("lanes", "2")])];
    let tags = consensus_tags(&segments, &vec![0]);
    assert_eq!(tags.len(), 2);
    assert_eq!(value(&tags, "lit"), Some("yes".to_string()));
    assert_eq!(value(&tags, "lanes"), Some("2".to_string()));
}

#[test]
fn the_most_frequent_value_of_a_tag_wins() {
    let segments = vec![
        tagged("residential", &[("lanes", "1")]),
        tagged("residential", &[("lanes", "2")]),
        tagged("residential", &[("lanes", "2")]),
        tagged("residential", &[("lanes", "3")]),
    ];
    let tags = consensus_tags(&segments, &vec![0, 1, 2, 3]);
    assert_eq!(value(&tags, "lanes"), Some("2".to_string()));
}

#[test]
fn only_the_members_of_the_group_count() {
    let segments = vec![
        tagged("primary", &[("lanes", "4")]),
        tagged("residential", &[("lanes", "2")]),
        tagged("primary", &[("lanes", "4")]),
        tagged("residential", &[]),
    ];
    let tags = consensus_tags(&segments, &vec![1, 3]);
    assert_eq!(value(&tags, "lanes"), Some("2".to_string()));
    assert_eq!(consensus_highway_type(&segments, &vec![1, 3]), "residential");
    assert_eq!(consensus_tags(&segments, &Vec::new()).len(), 0);
}

#[test]
fn the_most_frequent_classification_wins() {
    let segments = vec![
        tagged("primary", &[]),
        tagged("residential", &[]),
        tagged("residential", &[]),
        tagged("secondary", &[]),
    ];
    assert_eq!(consensus_highway_type(&segments, &vec![0, 1, 2, 3]), "residential");
    assert_eq!(consensus_highway_type(&segments, &vec![3]), "secondary");
}

#[test]
fn of_equally_frequent_classifications_the_last_wins() {
    let segments = vec![
        tagged("primary", &[]),
        tagged("residential", &[]),
        tagged("primary", &[]),
        tagged("residential", &[]),
        tagged("secondary", &[]),
    ];
    assert_eq!(consensus_highway_type(&segments, &vec![0, 1, 2, 3, 4]), "residential");
    assert_eq!(consensus_highway_type(&segments, &vec![1, 3, 0, 2, 4]), "primary");
    assert_eq!(consensus_highway_type(&segments, &vec![0, 4]), "secondary");
}

#[test]
fn a_street_sums_up_its_group() {
    let segments = vec![
        tagged("primary", &[("lanes", "4")]),
        StreetSegment::new(
            "Main Street".to_string(),
            "test".to_string(),
            2,
            vec![100, 101],
            vec![Coord { lat: 10, lon: 20 }, Coord { lat: 30, lon: 40 }],
            "residential".to_string(),
            tags_of(&[("lanes", "2")]),
        )
        .unwrap(),
        tagged("residential", &[("lanes", "2")]),
    ];
    let street = make_street(&segments, &vec![1, 0, 2]);
    assert_eq!(street.street_name, "Main Street");
    assert_eq!(street.state, "test");
    assert_eq!((street.lat, street.lon), (10, 20));
    assert_eq!(street.num_segments, 3);
    assert_eq!(street.highway_type, "residential");
    assert_eq!(value(&street.tags, "lanes"), Some("2".to_string()));
}

#[test]
fn streets_carry_the_consensus_of_their_segments() {
    let segments = vec![
        tagged("residential", &[("lanes", "2"), ("lit", "yes")]),
        tagged("residential", &[("lanes", "2")]),
        tagged("primary", &[("lanes", "2")]),
        tagged("residential", &[]),
    ];
    let streets = group_segments_into_streets(segments, 0);
    assert_eq!(streets.len(), 1);
    assert_eq!(streets[0].num_segments, 4);
    assert_eq!(streets[0].highway_type, "residential");
    assert_eq!(value(&streets[0].tags, "lanes"), Some("2".to_string()));
    assert_eq!(value(&streets[0].tags, "lit"), None);
}

#[test]
fn tags_behave_as_a_map() {
    let mut tags = Tags::new();
    assert_eq!(tags.len(), 0);
    tags.insert("name".to_string(), "Main Street".to_string());
    tags.insert("highway".to_string(), "primary".to_string());
    tags.insert("name".to_string(), "High Street".to_string());
    assert_eq!(tags.len(), 2);
    assert_eq!(value(&tags, "name"), Some("High Street".to_string()));
    assert_eq!(value(&tags, "highway"), Some("primary".to_string()));
    assert_eq!(value(&tags, "lanes"), None);
    assert!(tags.contains_key(&"name".to_string()));
    assert!(!tags.contains_key(&"".to_string()));
    assert_eq!(tags.key_at(0), "name");
    assert_eq!(tags.value_at(0), "High Street");
    assert_eq!(tags.key_at(1), "highway");
    let copy = tags.duplicate();
    assert_eq!(copy.len(), 2);
    assert_eq!(value(&copy, "name"), Some("High Street".to_string()));
}

#[test]
fn tables_grow_row_by_row() {
    let mut table = empty_rows(3);
    assert_eq!(table, vec![Vec::<usize>::new(), Vec::new(), Vec::new()]);
    push_to_row(&mut table, 1, 7);
    push_to_row(&mut table, 1, 8);
    push_row(&mut table, vec![9]);
    assert_eq!(table, vec![vec![], vec![7, 8], vec![], vec![9]]);
    let mut adj = empty_rows(3);
    add_edge(&mut adj, 0, 2);
    assert_eq!(adj, vec![vec![2], vec![], vec![0]]);
}
