use osm_processor::connectivity::find_connected_components;
use osm_processor::segment::{Coord, Street, StreetSegment};
use osm_processor::streets::{group_segments_into_streets, partition_by_name, street_table};
use osm_processor::tags::Tags;

fn plain(name: String, way_id: i64, node_ids: Vec<i64>, lat: i64) -> StreetSegment {
    StreetSegment::new(
        name,
        "test".to_string(),
        way_id,
        node_ids,
        vec![Coord { lat, lon: 0 }],
        "residential".to_string(),
        Tags::new(),
    )
    .unwrap()
}

fn street(name: &str, lat: i64, lon: i64, num_segments: usize) -> Street {
    Street {
        street_name: name.to_string(),
        state: "test".to_string(),
        lat,
        lon,
        num_segments,
        highway_type: "primary".to_string(),
        tags: Tags::new(),
    }
}

#[test]
fn the_table_has_one_row_for_each_street() {
    let streets = vec![street("a", 1, 2, 3), street("b", -4, -5, 1)];
    let table = street_table(&streets);
    assert_eq!(table.street_name, vec!["a".to_string(), "b".to_string()]);
    assert_eq!(table.state, vec!["test".to_string(), "test".to_string()]);
    assert_eq!(table.lat, vec![1, -4]);
    assert_eq!(table.lon, vec![2, -5]);
    assert_eq!(table.num_segments, vec![3, 1]);
    assert_eq!(table.highway_type, vec!["primary".to_string(), "primary".to_string()]);
    let empty = street_table(&Vec::new());
    assert_eq!(empty.street_name.len(), 0);
    assert_eq!(empty.num_segments.len(), 0);
}

#[test]
fn the_table_counts_segments_in_32_bits() {
    let streets = vec![street("a", 0, 0, u32::MAX as usize), street("b", 0, 0, 7)];
    let table = street_table(&streets);
    assert_eq!(table.num_segments, vec![u32::MAX, 7]);
}

#[test]
fn many_names_are_split_into_as_many_groups() {
    let mut segments = Vec::new();
    for round in 0..3 {
        for name in 0..200 {
            segments.push(plain(format!("street {}", name), round * 200 + name, vec![name], 0));
        }
    }
    let buckets = partition_by_name(&segments);
    assert_eq!(buckets.len(), 200);
    for (name, bucket) in buckets.iter().enumerate() {
        assert_eq!(bucket, &vec![name, name + 200, name + 400]);
    }
    let streets = group_segments_into_streets(segments, 0);
    assert_eq!(streets.len(), 200);
    for (name, street) in streets.iter().enumerate() {
        assert_eq!(street.street_name, format!("street {}", name));
        assert_eq!(street.num_segments, 3);
    }
}

#[test]
fn names_that_run_together_are_kept_apart() {
    let a = StreetSegment::new(
        "ab".to_string(),
        "c".to_string(),
        1,
        vec![1],
        vec![Coord { lat: 0, lon: 0 }],
        "residential".to_string(),
        Tags::new(),
    )
    .unwrap();
    let b = StreetSegment::new(
        "a".to_string(),
        "bc".to_string(),
        2,
        vec![1],
        vec![Coord { lat: 0, lon: 0 }],
        "residential".to_string(),
        Tags::new(),
    )
    .unwrap();
    assert_eq!(partition_by_name(&vec![a, b]), vec![vec![0], vec![1]]);
}

fn root(parent: &mut Vec<usize>, v: usize) -> usize {
    let mut r = v;
    while parent[r] != r {
        r = parent[r];
    }
    parent[v] = r;
    r
}

#[test]
fn components_agree_with_a_union_of_shared_nodes() {
    let mut seed: u64 = 12345;
    let mut next = |bound: u64| -> u64 {
        seed = seed.wrapping_mul(6364136223846793005).wrapping_add(1442695040888963407);
        (seed >> 33) % bound
    };
    for size in [1usize, 2, 5, 17, 60] {
        let mut segments = Vec::new();
        for i in 0..size {
            let count = 1 + next(3) as usize;
            let nodes: Vec<i64> = (0..count).map(|_| next(2 * size as u64) as i64).collect();
            segments.push(plain("a".to_string(), i as i64, nodes, 0));
        }
        let mut parent: Vec<usize> = (0..size).collect();
        for i in 0..size {
            for j in 0..size {
                let shares = segments[i].node_ids().iter().any(|n| segments[j].node_ids().contains(n));
                if shares {
                    let (a, b) = (root(&mut parent, i), root(&mut parent, j));
                    parent[a] = b;
                }
            }
        }
        let components = find_connected_components(&segments);
        let mut seen = vec![false; size];
        for component in &components {
            assert!(!component.is_empty());
            assert_eq!(component[0], *component.iter().min().unwrap());
            let r = root(&mut parent, component[0]);
            for &v in component {
                assert!(!seen[v]);
                seen[v] = true;
                assert_eq!(root(&mut parent, v), r);
            }
        }
        assert!(seen.iter().all(|&s| s));
        let mut roots: Vec<usize> = (0..size).map(|v| root(&mut parent, v)).collect();
        roots.sort();
        roots.dedup();
        assert_eq!(components.len(), roots.len());
        for pair in components.windows(2) {
            assert!(pair[0][0] < pair[1][0]);
        }
    }
}

#[test]
fn segments_are_copied_in_the_order_of_the_places() {
    let segments = vec![
        plain("a".to_string(), 1, vec![1], 10),
        plain("b".to_string(), 2, vec![2], 20),
        plain("c".to_string(), 3, vec![3], 30),
    ];
    let chosen = osm_processor::streets::segments_at(&segments, &vec![2, 0, 2]);
    let ids: Vec<i64> = chosen.iter().map(|s| s.way_id()).collect();
    assert_eq!(ids, vec![3, 1, 3]);
    assert_eq!(chosen[0].street_name(), "c");
    assert_eq!(chosen[1].rep_coords(), Coord { lat: 10, lon: 0 });
    assert_eq!(osm_processor::streets::segments_at(&segments, &Vec::new()).len(), 0);
}
