//! The whole way from the elements of a map to its streets.

use crate::extract::{
    collect_highway_nodes, elements_load, extract_street_segments, extracted, highway_nodes,
};
use crate::segment::{Element, SegmentView, Street};
use crate::streets::{group_segments_into_streets, is_street_grouping, streets_summarize};
use vstd::prelude::*;

verus! {

/// The street segments of the elements: the named highways among them, each
/// with the positions of those of its nodes that are among the elements.
pub open spec fn street_segments(elements: Seq<Element>, state: Seq<char>) -> Seq<SegmentView> {
    extracted(elements, state, elements_load(elements, highway_nodes(elements)).coords)
}

/// The streets of a map: the nodes of the named highways are collected,
/// their positions are loaded, the street segments are built, and the
/// segments are grouped into streets.
pub fn process_osm_elements(elements: &Vec<Element>, state_name: &String, threshold_um: u64) -> (streets:
    Vec<Street>)
    ensures
        exists|groups: Seq<Seq<usize>>| #[trigger]
            is_street_grouping(street_segments(elements@, state_name@), threshold_um, groups)
                && streets_summarize(
                streets.deep_view(),
                street_segments(elements@, state_name@),
                groups,
            ),
{
    let (nodes, _) = collect_highway_nodes(elements);
    let segments = extract_street_segments(elements, state_name, &nodes);
    let ghost segs = segments.deep_view();
    let streets = group_segments_into_streets(segments, threshold_um);
    proof {
        let groups = choose|groups: Seq<Seq<usize>>| #[trigger]
            is_street_grouping(segs, threshold_um, groups) && streets_summarize(
                streets.deep_view(),
                segs,
                groups,
            );
        assert(is_street_grouping(street_segments(elements@, state_name@), threshold_um, groups));
    }
    streets
}

} // verus!
