//! The data model: raw map elements, street segments and streets.

use crate::tags::{entries_map, Tags};
use vstd::prelude::*;

verus! {

/// A position in nanodegrees of latitude and longitude.
#[derive(Clone, Copy, Debug, PartialEq, Eq, Structural)]
pub struct Coord {
    pub lat: i64,
    pub lon: i64,
}

/// A node of the map: an identifier with a position.
#[derive(Clone, Copy, Debug)]
pub struct Node {
    pub id: i64,
    pub coord: Coord,
}

/// A way of the map: an identifier, the nodes it runs through, and its tags.
#[derive(Debug)]
pub struct Way {
    pub id: i64,
    pub refs: Vec<i64>,
    pub tags: Tags,
}

/// One element of the map, as the reader hands them over.
#[derive(Debug)]
pub enum Element {
    Node(Node),
    Way(Way),
    Other,
}

/// What a street segment holds, as mathematical values.
pub struct SegmentView {
    pub street_name: Seq<char>,
    pub state: Seq<char>,
    pub way_id: i64,
    pub node_ids: Seq<i64>,
    pub coords: Seq<Coord>,
    pub highway_type: Seq<char>,
    pub tags: Map<Seq<char>, Seq<char>>,
}

/// One named highway: a way with its name, its classification and the
/// positions of those of its nodes that are known. It always has at least
/// one position.
#[derive(Debug)]
pub struct StreetSegment {
    street_name: String,
    state: String,
    way_id: i64,
    node_ids: Vec<i64>,
    coords: Vec<Coord>,
    highway_type: String,
    tags: Tags,
}

impl View for StreetSegment {
    type V = SegmentView;

    closed spec fn view(&self) -> SegmentView {
        SegmentView {
            street_name: self.street_name@,
            state: self.state@,
            way_id: self.way_id,
            node_ids: self.node_ids@,
            coords: self.coords@,
            highway_type: self.highway_type@,
            tags: self.tags@,
        }
    }
}

impl DeepView for StreetSegment {
    type V = SegmentView;

    open spec fn deep_view(&self) -> SegmentView {
        self@
    }
}

impl StreetSegment {
    #[verifier::type_invariant]
    closed spec fn has_a_position(&self) -> bool {
        self.coords@.len() > 0
    }

    /// Builds a segment; there is none without a position.
    pub fn new(
        street_name: String,
        state: String,
        way_id: i64,
        node_ids: Vec<i64>,
        coords: Vec<Coord>,
        highway_type: String,
        tags: Tags,
    ) -> (segment: Option<StreetSegment>)
        ensures
            segment is None <==> coords@.len() == 0,
            segment is Some ==> segment.unwrap()@ == (SegmentView {
                street_name: street_name@,
                state: state@,
                way_id,
                node_ids: node_ids@,
                coords: coords@,
                highway_type: highway_type@,
                tags: tags@,
            }),
    {
        if coords.len() == 0 {
            None
        } else {
            Some(StreetSegment { street_name, state, way_id, node_ids, coords, highway_type, tags })
        }
    }

    /// The name of the street.
    pub fn street_name(&self) -> (name: &String)
        ensures
            name@ == self@.street_name,
    {
        &self.street_name
    }

    /// The region the segment lies in.
    pub fn state(&self) -> (state: &String)
        ensures
            state@ == self@.state,
    {
        &self.state
    }

    /// The identifier of the way.
    pub fn way_id(&self) -> (id: i64)
        ensures
            id == self@.way_id,
    {
        self.way_id
    }

    /// The nodes the way runs through.
    pub fn node_ids(&self) -> (ids: &Vec<i64>)
        ensures
            ids@ == self@.node_ids,
    {
        &self.node_ids
    }

    /// The known positions along the way, of which there is at least one.
    pub fn coords(&self) -> (coords: &Vec<Coord>)
        ensures
            coords@ == self@.coords,
            coords@.len() > 0,
    {
        proof {
            use_type_invariant(self);
        }
        &self.coords
    }

    /// The highway classification.
    pub fn highway_type(&self) -> (highway_type: &String)
        ensures
            highway_type@ == self@.highway_type,
    {
        &self.highway_type
    }

    /// The entries of the tags of the way, in their order.
    pub closed spec fn tags_entries(&self) -> Seq<(Seq<char>, Seq<char>)> {
        self.tags.entries_view()
    }

    /// The tags are the map that their entries stand for.
    pub proof fn lemma_tags_listed(&self)
        ensures
            self@.tags == entries_map(self.tags_entries()),
    {
    }

    /// The tags of the way.
    pub fn tags(&self) -> (tags: &Tags)
        ensures
            tags@ == self@.tags,
            tags.entries_view() == self.tags_entries(),
    {
        &self.tags
    }

    /// A copy of the segment.
    pub fn duplicate(&self) -> (copy: StreetSegment)
        ensures
            copy@ == self@,
            copy.tags_entries() == self.tags_entries(),
    {
        proof {
            use_type_invariant(self);
        }
        let mut node_ids: Vec<i64> = Vec::new();
        let mut i: usize = 0;
        while i < self.node_ids.len()
            invariant
                i <= self.node_ids@.len(),
                node_ids@ == self.node_ids@.subrange(0, i as int),
            decreases self.node_ids@.len() - i,
        {
            node_ids.push(self.node_ids[i]);
            proof {
                assert(node_ids@ =~= self.node_ids@.subrange(0, i + 1));
            }
            i += 1;
        }
        let mut coords: Vec<Coord> = Vec::new();
        let mut j: usize = 0;
        while j < self.coords.len()
            invariant
                j <= self.coords@.len(),
                coords@ == self.coords@.subrange(0, j as int),
            decreases self.coords@.len() - j,
        {
            coords.push(self.coords[j]);
            proof {
                assert(coords@ =~= self.coords@.subrange(0, j + 1));
            }
            j += 1;
        }
        proof {
            assert(node_ids@ =~= self.node_ids@);
            assert(coords@ =~= self.coords@);
        }
        StreetSegment {
            street_name: self.street_name.clone(),
            state: self.state.clone(),
            way_id: self.way_id,
            node_ids,
            coords,
            highway_type: self.highway_type.clone(),
            tags: self.tags.duplicate(),
        }
    }

    /// The position that stands for the segment: its first.
    pub fn rep_coords(&self) -> (coord: Coord)
        ensures
            self@.coords.len() > 0,
            coord == self@.coords[0],
    {
        proof {
            use_type_invariant(self);
        }
        self.coords[0]
    }
}

/// What a street holds, as mathematical values.
pub struct StreetView {
    pub street_name: Seq<char>,
    pub state: Seq<char>,
    pub lat: i64,
    pub lon: i64,
    pub num_segments: usize,
    pub highway_type: Seq<char>,
    pub tags: Map<Seq<char>, Seq<char>>,
}

/// One street: a group of segments with the attributes agreed on for it.
#[derive(Debug)]
pub struct Street {
    pub street_name: String,
    pub state: String,
    pub lat: i64,
    pub lon: i64,
    pub num_segments: usize,
    pub highway_type: String,
    pub tags: Tags,
}

impl View for Street {
    type V = StreetView;

    open spec fn view(&self) -> StreetView {
        StreetView {
            street_name: self.street_name@,
            state: self.state@,
            lat: self.lat,
            lon: self.lon,
            num_segments: self.num_segments,
            highway_type: self.highway_type@,
            tags: self.tags@,
        }
    }
}

impl DeepView for Street {
    type V = StreetView;

    open spec fn deep_view(&self) -> StreetView {
        self@
    }
}

/// The node lists of the segments.
pub open spec fn node_lists(segments: Seq<SegmentView>) -> Seq<Seq<i64>> {
    Seq::new(segments.len(), |i: int| segments[i].node_ids)
}

} // verus!
