//! The extraction passes over the elements of the map: which nodes the
//! named highways use, where those nodes lie, and the street segments that
//! the named highways give.

use crate::connectivity::has_node;
use crate::segment::{Coord, Element, Node, SegmentView, StreetSegment, Way};
use std::collections::{HashMap, HashSet};
use vstd::prelude::*;
use vstd::std_specs::hash::spec_hash_map_iter;
use vstd::std_specs::iter::IteratorSpec;

verus! {

broadcast use vstd::std_specs::hash::group_hash_axioms;

/// Whether the tags make a way a named highway: it has a name and a highway
/// classification.
pub open spec fn is_named_highway(tags: Map<Seq<char>, Seq<char>>) -> bool {
    tags.contains_key("name"@) && tags.contains_key("highway"@)
}

/// Whether the element is a named highway that runs through node `n`.
pub open spec fn way_uses(e: Element, n: i64) -> bool {
    match e {
        Element::Way(way) => is_named_highway(way.tags@) && has_node(way.refs@, n),
        _ => false,
    }
}

/// The nodes that the named highways among the elements run through.
pub open spec fn highway_nodes(elements: Seq<Element>) -> Set<i64> {
    Set::new(|n: i64| exists|i: int| 0 <= i < elements.len() && way_uses(#[trigger] elements[i], n))
}

/// Whether the element is a named highway.
pub open spec fn is_highway_element(e: Element) -> bool {
    match e {
        Element::Way(way) => is_named_highway(way.tags@),
        _ => false,
    }
}

/// How many of the elements are named highways.
pub open spec fn named_highway_count(elements: Seq<Element>) -> nat
    decreases elements.len(),
{
    if elements.len() == 0 {
        0
    } else {
        named_highway_count(elements.drop_last()) + if is_highway_element(elements.last()) {
            1nat
        } else {
            0nat
        }
    }
}

/// The nodes of a list, as a set.
pub open spec fn node_set(refs: Seq<i64>) -> Set<i64> {
    Set::new(|n: i64| has_node(refs, n))
}

/// Whether the way has both a name and a highway classification.
pub fn way_is_named_highway(way: &Way) -> (named: bool)
    ensures
        named == is_named_highway(way.tags@),
{
    let name_key = "name".to_owned();
    let highway_key = "highway".to_owned();
    way.tags.contains_key(&name_key) && way.tags.contains_key(&highway_key)
}

/// Enters the nodes of the way into the set if the way is a named highway,
/// and says whether it is one.
pub fn add_way_nodes(nodes: &mut HashSet<i64>, way: &Way) -> (named: bool)
    ensures
        named == is_named_highway(way.tags@),
        named ==> final(nodes)@ == old(nodes)@.union(node_set(way.refs@)),
        !named ==> final(nodes)@ == old(nodes)@,
{
    if !way_is_named_highway(way) {
        return false;
    }
    let ghost before = nodes@;
    let mut j: usize = 0;
    while j < way.refs.len()
        invariant
            j <= way.refs.len(),
            nodes@ == before.union(node_set(way.refs@.subrange(0, j as int))),
        decreases way.refs.len() - j,
    {
        let ghost head = way.refs@.subrange(0, j as int);
        let ghost next = way.refs@.subrange(0, j + 1);
        nodes.insert(way.refs[j]);
        proof {
            assert forall|n: i64| has_node(next, n) <==> (has_node(head, n) || n == way.refs@[j as int]) by {
                if has_node(head, n) {
                    let x: int = choose|x: int| 0 <= x < head.len() && #[trigger] head[x] == n;
                    assert(next[x] == n);
                }
                if n == way.refs@[j as int] {
                    assert(next[j as int] == n);
                }
                if has_node(next, n) {
                    let x: int = choose|x: int| 0 <= x < next.len() && #[trigger] next[x] == n;
                    if x < j {
                        assert(head[x] == n);
                    }
                }
            }
            assert(nodes@ =~= before.union(node_set(next)));
        }
        j += 1;
    }
    proof {
        assert(way.refs@.subrange(0, way.refs@.len() as int) =~= way.refs@);
    }
    true
}

/// The nodes of the first elements and one more are those of the first
/// elements together with those of the one more.
proof fn lemma_highway_nodes_step(elements: Seq<Element>, i: int)
    requires
        0 <= i < elements.len(),
    ensures
        highway_nodes(elements.subrange(0, i + 1)) == highway_nodes(
            elements.subrange(0, i),
        ).union(Set::new(|n: i64| way_uses(elements[i], n))),
        named_highway_count(elements.subrange(0, i + 1)) == named_highway_count(
            elements.subrange(0, i),
        ) + if is_highway_element(elements[i]) {
            1nat
        } else {
            0nat
        },
{
    let head = elements.subrange(0, i);
    let next = elements.subrange(0, i + 1);
    assert(next.drop_last() =~= head);
    assert(next.last() == elements[i]);
    assert forall|n: i64|
        highway_nodes(next).contains(n) <==> (highway_nodes(head).contains(n) || way_uses(
            elements[i],
            n,
        )) by {
        if highway_nodes(head).contains(n) {
            let x: int = choose|x: int| 0 <= x < head.len() && way_uses(#[trigger] head[x], n);
            assert(next[x] == head[x]);
        }
        if way_uses(elements[i], n) {
            assert(next[i] == elements[i]);
        }
        if highway_nodes(next).contains(n) {
            let x: int = choose|x: int| 0 <= x < next.len() && way_uses(#[trigger] next[x], n);
            if x < i {
                assert(head[x] == next[x]);
            }
        }
    }
    assert(highway_nodes(next) =~= highway_nodes(head).union(
        Set::new(|n: i64| way_uses(elements[i], n)),
    ));
}

/// The first pass: the nodes that the named highways run through, and the
/// number of named highways.
pub fn collect_highway_nodes(elements: &Vec<Element>) -> (res: (HashSet<i64>, usize))
    ensures
        res.0@ == highway_nodes(elements@),
        res.1 == named_highway_count(elements@),
{
    let mut nodes: HashSet<i64> = HashSet::new();
    let mut way_count: usize = 0;
    let mut i: usize = 0;
    proof {
        assert(elements@.subrange(0, 0) =~= Seq::<Element>::empty());
        assert(nodes@ =~= highway_nodes(elements@.subrange(0, 0)));
    }
    while i < elements.len()
        invariant
            i <= elements.len(),
            way_count <= i,
            nodes@ == highway_nodes(elements@.subrange(0, i as int)),
            way_count == named_highway_count(elements@.subrange(0, i as int)),
        decreases elements.len() - i,
    {
        let ghost before = nodes@;
        proof {
            lemma_highway_nodes_step(elements@, i as int);
        }
        match &elements[i] {
            Element::Way(way) => {
                if add_way_nodes(&mut nodes, way) {
                    way_count += 1;
                    proof {
                        assert(node_set(way.refs@) =~= Set::new(
                            |n: i64| way_uses(elements@[i as int], n),
                        ));
                    }
                } else {
                    proof {
                        assert(before =~= before.union(
                            Set::new(|n: i64| way_uses(elements@[i as int], n)),
                        ));
                    }
                }
            },
            _ => {
                proof {
                    assert(before =~= before.union(
                        Set::new(|n: i64| way_uses(elements@[i as int], n)),
                    ));
                }
            },
        }
        i += 1;
    }
    proof {
        assert(elements@.subrange(0, elements@.len() as int) =~= elements@);
    }
    (nodes, way_count)
}

/// What one stretch of the elements gives to the second pass: the positions
/// of the nodes that are wanted, how many nodes were seen, and how many of
/// them were wanted.
#[derive(Debug)]
pub struct CoordLoad {
    pub coords: HashMap<i64, Coord>,
    pub total: u64,
    pub matched: u64,
}

/// What a load holds, as mathematical values.
pub struct CoordLoadView {
    pub coords: Map<i64, Coord>,
    pub total: nat,
    pub matched: nat,
}

impl View for CoordLoad {
    type V = CoordLoadView;

    open spec fn view(&self) -> CoordLoadView {
        CoordLoadView {
            coords: self.coords@,
            total: self.total as nat,
            matched: self.matched as nat,
        }
    }
}

/// The load that nothing gives.
pub open spec fn empty_load_view() -> CoordLoadView {
    CoordLoadView { coords: Map::empty(), total: 0, matched: 0 }
}

/// The load that one element gives: a wanted node gives its position.
pub open spec fn element_load(e: Element, wanted: Set<i64>) -> CoordLoadView {
    match e {
        Element::Node(node) => if wanted.contains(node.id) {
            CoordLoadView { coords: Map::empty().insert(node.id, node.coord), total: 1, matched: 1 }
        } else {
            CoordLoadView { coords: Map::empty(), total: 1, matched: 0 }
        },
        _ => empty_load_view(),
    }
}

/// Two loads combined: the positions of both, those of the second where
/// both have one, and the counts added up.
pub open spec fn combined(a: CoordLoadView, b: CoordLoadView) -> CoordLoadView {
    CoordLoadView {
        coords: a.coords.union_prefer_right(b.coords),
        total: a.total + b.total,
        matched: a.matched + b.matched,
    }
}

/// The load that a list of elements gives, element after element.
pub open spec fn elements_load(elements: Seq<Element>, wanted: Set<i64>) -> CoordLoadView
    decreases elements.len(),
{
    if elements.len() == 0 {
        empty_load_view()
    } else {
        combined(
            elements_load(elements.drop_last(), wanted),
            element_load(elements.last(), wanted),
        )
    }
}

/// The load of no elements.
pub fn empty_load() -> (load: CoordLoad)
    ensures
        load@ == empty_load_view(),
{
    CoordLoad { coords: HashMap::new(), total: 0, matched: 0 }
}

/// The load of one element.
pub fn load_element(element: &Element, highway_nodes: &HashSet<i64>) -> (load: CoordLoad)
    ensures
        load@ == element_load(*element, highway_nodes@),
{
    let mut coords: HashMap<i64, Coord> = HashMap::new();
    let mut total: u64 = 0;
    let mut matched: u64 = 0;
    match element {
        Element::Node(node) => {
            total = 1;
            if highway_nodes.contains(&node.id) {
                matched = 1;
                coords.insert(node.id, node.coord);
            }
        },
        _ => {},
    }
    CoordLoad { coords, total, matched }
}

/// Enters one node into a load.
pub fn add_node(load: &mut CoordLoad, node: &Node, highway_nodes: &HashSet<i64>)
    requires
        old(load).total < u64::MAX,
        old(load).matched <= old(load).total,
    ensures
        final(load)@ == combined(old(load)@, element_load(Element::Node(*node), highway_nodes@)),
        final(load).matched <= final(load).total,
{
    load.total = load.total + 1;
    if highway_nodes.contains(&node.id) {
        load.matched = load.matched + 1;
        load.coords.insert(node.id, node.coord);
        proof {
            assert(load@.coords =~= old(load)@.coords.union_prefer_right(
                Map::empty().insert(node.id, node.coord),
            ));
        }
    } else {
        proof {
            assert(load@.coords =~= old(load)@.coords.union_prefer_right(Map::empty()));
        }
    }
}

/// Whether one of the first `upto` pairs has the key.
spec fn listed(pairs: Seq<(&i64, &Coord)>, upto: int, key: i64) -> bool {
    exists|j: int| 0 <= j < upto && *(#[trigger] pairs[j]).0 == key
}

/// Combines two loads: the positions of both, those of the second where
/// both have one, and the counts added up.
pub fn merge_loads(a: CoordLoad, b: CoordLoad) -> (load: CoordLoad)
    requires
        a.total + b.total <= u64::MAX,
        a.matched + b.matched <= u64::MAX,
    ensures
        load@ == combined(a@, b@),
{
    let mut coords = a.coords;
    let ghost first = coords@;
    let ghost second = b.coords@;
    let ghost pairs = spec_hash_map_iter(&b.coords).remaining();
    let ghost mut done: int = 0;
    for pair in it: b.coords.iter()
        invariant
            second == b.coords@,
            pairs == spec_hash_map_iter(&b.coords).remaining(),
            it.seq() == pairs,
            done == it.index(),
            forall|key: i64| #[trigger]
                coords@.contains_key(key) <==> (first.contains_key(key) || listed(pairs, done, key)),
            forall|key: i64| #[trigger]
                coords@.contains_key(key) ==> coords@[key] == if listed(pairs, done, key) {
                    second[key]
                } else {
                    first[key]
                },
    {
        let (id, coord) = pair;
        assert(pair == pairs[done]);
        assert(second.contains_key(*pairs[done].0) && second[*pairs[done].0] == *pairs[done].1);
        coords.insert(*id, *coord);
        proof {
            assert forall|key: i64|
                listed(pairs, done + 1, key) <==> (listed(pairs, done, key) || key == *id) by {
                if listed(pairs, done, key) {
                    let j: int = choose|j: int| 0 <= j < done && *(#[trigger] pairs[j]).0 == key;
                    assert(*pairs[j].0 == key);
                }
                if key == *id {
                    assert(*pairs[done].0 == key);
                }
                if listed(pairs, done + 1, key) {
                    let j: int = choose|j: int|
                        0 <= j < done + 1 && *(#[trigger] pairs[j]).0 == key;
                    if j < done {
                        assert(*pairs[j].0 == key);
                    }
                }
            }
            done = done + 1;
        }
    }
    proof {
        assert(done == pairs.len());
        assert forall|key: i64| listed(pairs, done, key) <==> second.contains_key(key) by {
            if listed(pairs, done, key) {
                let j: int = choose|j: int| 0 <= j < done && *(#[trigger] pairs[j]).0 == key;
                assert(second.contains_key(*pairs[j].0));
            }
            if second.contains_key(key) {
                assert(pairs.contains((&key, &second[key])));
                let j: int = choose|j: int| 0 <= j < pairs.len() && pairs[j] == (&key, &second[key]);
                assert(*pairs[j].0 == key);
            }
        }
        assert(coords@ =~= first.union_prefer_right(second));
    }
    CoordLoad { coords, total: a.total + b.total, matched: a.matched + b.matched }
}

/// The second pass, first half: the positions of the wanted nodes among the
/// elements.
pub fn load_node_coords(elements: &Vec<Element>, highway_nodes: &HashSet<i64>) -> (load: CoordLoad)
    ensures
        load@ == elements_load(elements@, highway_nodes@),
{
    let mut load = empty_load();
    let mut i: usize = 0;
    proof {
        assert(elements@.subrange(0, 0) =~= Seq::<Element>::empty());
    }
    while i < elements.len()
        invariant
            i <= elements.len(),
            load.matched <= load.total <= i,
            load@ == elements_load(elements@.subrange(0, i as int), highway_nodes@),
        decreases elements.len() - i,
    {
        let ghost before = load@;
        proof {
            let next = elements@.subrange(0, i + 1);
            assert(next.drop_last() =~= elements@.subrange(0, i as int));
            assert(next.last() == elements@[i as int]);
        }
        match &elements[i] {
            Element::Node(node) => {
                add_node(&mut load, node, highway_nodes);
            },
            _ => {
                proof {
                    assert(before.coords =~= before.coords.union_prefer_right(Map::empty()));
                }
            },
        }
        i += 1;
    }
    proof {
        assert(elements@.subrange(0, elements@.len() as int) =~= elements@);
    }
    load
}

/// The positions of those of the nodes that have one, in the order of the
/// nodes.
pub open spec fn resolved(refs: Seq<i64>, coords: Map<i64, Coord>) -> Seq<Coord>
    decreases refs.len(),
{
    if refs.len() == 0 {
        Seq::empty()
    } else {
        let head = resolved(refs.drop_last(), coords);
        if coords.contains_key(refs.last()) {
            head.push(coords[refs.last()])
        } else {
            head
        }
    }
}

/// No more positions are resolved than there are nodes.
pub proof fn lemma_resolved_len(refs: Seq<i64>, coords: Map<i64, Coord>)
    ensures
        resolved(refs, coords).len() <= refs.len(),
    decreases refs.len(),
{
    if refs.len() > 0 {
        lemma_resolved_len(refs.drop_last(), coords);
    }
}

/// The segment that an element gives, if it gives one: a named highway with
/// at least one resolved position gives a segment with its name, its
/// classification, all its nodes, the resolved positions and all its tags.
pub open spec fn segment_view_of(e: Element, state: Seq<char>, coords: Map<i64, Coord>) -> Option<
    SegmentView,
> {
    match e {
        Element::Way(way) => if is_named_highway(way.tags@) && resolved(way.refs@, coords).len()
            > 0 {
            Some(
                SegmentView {
                    street_name: way.tags@["name"@],
                    state,
                    way_id: way.id,
                    node_ids: way.refs@,
                    coords: resolved(way.refs@, coords),
                    highway_type: way.tags@["highway"@],
                    tags: way.tags@,
                },
            )
        } else {
            None
        },
        _ => None,
    }
}

/// The segments that the elements give, in the order of the elements.
pub open spec fn extracted(elements: Seq<Element>, state: Seq<char>, coords: Map<i64, Coord>) -> Seq<
    SegmentView,
>
    decreases elements.len(),
{
    if elements.len() == 0 {
        Seq::empty()
    } else {
        let head = extracted(elements.drop_last(), state, coords);
        match segment_view_of(elements.last(), state, coords) {
            Some(segment) => head.push(segment),
            None => head,
        }
    }
}

/// The positions of those of the nodes that have one.
pub fn resolve_coords(refs: &Vec<i64>, node_coords: &HashMap<i64, Coord>) -> (coords: Vec<Coord>)
    ensures
        coords@ == resolved(refs@, node_coords@),
{
    let mut coords: Vec<Coord> = Vec::new();
    let mut j: usize = 0;
    proof {
        assert(refs@.subrange(0, 0) =~= Seq::<i64>::empty());
    }
    while j < refs.len()
        invariant
            j <= refs.len(),
            coords@ == resolved(refs@.subrange(0, j as int), node_coords@),
        decreases refs.len() - j,
    {
        proof {
            let next = refs@.subrange(0, j + 1);
            assert(next.drop_last() =~= refs@.subrange(0, j as int));
            assert(next.last() == refs@[j as int]);
        }
        match node_coords.get(&refs[j]) {
            Some(coord) => {
                coords.push(*coord);
            },
            None => {},
        }
        j += 1;
    }
    proof {
        assert(refs@.subrange(0, refs@.len() as int) =~= refs@);
    }
    coords
}

/// A copy of a list of nodes.
fn copy_refs(refs: &Vec<i64>) -> (copy: Vec<i64>)
    ensures
        copy@ == refs@,
{
    let mut copy: Vec<i64> = Vec::new();
    let mut j: usize = 0;
    while j < refs.len()
        invariant
            j <= refs.len(),
            copy@ == refs@.subrange(0, j as int),
        decreases refs.len() - j,
    {
        copy.push(refs[j]);
        proof {
            assert(copy@ =~= refs@.subrange(0, j + 1));
        }
        j += 1;
    }
    proof {
        assert(copy@ =~= refs@);
    }
    copy
}

/// The street segment of a way: there is one if the way is a named highway
/// and at least one of its nodes has a known position.
pub fn segment_of_way(way: &Way, state_name: &String, node_coords: &HashMap<i64, Coord>) -> (segment:
    Option<StreetSegment>)
    ensures
        match segment {
            Some(s) => segment_view_of(Element::Way(*way), state_name@, node_coords@) == Some(s@),
            None => segment_view_of(Element::Way(*way), state_name@, node_coords@) is None,
        },
{
    let name_key = "name".to_owned();
    let highway_key = "highway".to_owned();
    match (way.tags.get(&name_key), way.tags.get(&highway_key)) {
        (Some(name), Some(highway_type)) => {
            let coords = resolve_coords(&way.refs, node_coords);
            StreetSegment::new(
                name.clone(),
                state_name.clone(),
                way.id,
                copy_refs(&way.refs),
                coords,
                highway_type.clone(),
                way.tags.duplicate(),
            )
        },
        _ => None,
    }
}

/// The second pass, second half: the street segments of the named highways
/// among the elements, in the order of the elements. Ways without a name or
/// a classification, and ways none of whose nodes has a known position,
/// give none.
pub fn extract_segments(
    elements: &Vec<Element>,
    state_name: &String,
    node_coords: &HashMap<i64, Coord>,
) -> (segments: Vec<StreetSegment>)
    ensures
        segments.deep_view() == extracted(elements@, state_name@, node_coords@),
{
    let mut segments: Vec<StreetSegment> = Vec::new();
    let mut i: usize = 0;
    proof {
        assert(elements@.subrange(0, 0) =~= Seq::<Element>::empty());
        assert(segments.deep_view() =~= Seq::<SegmentView>::empty());
    }
    while i < elements.len()
        invariant
            i <= elements.len(),
            segments.deep_view() == extracted(
                elements@.subrange(0, i as int),
                state_name@,
                node_coords@,
            ),
        decreases elements.len() - i,
    {
        let ghost before = segments.deep_view();
        proof {
            let next = elements@.subrange(0, i + 1);
            assert(next.drop_last() =~= elements@.subrange(0, i as int));
            assert(next.last() == elements@[i as int]);
        }
        match &elements[i] {
            Element::Way(way) => {
                match segment_of_way(way, state_name, node_coords) {
                    Some(segment) => {
                        let ghost view = segment@;
                        segments.push(segment);
                        proof {
                            assert(segments.deep_view() =~= before.push(view));
                        }
                    },
                    None => {},
                }
            },
            _ => {},
        }
        i += 1;
    }
    proof {
        assert(elements@.subrange(0, elements@.len() as int) =~= elements@);
    }
    segments
}

/// The second pass: the positions of the wanted nodes are loaded, and the
/// street segments of the named highways are built from them.
pub fn extract_street_segments(
    elements: &Vec<Element>,
    state_name: &String,
    highway_nodes: &HashSet<i64>,
) -> (segments: Vec<StreetSegment>)
    ensures
        segments.deep_view() == extracted(
            elements@,
            state_name@,
            elements_load(elements@, highway_nodes@).coords,
        ),
{
    let load = load_node_coords(elements, highway_nodes);
    extract_segments(elements, state_name, &load.coords)
}

/// Whether the name and the classification of the element, if it is a
/// named highway, are not empty.
pub open spec fn has_nonempty_name_and_type(e: Element) -> bool {
    match e {
        Element::Way(way) => is_named_highway(way.tags@) ==> way.tags@["name"@].len() > 0
            && way.tags@["highway"@].len() > 0,
        _ => true,
    }
}

/// Every extracted segment has at least one position and no more positions
/// than nodes; its name and its classification are those of its tags, and
/// they are not empty unless the tags of a way hold an empty one.
pub proof fn lemma_extracted_segments(
    elements: Seq<Element>,
    state: Seq<char>,
    coords: Map<i64, Coord>,
    i: int,
)
    requires
        0 <= i < extracted(elements, state, coords).len(),
    ensures
        ({
            let segment = extracted(elements, state, coords)[i];
            &&& segment.coords.len() > 0
            &&& segment.coords.len() <= segment.node_ids.len()
            &&& segment.state == state
            &&& is_named_highway(segment.tags)
            &&& segment.street_name == segment.tags["name"@]
            &&& segment.highway_type == segment.tags["highway"@]
            &&& (forall|k: int| 0 <= k < elements.len() ==> has_nonempty_name_and_type(
                #[trigger] elements[k],
            )) ==> segment.street_name.len() > 0 && segment.highway_type.len() > 0
        }),
    decreases elements.len(),
{
    if elements.len() > 0 {
        let head = extracted(elements.drop_last(), state, coords);
        if i < head.len() {
            lemma_extracted_segments(elements.drop_last(), state, coords, i);
            assert forall|k: int| 0 <= k < elements.drop_last().len() implies elements.drop_last()[k]
                == elements[k] by {}
            if forall|k: int|
                0 <= k < elements.len() ==> has_nonempty_name_and_type(#[trigger] elements[k]) {
                assert forall|k: int|
                    0 <= k < elements.drop_last().len() implies has_nonempty_name_and_type(
                    #[trigger] elements.drop_last()[k],
                ) by {
                    assert(has_nonempty_name_and_type(elements[k]));
                }
            }
        } else {
            match elements.last() {
                Element::Way(way) => {
                    lemma_resolved_len(way.refs@, coords);
                    if forall|k: int|
                        0 <= k < elements.len() ==> has_nonempty_name_and_type(
                            #[trigger] elements[k],
                        ) {
                        assert(has_nonempty_name_and_type(elements[elements.len() - 1]));
                    }
                },
                _ => {},
            }
        }
    }
}

/// Whether the element is a node with the given identifier.
pub open spec fn is_node_with_id(e: Element, id: i64) -> bool {
    match e {
        Element::Node(node) => node.id == id,
        _ => false,
    }
}

/// A load has a position for exactly the wanted nodes among the elements,
/// and it is the position of the last node with that identifier.
pub proof fn lemma_load_has_the_wanted_nodes(elements: Seq<Element>, wanted: Set<i64>, id: i64)
    ensures
        elements_load(elements, wanted).coords.contains_key(id) <==> wanted.contains(id)
            && exists|i: int| 0 <= i < elements.len() && is_node_with_id(#[trigger] elements[i], id),
        elements_load(elements, wanted).coords.contains_key(id) ==> exists|i: int|
            0 <= i < elements.len() && is_node_with_id(#[trigger] elements[i], id)
                && elements[i]->Node_0.coord == elements_load(elements, wanted).coords[id]
                && forall|j: int|
                i < j < elements.len() ==> !is_node_with_id(#[trigger] elements[j], id),
    decreases elements.len(),
{
    if elements.len() > 0 {
        let head = elements.drop_last();
        let last = elements.len() - 1;
        lemma_load_has_the_wanted_nodes(head, wanted, id);
        assert forall|i: int| 0 <= i < head.len() implies head[i] == elements[i] by {}
        if is_node_with_id(elements[last], id) {
            assert(is_node_with_id(elements[last], id));
        } else if elements_load(head, wanted).coords.contains_key(id) {
            let i: int = choose|i: int|
                0 <= i < head.len() && is_node_with_id(#[trigger] head[i], id)
                    && head[i]->Node_0.coord == elements_load(head, wanted).coords[id]
                    && forall|j: int| i < j < head.len() ==> !is_node_with_id(#[trigger] head[j], id);
            assert(is_node_with_id(elements[i], id));
            assert forall|j: int| i < j < elements.len() implies !is_node_with_id(
                #[trigger] elements[j],
                id,
            ) by {
                if j < last {
                    assert(!is_node_with_id(head[j], id));
                }
            }
        }
        if exists|i: int| 0 <= i < elements.len() && is_node_with_id(#[trigger] elements[i], id) {
            let i: int = choose|i: int|
                0 <= i < elements.len() && is_node_with_id(#[trigger] elements[i], id);
            if i < last {
                assert(is_node_with_id(head[i], id));
            }
        }
    }
}

/// How many of the elements are nodes, and how many of those are wanted.
pub open spec fn node_counts(elements: Seq<Element>, wanted: Set<i64>) -> (nat, nat)
    decreases elements.len(),
{
    if elements.len() == 0 {
        (0, 0)
    } else {
        let head = node_counts(elements.drop_last(), wanted);
        match elements.last() {
            Element::Node(node) => if wanted.contains(node.id) {
                (head.0 + 1, head.1 + 1)
            } else {
                (head.0 + 1, head.1)
            },
            _ => head,
        }
    }
}

/// A load counts the nodes among the elements and the wanted ones among
/// them.
pub proof fn lemma_load_counts_the_nodes(elements: Seq<Element>, wanted: Set<i64>)
    ensures
        elements_load(elements, wanted).total == node_counts(elements, wanted).0,
        elements_load(elements, wanted).matched == node_counts(elements, wanted).1,
        node_counts(elements, wanted).1 <= node_counts(elements, wanted).0 <= elements.len(),
    decreases elements.len(),
{
    if elements.len() > 0 {
        lemma_load_counts_the_nodes(elements.drop_last(), wanted);
    }
}

/// Combining loads is associative: the grouping of the stretches does not
/// matter.
pub proof fn lemma_combined_associative(a: CoordLoadView, b: CoordLoadView, c: CoordLoadView)
    ensures
        combined(combined(a, b), c) == combined(a, combined(b, c)),
{
    assert(a.coords.union_prefer_right(b.coords).union_prefer_right(c.coords)
        =~= a.coords.union_prefer_right(b.coords.union_prefer_right(c.coords)));
}

/// Combining loads is commutative where no node has two different
/// positions: the order of the stretches does not matter.
pub proof fn lemma_combined_commutative(a: CoordLoadView, b: CoordLoadView)
    requires
        forall|id: i64|
            a.coords.contains_key(id) && b.coords.contains_key(id) ==> a.coords[id]
                == b.coords[id],
    ensures
        combined(a, b) == combined(b, a),
{
    assert(a.coords.union_prefer_right(b.coords) =~= b.coords.union_prefer_right(a.coords));
}

/// The empty load changes nothing.
pub proof fn lemma_combined_identity(a: CoordLoadView)
    ensures
        combined(a, empty_load_view()) == a,
        combined(empty_load_view(), a) == a,
{
    assert(a.coords.union_prefer_right(Map::empty()) =~= a.coords);
    assert(Map::<i64, Coord>::empty().union_prefer_right(a.coords) =~= a.coords);
}

} // verus!
