//! From segments to streets: the segments are split by name and region, the
//! segments of one name are grouped by shared nodes and by proximity, and
//! every group becomes one street.

use crate::connectivity::{find_connected_components, shares_node_rel};
use crate::consensus::{
    consensus_highway_type, consensus_tags, is_consensus_tags, is_consensus_type, member_tags,
    member_types, valid_members,
};
use crate::graph::{
    in_group, in_some_group, is_components, is_partition, least_first, lemma_member_push,
    lemma_rows, member, push_row, push_to_row, same_group,
};
use crate::merging::lemma_merge_partition;
use crate::segment::{node_lists, SegmentView, Street, StreetSegment, StreetView};
use crate::spatial::{
    group_nearby_components, is_proximity_merge, lemma_zero_threshold_merges_nothing, merge_by,
    near_rel,
};
use std::collections::hash_map::DefaultHasher;
use std::collections::HashMap;
use std::hash::Hasher;
use vstd::prelude::*;
use vstd::std_specs::hash::DefaultHasherAdditionalSpecFns;
use vstd::utf8::encode_utf8;

verus! {

broadcast use vstd::std_specs::hash::group_hash_axioms;

/// Whether two segments have the same name and lie in the same region.
pub open spec fn same_key(a: SegmentView, b: SegmentView) -> bool {
    a.street_name == b.street_name && a.state == b.state
}

/// Whether the street is what the group of segments comes to: the name and
/// region of its first segment, the first position of that segment, the
/// number of its segments, and the consensus of their classifications and
/// tags.
pub open spec fn street_summarizes(
    street: StreetView,
    segments: Seq<SegmentView>,
    members: Seq<usize>,
) -> bool {
    let first = segments[members[0] as int];
    &&& members.len() > 0
    &&& street.street_name == first.street_name
    &&& street.state == first.state
    &&& first.coords.len() > 0
    &&& street.lat == first.coords[0].lat
    &&& street.lon == first.coords[0].lon
    &&& street.num_segments == members.len()
    &&& is_consensus_type(member_types(segments, members), street.highway_type)
    &&& is_consensus_tags(member_tags(segments, members), street.tags)
}

/// Whether there is one street for each group, in the order of the groups.
pub open spec fn streets_summarize(
    streets: Seq<StreetView>,
    segments: Seq<SegmentView>,
    groups: Seq<Seq<usize>>,
) -> bool {
    &&& streets.len() == groups.len()
    &&& forall|g: int|
        0 <= g < groups.len() ==> street_summarizes(#[trigger] streets[g], segments, groups[g])
}

/// Whether `groups` is what the two grouping steps make of the segments:
/// the connected components by shared nodes, merged by proximity.
pub open spec fn is_name_groups(
    segments: Seq<SegmentView>,
    threshold_um: u64,
    groups: Seq<Seq<usize>>,
) -> bool {
    exists|components: Seq<Seq<usize>>| #[trigger]
        is_components(
            components,
            shares_node_rel(node_lists(segments)),
            segments.len() as int,
        ) && is_proximity_merge(groups, segments, components, threshold_um)
}

/// Whether `origin` splits the segments by name and region: one group for
/// each name and region, each in the order of the segments, the groups in
/// the order of their first segments.
pub open spec fn is_name_partition(segments: Seq<SegmentView>, origin: Seq<Seq<usize>>) -> bool {
    &&& is_partition(origin, segments.len() as int)
    &&& least_first(origin)
    &&& forall|b: int, l1: int, l2: int|
        0 <= b < origin.len() && 0 <= l1 < l2 < origin[b].len() ==> #[trigger] origin[b][l1]
            < #[trigger] origin[b][l2]
    &&& forall|a: int, c: int|
        0 <= a < segments.len() && 0 <= c < segments.len() ==> (#[trigger] same_group(
            origin,
            a,
            c,
        ) <==> same_key(segments[a], segments[c]))
}

/// The segments at the given places.
pub open spec fn sub_segments(segments: Seq<SegmentView>, places: Seq<usize>) -> Seq<SegmentView> {
    Seq::new(places.len(), |l: int| segments[places[l] as int])
}

/// A group of positions in a list of places, as the places themselves.
pub open spec fn at_places(places: Seq<usize>, group: Seq<usize>) -> Seq<usize> {
    Seq::new(group.len(), |k: int| places[group[k] as int])
}

/// Every group of positions as a group of places.
pub open spec fn groups_at_places(places: Seq<usize>, groups: Seq<Seq<usize>>) -> Seq<Seq<usize>> {
    Seq::new(groups.len(), |g: int| at_places(places, groups[g]))
}

/// The groups found within each name, as groups of places among all the
/// segments, name after name.
pub open spec fn globalize(origin: Seq<Seq<usize>>, locals: Seq<Seq<Seq<usize>>>) -> Seq<
    Seq<usize>,
>
    decreases origin.len(),
{
    if origin.len() == 0 {
        Seq::empty()
    } else {
        globalize(origin.drop_last(), locals.drop_last()) + groups_at_places(
            origin.last(),
            locals.last(),
        )
    }
}

/// Whether `groups` is the grouping of the segments into streets: the
/// segments are split by name and region, those of each name are grouped by
/// shared nodes and merged by proximity, and the groups are listed name
/// after name.
pub open spec fn is_street_grouping(
    segments: Seq<SegmentView>,
    threshold_um: u64,
    groups: Seq<Seq<usize>>,
) -> bool {
    exists|origin: Seq<Seq<usize>>, locals: Seq<Seq<Seq<usize>>>|
        #![trigger globalize(origin, locals)]
        is_name_partition(segments, origin) && locals.len() == origin.len() && (forall|b: int|
            0 <= b < origin.len() ==> is_name_groups(
                sub_segments(segments, origin[b]),
                threshold_um,
                #[trigger] locals[b],
            )) && groups == globalize(origin, locals)
}

/// One street for the members of a group.
pub fn make_street(segments: &Vec<StreetSegment>, members: &Vec<usize>) -> (street: Street)
    requires
        members.len() > 0,
        valid_members(members@, segments.len() as int),
    ensures
        street_summarizes(street@, segments.deep_view(), members@),
{
    let first: &StreetSegment = &segments[members[0]];
    let coord = first.rep_coords();
    let highway_type = consensus_highway_type(segments, members);
    let tags = consensus_tags(segments, members);
    Street {
        street_name: first.street_name().clone(),
        state: first.state().clone(),
        lat: coord.lat,
        lon: coord.lon,
        num_segments: members.len(),
        highway_type,
        tags,
    }
}

/// The streets among segments of one name, and the groups they stand for.
fn name_streets(segments: &Vec<StreetSegment>, threshold_um: u64) -> (res: (
    Vec<Street>,
    Ghost<Seq<Seq<usize>>>,
))
    ensures
        is_name_groups(segments.deep_view(), threshold_um, res.1@),
        is_partition(res.1@, segments.len() as int),
        least_first(res.1@),
        streets_summarize(res.0.deep_view(), segments.deep_view(), res.1@),
{
    let ghost segs = segments.deep_view();
    let ghost n = segments.len() as int;
    let components = find_connected_components(segments);
    let ghost comps = components.deep_view();
    proof {
        lemma_rows(&components);
        assert(comps.len() == components.len());
    }
    let final_components = if threshold_um > 0 {
        group_nearby_components(segments, components, threshold_um)
    } else {
        proof {
            lemma_zero_threshold_merges_nothing(segs, comps);
        }
        components
    };
    let ghost groups = final_components.deep_view();
    proof {
        lemma_rows(&final_components);
        let plan = choose|plan: Seq<Seq<usize>>| #[trigger]
            is_components(plan, near_rel(segs, comps, threshold_um), comps.len() as int) && groups
                == merge_by(comps, plan);
        lemma_merge_partition(comps, plan, n);
        assert(is_name_groups(segs, threshold_um, groups));
    }
    let mut streets: Vec<Street> = Vec::new();
    let mut g: usize = 0;
    while g < final_components.len()
        invariant
            segs == segments.deep_view(),
            n == segments.len(),
            groups == final_components.deep_view(),
            groups.len() == final_components.len(),
            forall|r: int| 0 <= r < groups.len() ==> #[trigger] groups[r] == final_components@[r]@,
            is_partition(groups, n),
            g <= final_components.len(),
            streets.len() == g,
            forall|r: int|
                0 <= r < g ==> street_summarizes((#[trigger] streets@[r])@, segs, groups[r]),
        decreases final_components.len() - g,
    {
        let members: &Vec<usize> = &final_components[g];
        proof {
            assert(groups[g as int].len() > 0);
            assert forall|k: int| 0 <= k < members@.len() implies (#[trigger] members@[k]) < n by {
                assert(groups[g as int][k] < n);
            }
        }
        let street = make_street(segments, members);
        streets.push(street);
        g += 1;
    }
    proof {
        let views = streets.deep_view();
        assert forall|r: int| 0 <= r < groups.len() implies street_summarizes(
            #[trigger] views[r],
            segs,
            groups[r],
        ) by {
            assert(views[r] == streets@[r]@);
        }
    }
    (streets, Ghost(groups))
}

/// The streets among segments that all have one name: the segments are
/// grouped by shared nodes, the groups are merged by proximity where the
/// threshold is above zero, and each group becomes one street.
pub fn streets_of_name(segments: &Vec<StreetSegment>, threshold_um: u64) -> (streets: Vec<Street>)
    ensures
        exists|groups: Seq<Seq<usize>>| #[trigger]
            is_name_groups(segments.deep_view(), threshold_um, groups) && streets_summarize(
                streets.deep_view(),
                segments.deep_view(),
                groups,
            ),
{
    let (streets, Ghost(groups)) = name_streets(segments, threshold_um);
    proof {
        assert(is_name_groups(segments.deep_view(), threshold_um, groups));
    }
    streets
}

/// What holds of the split by name when the first `i` segments have been
/// placed.
spec fn split_inv(segments: Seq<SegmentView>, origin: Seq<Seq<usize>>, i: int) -> bool {
    &&& forall|b: int| 0 <= b < origin.len() ==> (#[trigger] origin[b]).len() > 0
    &&& forall|b: int, l: int|
        0 <= b < origin.len() && 0 <= l < origin[b].len() ==> (#[trigger] origin[b][l]) < i
            && same_key(segments[origin[b][l] as int], segments[origin[b][0] as int])
    &&& forall|b: int, l1: int, l2: int|
        0 <= b < origin.len() && 0 <= l1 < l2 < origin[b].len() ==> #[trigger] origin[b][l1]
            < #[trigger] origin[b][l2]
    &&& forall|b1: int, b2: int|
        0 <= b1 < origin.len() && 0 <= b2 < origin.len() && b1 != b2 ==> !same_key(
            segments[(#[trigger] origin[b1])[0] as int],
            segments[(#[trigger] origin[b2])[0] as int],
        )
    &&& forall|b1: int, b2: int|
        0 <= b1 < b2 < origin.len() ==> (#[trigger] origin[b1])[0] < (#[trigger] origin[b2])[0]
    &&& forall|v: int| 0 <= v < i ==> #[trigger] in_some_group(origin, v)
}

/// The hash under which the name and region of a segment are looked up.
spec fn key_hash(segment: SegmentView) -> u64 {
    DefaultHasher::spec_finish(
        seq![encode_utf8(segment.street_name), encode_utf8(segment.state)],
    )
}

/// Hashes the name and region of a segment.
fn hash_key(segment: &StreetSegment) -> (h: u64)
    ensures
        h == key_hash(segment@),
{
    let mut hasher = DefaultHasher::new();
    hasher.write(segment.street_name().as_str().as_bytes());
    hasher.write(segment.state().as_str().as_bytes());
    proof {
        assert(hasher@ =~= seq![
            encode_utf8(segment@.street_name),
            encode_utf8(segment@.state),
        ]);
    }
    hasher.finish()
}

/// Whether the group of a name can be found under the hash of the name.
spec fn is_indexed(
    segments: Seq<SegmentView>,
    origin: Seq<Seq<usize>>,
    slots: Map<u64, usize>,
    chains: Seq<Seq<usize>>,
    b: int,
) -> bool {
    let h = key_hash(segments[origin[b][0] as int]);
    slots.contains_key(h) && member(chains[slots[h] as int], b)
}

/// What holds of the index from hashes to the groups of the names with that
/// hash.
spec fn lookup_inv(
    segments: Seq<SegmentView>,
    origin: Seq<Seq<usize>>,
    slots: Map<u64, usize>,
    chains: Seq<Seq<usize>>,
) -> bool {
    &&& forall|h: u64| #[trigger] slots.contains_key(h) ==> slots[h] < chains.len()
    &&& forall|c: int, j: int|
        0 <= c < chains.len() && 0 <= j < chains[c].len() ==> (#[trigger] chains[c][j])
            < origin.len()
    &&& forall|b: int|
        0 <= b < origin.len() ==> #[trigger] is_indexed(segments, origin, slots, chains, b)
}

/// The group of the name and region of segment `i`, if there is one yet.
fn find_bucket(
    segments: &Vec<StreetSegment>,
    buckets: &Vec<Vec<usize>>,
    slots: &HashMap<u64, usize>,
    chains: &Vec<Vec<usize>>,
    i: usize,
    h: u64,
) -> (found: Option<usize>)
    requires
        i < segments.len(),
        h == key_hash(segments.deep_view()[i as int]),
        split_inv(segments.deep_view(), buckets.deep_view(), i as int),
        lookup_inv(segments.deep_view(), buckets.deep_view(), slots@, chains.deep_view()),
    ensures
        match found {
            Some(at) => at < buckets.len() && same_key(
                segments.deep_view()[i as int],
                segments.deep_view()[buckets.deep_view()[at as int][0] as int],
            ),
            None => forall|r: int|
                0 <= r < buckets.deep_view().len() ==> !same_key(
                    segments.deep_view()[i as int],
                    segments.deep_view()[(#[trigger] buckets.deep_view()[r])[0] as int],
                ),
        },
{
    let ghost segs = segments.deep_view();
    let ghost origin = buckets.deep_view();
    let ghost links = chains.deep_view();
    let segment: &StreetSegment = &segments[i];
    proof {
        lemma_rows(buckets);
        lemma_rows(chains);
    }
    match slots.get(&h) {
        None => {
            proof {
                assert forall|r: int| 0 <= r < origin.len() implies !same_key(
                    segs[i as int],
                    segs[(#[trigger] origin[r])[0] as int],
                ) by {
                    assert(is_indexed(segs, origin, slots@, links, r));
                }
            }
            None
        },
        Some(c) => {
            let chain: &Vec<usize> = &chains[*c];
            let mut j: usize = 0;
            proof {
                assert forall|k: int| 0 <= k < chain.len() implies (#[trigger] chain@[k])
                    < origin.len() by {
                    assert(links[*c as int][k] < origin.len());
                }
            }
            while j < chain.len()
                invariant
                    segs == segments.deep_view(),
                    origin == buckets.deep_view(),
                    origin.len() == buckets.len(),
                    forall|r: int| 0 <= r < buckets.len() ==> #[trigger] origin[r] == buckets@[r]@,
                    i < segments.len(),
                    segment == segments@[i as int],
                    split_inv(segs, origin, i as int),
                    forall|k: int| 0 <= k < chain.len() ==> (#[trigger] chain@[k]) < origin.len(),
                    j <= chain.len(),
                    forall|k: int|
                        0 <= k < j ==> !same_key(
                            segs[i as int],
                            segs[origin[(#[trigger] chain@[k]) as int][0] as int],
                        ),
                decreases chain.len() - j,
            {
                let b: usize = chain[j];
                assert(origin[b as int].len() > 0);
                assert(origin[b as int][0] < i);
                let first: &StreetSegment = &segments[buckets[b][0]];
                if *first.street_name() == *segment.street_name() && *first.state()
                    == *segment.state() {
                    return Some(b);
                }
                j += 1;
            }
            proof {
                assert forall|r: int| 0 <= r < origin.len() implies !same_key(
                    segs[i as int],
                    segs[(#[trigger] origin[r])[0] as int],
                ) by {
                    assert(is_indexed(segs, origin, slots@, links, r));
                    if same_key(segs[i as int], segs[origin[r][0] as int]) {
                        let k: int = choose|k: int| 0 <= k < chain@.len() && #[trigger] chain@[k] == r;
                        assert(!same_key(segs[i as int], segs[origin[chain@[k] as int][0] as int]));
                    }
                }
            }
            None
        },
    }
}

/// Splits the segments by name and region.
pub fn partition_by_name(segments: &Vec<StreetSegment>) -> (buckets: Vec<Vec<usize>>)
    ensures
        is_name_partition(segments.deep_view(), buckets.deep_view()),
{
    let ghost segs = segments.deep_view();
    let n: usize = segments.len();
    let mut buckets: Vec<Vec<usize>> = Vec::new();
    let mut slots: HashMap<u64, usize> = HashMap::new();
    let mut chains: Vec<Vec<usize>> = Vec::new();
    let mut i: usize = 0;
    proof {
        lemma_rows(&buckets);
        lemma_rows(&chains);
        assert forall|v: int| !in_some_group(buckets.deep_view(), v) by {}
    }
    while i < n
        invariant
            segs == segments.deep_view(),
            n == segments.len(),
            i <= n,
            buckets.deep_view().len() == buckets.len(),
            chains.deep_view().len() == chains.len(),
            split_inv(segs, buckets.deep_view(), i as int),
            lookup_inv(segs, buckets.deep_view(), slots@, chains.deep_view()),
        decreases n - i,
    {
        let ghost origin = buckets.deep_view();
        let ghost links = chains.deep_view();
        let ghost table = slots@;
        let segment: &StreetSegment = &segments[i];
        let h: u64 = hash_key(segment);
        let found = find_bucket(segments, &buckets, &slots, &chains, i, h);
        proof {
            lemma_rows(&buckets);
            lemma_rows(&chains);
        }
        match found {
            Some(at) => {
                push_to_row(&mut buckets, at, i);
                proof {
                    let now = buckets.deep_view();
                    assert forall|c: int, v: int| 0 <= c < origin.len() implies (member(now[c], v)
                        <==> member(origin[c], v) || (c == at && v == i)) by {
                        if c == at {
                            lemma_member_push(origin[c], i, v);
                        }
                    }
                    assert forall|r: int| 0 <= r < now.len() implies (#[trigger] now[r]).len() > 0
                        && now[r][0] == origin[r][0] by {
                        assert(origin[r].len() > 0);
                    }
                    assert forall|r: int, l: int|
                        0 <= r < now.len() && 0 <= l < now[r].len() implies (#[trigger] now[r][l])
                        < i + 1 && same_key(segs[now[r][l] as int], segs[now[r][0] as int]) by {
                        if r == at && l == origin[r].len() {
                        } else {
                            assert(now[r][l] == origin[r][l]);
                        }
                    }
                    assert forall|r: int, l1: int, l2: int|
                        0 <= r < now.len() && 0 <= l1 < l2 < now[r].len() implies #[trigger] now[r][l1]
                        < #[trigger] now[r][l2] by {
                        assert(now[r][l1] == origin[r][l1]);
                        if r == at && l2 == origin[r].len() {
                            assert(origin[r][l1] < i);
                        } else {
                            assert(now[r][l2] == origin[r][l2]);
                        }
                    }
                    assert forall|v: int| 0 <= v < i + 1 implies #[trigger] in_some_group(
                        now,
                        v,
                    ) by {
                        if v == i {
                            assert(in_group(now, at as int, v));
                        } else {
                            assert(in_some_group(origin, v));
                            let c: int = choose|c: int| in_group(origin, c, v);
                            assert(in_group(now, c, v));
                        }
                    }
                    assert(split_inv(segs, now, i + 1));
                    assert forall|r: int| 0 <= r < now.len() implies #[trigger] is_indexed(
                        segs,
                        now,
                        table,
                        links,
                        r,
                    ) by {
                        assert(is_indexed(segs, origin, table, links, r));
                    }
                }
            },
            None => {
                let fresh: usize = buckets.len();
                let mut bucket: Vec<usize> = Vec::new();
                bucket.push(i);
                push_row(&mut buckets, bucket);
                match slots.get(&h) {
                    Some(c) => {
                        let c: usize = *c;
                        push_to_row(&mut chains, c, fresh);
                    },
                    None => {
                        slots.insert(h, chains.len());
                        let mut chain: Vec<usize> = Vec::new();
                        chain.push(fresh);
                        push_row(&mut chains, chain);
                    },
                }
                proof {
                    let now = buckets.deep_view();
                    let links2 = chains.deep_view();
                    let table2 = slots@;
                    assert(now[fresh as int][0] == i);
                    assert forall|c: int, v: int| 0 <= c < links.len() && member(
                        links[c],
                        v,
                    ) implies member(links2[c], v) by {
                        if table.contains_key(h) && c == table[h] {
                            lemma_member_push(links[c], fresh, v);
                        }
                    }
                    assert(table2.contains_key(h) && member(
                        links2[table2[h] as int],
                        fresh as int,
                    )) by {
                        if table.contains_key(h) {
                            lemma_member_push(links[table[h] as int], fresh, fresh as int);
                        } else {
                            assert(links2[links.len() as int][0] == fresh);
                        }
                    }
                    assert forall|r: int| 0 <= r < now.len() implies #[trigger] is_indexed(
                        segs,
                        now,
                        table2,
                        links2,
                        r,
                    ) by {
                        if r < fresh {
                            assert(now[r] == origin[r]);
                            assert(is_indexed(segs, origin, table, links, r));
                        }
                    }
                    assert forall|c: int, j: int|
                        0 <= c < links2.len() && 0 <= j < links2[c].len() implies (
                    #[trigger] links2[c][j]) < now.len() by {
                        if c < links.len() {
                            if j < links[c].len() {
                                assert(links2[c][j] == links[c][j]);
                            }
                        }
                    }
                    assert(lookup_inv(segs, now, table2, links2));
                }
                proof {
                    let now = buckets.deep_view();
                    let last = origin.len() as int;
                    assert(now[last][0] == i);
                    assert(member(now[last], i as int));
                    assert forall|r: int| 0 <= r < now.len() implies (#[trigger] now[r]).len()
                        > 0 by {
                        if r < last {
                            assert(now[r] == origin[r]);
                        }
                    }
                    assert forall|r: int, l: int|
                        0 <= r < now.len() && 0 <= l < now[r].len() implies (#[trigger] now[r][l])
                        < i + 1 && same_key(segs[now[r][l] as int], segs[now[r][0] as int]) by {
                        if r < last {
                            assert(now[r] == origin[r]);
                            assert(origin[r][l] < i);
                        }
                    }
                    assert forall|r: int, l1: int, l2: int|
                        0 <= r < now.len() && 0 <= l1 < l2 < now[r].len() implies #[trigger] now[r][l1]
                        < #[trigger] now[r][l2] by {
                        if r < last {
                            assert(now[r] == origin[r]);
                        }
                    }
                    assert forall|b1: int, b2: int|
                        0 <= b1 < now.len() && 0 <= b2 < now.len() && b1 != b2 implies !same_key(
                        segs[(#[trigger] now[b1])[0] as int],
                        segs[(#[trigger] now[b2])[0] as int],
                    ) by {
                        if b1 < last {
                            assert(now[b1] == origin[b1]);
                        }
                        if b2 < last {
                            assert(now[b2] == origin[b2]);
                        }
                    }
                    assert forall|b1: int, b2: int| 0 <= b1 < b2 < now.len() implies (
                    #[trigger] now[b1])[0] < (#[trigger] now[b2])[0] by {
                        assert(now[b1] == origin[b1]);
                        assert(origin[b1][0] < i);
                        if b2 < last {
                            assert(now[b2] == origin[b2]);
                        }
                    }
                    assert forall|v: int| 0 <= v < i + 1 implies #[trigger] in_some_group(
                        now,
                        v,
                    ) by {
                        if v == i {
                            assert(in_group(now, last, v));
                        } else {
                            assert(in_some_group(origin, v));
                            let c: int = choose|c: int| in_group(origin, c, v);
                            assert(now[c] == origin[c]);
                            assert(in_group(now, c, v));
                        }
                    }
                    assert(split_inv(segs, now, i + 1));
                }
            },
        }
        i += 1;
    }
    proof {
        lemma_split_is_partition(segs, buckets.deep_view());
    }
    buckets
}

/// When all segments have been placed, the split is by name and region.
proof fn lemma_split_is_partition(segments: Seq<SegmentView>, origin: Seq<Seq<usize>>)
    requires
        split_inv(segments, origin, segments.len() as int),
    ensures
        is_name_partition(segments, origin),
{
    let n = segments.len() as int;
    assert forall|c: int, v: int| in_group(origin, c, v) implies 0 <= v < n && same_key(
        segments[v],
        segments[origin[c][0] as int],
    ) by {
        let k: int = choose|k: int| 0 <= k < origin[c].len() && #[trigger] origin[c][k] == v;
        assert(origin[c][k] < n);
    }
    assert forall|c: int| 0 <= c < origin.len() implies (#[trigger] origin[c]).no_duplicates() by {
        assert forall|i: int, j: int|
            0 <= i < origin[c].len() && 0 <= j < origin[c].len() && i != j implies origin[c][i]
            != origin[c][j] by {
            if i < j {
                assert(origin[c][i] < origin[c][j]);
            } else {
                assert(origin[c][j] < origin[c][i]);
            }
        }
    }
    assert forall|c1: int, c2: int, v: int| #[trigger]
        in_group(origin, c1, v) && #[trigger] in_group(origin, c2, v) implies c1 == c2 by {
        if c1 != c2 {
            assert(!same_key(segments[origin[c1][0] as int], segments[origin[c2][0] as int]));
        }
    }
    assert(is_partition(origin, n));
    assert forall|c: int, k: int| 0 <= c < origin.len() && 0 <= k < origin[c].len() implies origin[c][0]
        <= #[trigger] origin[c][k] by {
        if 0 < k {
            assert(origin[c][0] < origin[c][k]);
        }
    }
    assert forall|a: int, c: int| 0 <= a < n && 0 <= c < n implies (#[trigger] same_group(
        origin,
        a,
        c,
    ) <==> same_key(segments[a], segments[c])) by {
        if same_group(origin, a, c) {
            let b: int = choose|b: int| in_group(origin, b, a) && in_group(origin, b, c);
        }
        if same_key(segments[a], segments[c]) {
            assert(in_some_group(origin, a));
            assert(in_some_group(origin, c));
            let b1: int = choose|b: int| in_group(origin, b, a);
            let b2: int = choose|b: int| in_group(origin, b, c);
            if b1 != b2 {
                assert(!same_key(segments[origin[b1][0] as int], segments[origin[b2][0] as int]));
            }
            assert(in_group(origin, b1, a) && in_group(origin, b1, c));
        }
    }
}

/// Copies of the segments at the given places, in the order of the places.
pub fn segments_at(segments: &Vec<StreetSegment>, places: &Vec<usize>) -> (chosen: Vec<StreetSegment>)
    requires
        valid_members(places@, segments.len() as int),
    ensures
        chosen.deep_view() == sub_segments(segments.deep_view(), places@),
{
    let mut chosen: Vec<StreetSegment> = Vec::new();
    let mut l: usize = 0;
    while l < places.len()
        invariant
            valid_members(places@, segments.len() as int),
            l <= places.len(),
            chosen.len() == l,
            forall|k: int| 0 <= k < l ==> (#[trigger] chosen@[k])@ == segments@[places@[k] as int]@,
        decreases places.len() - l,
    {
        chosen.push(segments[places[l]].duplicate());
        l += 1;
    }
    proof {
        assert(chosen.deep_view() =~= sub_segments(segments.deep_view(), places@));
    }
    chosen
}

/// A street that stands for a group of positions stands for the group of
/// the places at those positions.
proof fn lemma_summary_at_places(
    street: StreetView,
    segments: Seq<SegmentView>,
    places: Seq<usize>,
    group: Seq<usize>,
)
    requires
        street_summarizes(street, sub_segments(segments, places), group),
        valid_members(group, places.len() as int),
    ensures
        street_summarizes(street, segments, at_places(places, group)),
{
    let sub = sub_segments(segments, places);
    let moved = at_places(places, group);
    assert(group[0] < places.len());
    assert(sub[group[0] as int] == segments[moved[0] as int]);
    assert(member_types(sub, group) =~= member_types(segments, moved)) by {
        assert forall|k: int| 0 <= k < group.len() implies member_types(sub, group)[k]
            == member_types(segments, moved)[k] by {
            assert(group[k] < places.len());
        }
    }
    assert(member_tags(sub, group) =~= member_tags(segments, moved)) by {
        assert forall|k: int| 0 <= k < group.len() implies member_tags(sub, group)[k]
            == member_tags(segments, moved)[k] by {
            assert(group[k] < places.len());
        }
    }
}

/// Groups the segments into streets. Segments of different names or regions
/// are never grouped; those of one name and region are grouped by the nodes
/// they share and, where the threshold in micrometres is above zero, by
/// proximity. There is one street for each group.
pub fn group_segments_into_streets(segments: Vec<StreetSegment>, threshold_um: u64) -> (streets:
    Vec<Street>)
    ensures
        exists|groups: Seq<Seq<usize>>| #[trigger]
            is_street_grouping(segments.deep_view(), threshold_um, groups) && streets_summarize(
                streets.deep_view(),
                segments.deep_view(),
                groups,
            ),
{
    let ghost segs = segments.deep_view();
    let ghost n = segments.len() as int;
    let buckets = partition_by_name(&segments);
    let ghost origin = buckets.deep_view();
    let ghost mut locals: Seq<Seq<Seq<usize>>> = Seq::empty();
    let ghost mut groups: Seq<Seq<usize>> = Seq::empty();
    let mut streets: Vec<Street> = Vec::new();
    let mut b: usize = 0;
    proof {
        lemma_rows(&buckets);
        assert(origin.subrange(0, 0) =~= Seq::<Seq<usize>>::empty());
    }
    while b < buckets.len()
        invariant
            segs == segments.deep_view(),
            n == segments.len(),
            origin == buckets.deep_view(),
            origin.len() == buckets.len(),
            forall|r: int| 0 <= r < buckets.len() ==> #[trigger] origin[r] == buckets@[r]@,
            is_name_partition(segs, origin),
            b <= buckets.len(),
            locals.len() == b,
            forall|r: int|
                0 <= r < b ==> is_name_groups(
                    sub_segments(segs, origin[r]),
                    threshold_um,
                    #[trigger] locals[r],
                ),
            groups == globalize(origin.subrange(0, b as int), locals),
            streets.len() == groups.len(),
            forall|g: int|
                0 <= g < groups.len() ==> street_summarizes(
                    (#[trigger] streets@[g])@,
                    segs,
                    groups[g],
                ),
        decreases buckets.len() - b,
    {
        let places: &Vec<usize> = &buckets[b];
        proof {
            assert forall|k: int| 0 <= k < places@.len() implies (#[trigger] places@[k]) < n by {
                assert(origin[b as int][k] < n);
            }
        }
        let name_segments = segments_at(&segments, places);
        let (mut found, Ghost(local)) = name_streets(&name_segments, threshold_um);
        let ghost sub = sub_segments(segs, places@);
        let ghost before = streets@;
        let ghost groups0 = groups;
        let ghost locals0 = locals;
        let ghost added = found@;
        let ghost added_views = found.deep_view();
        streets.append(&mut found);
        proof {
            locals = locals.push(local);
            let moved = groups_at_places(places@, local);
            groups = groups + moved;
            let head = origin.subrange(0, b + 1);
            assert(head.drop_last() =~= origin.subrange(0, b as int));
            assert(head.last() == origin[b as int]);
            assert(locals.drop_last() =~= locals0);
            assert(locals.last() == local);
            assert forall|r: int| 0 <= r < b + 1 implies is_name_groups(
                sub_segments(segs, origin[r]),
                threshold_um,
                #[trigger] locals[r],
            ) by {
                if r < b {
                    assert(locals[r] == locals0[r]);
                }
            }
            assert forall|g: int| 0 <= g < groups.len() implies street_summarizes(
                (#[trigger] streets@[g])@,
                segs,
                groups[g],
            ) by {
                if g < groups0.len() {
                    assert(streets@[g] == before[g]);
                    assert(groups[g] == groups0[g]);
                } else {
                    let r: int = g - groups0.len();
                    assert(streets@[g] == added[r]);
                    assert(groups[g] == moved[r]);
                    assert(added_views[r] == added[r]@);
                    assert(name_segments.deep_view() == sub);
                    assert(valid_members(local[r], places@.len() as int)) by {
                        assert forall|k: int| 0 <= k < local[r].len() implies (
                        #[trigger] local[r][k]) < places@.len() by {}
                    }
                    lemma_summary_at_places(added[r]@, segs, places@, local[r]);
                }
            }
        }
        b += 1;
    }
    proof {
        assert(origin.subrange(0, origin.len() as int) =~= origin);
        let views = streets.deep_view();
        assert forall|g: int| 0 <= g < groups.len() implies street_summarizes(
            #[trigger] views[g],
            segs,
            groups[g],
        ) by {
            assert(views[g] == streets@[g]@);
        }
        assert(groups == globalize(origin, locals));
        assert(is_street_grouping(segs, threshold_um, groups));
    }
    streets
}

/// The streets as a table: one column for each attribute, one row for each
/// street.
#[derive(Debug)]
pub struct StreetTable {
    pub street_name: Vec<String>,
    pub state: Vec<String>,
    pub lat: Vec<i64>,
    pub lon: Vec<i64>,
    pub num_segments: Vec<u32>,
    pub highway_type: Vec<String>,
}

/// Whether row `i` of the table holds the attributes of the street: its
/// name, its region, its position, the number of its segments in 32 bits,
/// and its classification.
pub open spec fn is_row_of(table: StreetTable, i: int, street: StreetView) -> bool {
    &&& table.street_name@[i]@ == street.street_name
    &&& table.state@[i]@ == street.state
    &&& table.lat@[i] == street.lat
    &&& table.lon@[i] == street.lon
    &&& table.num_segments@[i] == street.num_segments as u32
    &&& table.highway_type@[i]@ == street.highway_type
}

/// Lays the streets out as a table, row after row in their order.
pub fn street_table(streets: &Vec<Street>) -> (table: StreetTable)
    ensures
        table.street_name@.len() == streets.len(),
        table.state@.len() == streets.len(),
        table.lat@.len() == streets.len(),
        table.lon@.len() == streets.len(),
        table.num_segments@.len() == streets.len(),
        table.highway_type@.len() == streets.len(),
        forall|i: int| 0 <= i < streets.len() ==> is_row_of(table, i, (#[trigger] streets@[i])@),
{
    let mut table = StreetTable {
        street_name: Vec::new(),
        state: Vec::new(),
        lat: Vec::new(),
        lon: Vec::new(),
        num_segments: Vec::new(),
        highway_type: Vec::new(),
    };
    let mut i: usize = 0;
    while i < streets.len()
        invariant
            i <= streets.len(),
            table.street_name@.len() == i,
            table.state@.len() == i,
            table.lat@.len() == i,
            table.lon@.len() == i,
            table.num_segments@.len() == i,
            table.highway_type@.len() == i,
            forall|r: int| 0 <= r < i ==> is_row_of(table, r, (#[trigger] streets@[r])@),
        decreases streets.len() - i,
    {
        let street: &Street = &streets[i];
        table.street_name.push(street.street_name.clone());
        table.state.push(street.state.clone());
        table.lat.push(street.lat);
        table.lon.push(street.lon);
        table.num_segments.push(#[verifier::truncate] (street.num_segments as u32));
        table.highway_type.push(street.highway_type.clone());
        i += 1;
    }
    table
}

} // verus!
