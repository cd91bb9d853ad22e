//! What the grouping of segments into streets comes to: two segments belong
//! to the same street exactly when they have the same name and region and a
//! chain of such segments leads from one to the other in which each shares
//! a node with the next or lies close to it.

use crate::connectivity::{shares_node, shares_node_rel};
use crate::graph::{
    in_group, in_some_group, is_components, is_partition, least_first, lemma_reachable_closed,
    lemma_reachable_lift, lemma_reachable_one, lemma_reachable_refl, lemma_reachable_step,
    lemma_reachable_trans, reachable, same_group,
};
use crate::merging::{group_of, lemma_group_of, lemma_merge_partition};
use crate::segment::{node_lists, SegmentView};
use crate::spatial::{
    components_near, is_proximity_merge, lemma_nothing_is_near_at_zero, merge_by, near_rel,
    segments_close,
};
use crate::streets::{is_name_groups, same_key};
use vstd::prelude::*;

verus! {

/// The relation between the places of two segments that share a node or lie
/// closer to one another than the threshold.
pub open spec fn joined_rel(segments: Seq<SegmentView>, threshold_um: u64) -> spec_fn(
    int,
    int,
) -> bool {
    |x: int, y: int|
        0 <= x < segments.len() && 0 <= y < segments.len() && (shares_node(
            segments[x].node_ids,
            segments[y].node_ids,
        ) || segments_close(segments[x].coords, segments[y].coords, threshold_um))
}

/// The relation between the places of two segments of the same name and
/// region that share a node or lie closer to one another than the
/// threshold.
pub open spec fn link_rel(segments: Seq<SegmentView>, threshold_um: u64) -> spec_fn(
    int,
    int,
) -> bool {
    |x: int, y: int|
        0 <= x < segments.len() && 0 <= y < segments.len() && same_key(segments[x], segments[y])
            && (shares_node(segments[x].node_ids, segments[y].node_ids) || segments_close(
            segments[x].coords,
            segments[y].coords,
            threshold_um,
        ))
}

/// In a partition every vertex is grouped with itself.
pub proof fn lemma_same_group_refl(groups: Seq<Seq<usize>>, n: int, a: int)
    requires
        is_partition(groups, n),
        0 <= a < n,
    ensures
        same_group(groups, a, a),
{
    assert(in_some_group(groups, a));
    let c: int = choose|c: int| in_group(groups, c, a);
    assert(in_group(groups, c, a) && in_group(groups, c, a));
}

/// In a partition being grouped together is transitive.
pub proof fn lemma_same_group_trans(groups: Seq<Seq<usize>>, n: int, a: int, b: int, c: int)
    requires
        is_partition(groups, n),
        same_group(groups, a, b),
        same_group(groups, b, c),
    ensures
        same_group(groups, a, c),
{
    let g1: int = choose|g: int| in_group(groups, g, a) && in_group(groups, g, b);
    let g2: int = choose|g: int| in_group(groups, g, b) && in_group(groups, g, c);
    assert(g1 == g2);
    assert(in_group(groups, g1, a) && in_group(groups, g1, c));
}

/// Two vertices are grouped together exactly when they have the same group.
pub proof fn lemma_same_group_of(groups: Seq<Seq<usize>>, n: int, a: int, b: int)
    requires
        is_partition(groups, n),
        0 <= a < n,
        0 <= b < n,
    ensures
        in_group(groups, group_of(groups, a), a),
        in_group(groups, group_of(groups, b), b),
        same_group(groups, a, b) <==> group_of(groups, a) == group_of(groups, b),
{
    assert(in_some_group(groups, a));
    assert(in_some_group(groups, b));
    let ca = group_of(groups, a);
    let cb = group_of(groups, b);
    if same_group(groups, a, b) {
        let g: int = choose|g: int| in_group(groups, g, a) && in_group(groups, g, b);
        lemma_group_of(groups, n, g, a);
        lemma_group_of(groups, n, g, b);
    }
    if ca == cb {
        assert(in_group(groups, ca, a) && in_group(groups, ca, b));
    }
}

/// What the two grouping steps come to for the segments of one list, given
/// the components and the plan of the merge.
proof fn lemma_joined_groups(
    segments: Seq<SegmentView>,
    threshold_um: u64,
    components: Seq<Seq<usize>>,
    plan: Seq<Seq<usize>>,
    x: int,
    y: int,
)
    requires
        is_components(
            components,
            shares_node_rel(node_lists(segments)),
            segments.len() as int,
        ),
        is_components(
            plan,
            near_rel(segments, components, threshold_um),
            components.len() as int,
        ),
        0 <= x < segments.len(),
        0 <= y < segments.len(),
    ensures
        same_group(merge_by(components, plan), x, y) <==> reachable(
            joined_rel(segments, threshold_um),
            segments.len() as int,
            x,
            y,
        ),
{
    let n = segments.len() as int;
    let m = components.len() as int;
    let lists = node_lists(segments);
    let shares = shares_node_rel(lists);
    let near = near_rel(segments, components, threshold_um);
    let joined = joined_rel(segments, threshold_um);
    let merged = merge_by(components, plan);
    lemma_merge_partition(components, plan, n);
    // every step by a shared node is a joined step
    assert forall|a: int, b: int| 0 <= a < n && 0 <= b < n && #[trigger] shares(a, b) implies reachable(
        joined,
        n,
        a,
        b,
    ) by {
        assert(lists[a] == segments[a].node_ids && lists[b] == segments[b].node_ids);
        assert(joined(a, b));
        lemma_reachable_one(joined, n, a, b);
    }
    // a joined step stays within a merged group
    assert forall|v: int, w: int| 0 <= v < n && 0 <= w < n && #[trigger] joined(v, w) implies same_group(
        merged,
        v,
        w,
    ) by {
        lemma_same_group_of(components, n, v, w);
        let cv = group_of(components, v);
        let cw = group_of(components, w);
        lemma_same_group_refl(plan, m, cv);
        if shares_node(segments[v].node_ids, segments[w].node_ids) {
            assert(lists[v] == segments[v].node_ids && lists[w] == segments[w].node_ids);
            assert(shares(v, w));
            lemma_reachable_one(shares, n, v, w);
            assert(same_group(components, v, w));
        } else if cv != cw {
            let i: int = choose|i: int|
                0 <= i < components[cv].len() && #[trigger] components[cv][i] == v;
            let j: int = choose|j: int|
                0 <= j < components[cw].len() && #[trigger] components[cw][j] == w;
            assert(segments_close(
                segments[components[cv][i] as int].coords,
                segments[components[cw][j] as int].coords,
                threshold_um,
            ));
            assert(components_near(segments, components[cv], components[cw], threshold_um));
            assert(near(cv, cw));
            lemma_reachable_one(near, m, cv, cw);
            assert(same_group(plan, cv, cw));
        }
    }
    if reachable(joined, n, x, y) {
        let s = Set::new(|v: int| 0 <= v < n && same_group(merged, x, v));
        lemma_same_group_refl(merged, n, x);
        assert forall|v: int, w: int|
            0 <= v < n && 0 <= w < n && s.contains(v) && #[trigger] joined(v, w) implies s.contains(
            w,
        ) by {
            lemma_same_group_trans(merged, n, x, v, w);
        }
        lemma_reachable_closed(joined, n, s, x, y);
    }
    if same_group(merged, x, y) {
        lemma_same_group_of(components, n, x, y);
        let cx = group_of(components, x);
        let cy = group_of(components, y);
        assert(same_group(plan, cx, cy));
        assert(reachable(near, m, cx, cy));
        let s = Set::new(
            |c: int|
                0 <= c < m && forall|v: int| #[trigger]
                    in_group(components, c, v) ==> reachable(joined, n, x, v),
        );
        assert(s.contains(cx)) by {
            assert forall|v: int| #[trigger] in_group(components, cx, v) implies reachable(
                joined,
                n,
                x,
                v,
            ) by {
                lemma_group_of(components, n, cx, v);
                assert(in_group(components, cx, x) && in_group(components, cx, v));
                assert(same_group(components, x, v));
                lemma_reachable_lift(shares, joined, n, x, v);
            }
        }
        assert forall|c: int, d: int|
            0 <= c < m && 0 <= d < m && s.contains(c) && #[trigger] near(c, d) implies s.contains(
            d,
        ) by {
            let c1 = components[c];
            let c2 = components[d];
            let (i, j): (int, int) = choose|i: int, j: int|
                #![trigger c1[i], c2[j]]
                0 <= i < c1.len() && 0 <= j < c2.len() && segments_close(
                    segments[c1[i] as int].coords,
                    segments[c2[j] as int].coords,
                    threshold_um,
                );
            let u: int = c1[i] as int;
            let w: int = c2[j] as int;
            assert(in_group(components, c, u));
            assert(in_group(components, d, w));
            lemma_group_of(components, n, c, u);
            lemma_group_of(components, n, d, w);
            assert(reachable(joined, n, x, u));
            assert(joined(u, w));
            lemma_reachable_step(joined, n, x, u, w);
            assert forall|v: int| #[trigger] in_group(components, d, v) implies reachable(
                joined,
                n,
                x,
                v,
            ) by {
                lemma_group_of(components, n, d, v);
                assert(in_group(components, d, w) && in_group(components, d, v));
                assert(same_group(components, w, v));
                lemma_reachable_lift(shares, joined, n, w, v);
                lemma_reachable_trans(joined, n, x, w, v);
            }
        }
        lemma_reachable_closed(near, m, s, cx, cy);
        assert(in_group(components, cy, y));
    }
}

/// The groups among the segments of one list are a partition, and two
/// segments are in the same group exactly when a chain of segments leads
/// from one to the other in which each shares a node with the next or lies
/// closer to it than the threshold.
pub proof fn lemma_name_groups(
    segments: Seq<SegmentView>,
    threshold_um: u64,
    groups: Seq<Seq<usize>>,
)
    requires
        is_name_groups(segments, threshold_um, groups),
    ensures
        is_partition(groups, segments.len() as int),
        least_first(groups),
        forall|x: int, y: int|
            0 <= x < segments.len() && 0 <= y < segments.len() ==> (#[trigger] same_group(
                groups,
                x,
                y,
            ) <==> reachable(joined_rel(segments, threshold_um), segments.len() as int, x, y)),
{
    let n = segments.len() as int;
    let components = choose|components: Seq<Seq<usize>>| #[trigger]
        is_components(components, shares_node_rel(node_lists(segments)), n) && is_proximity_merge(
            groups,
            segments,
            components,
            threshold_um,
        );
    let plan = choose|plan: Seq<Seq<usize>>| #[trigger]
        is_components(
            plan,
            near_rel(segments, components, threshold_um),
            components.len() as int,
        ) && groups == merge_by(components, plan);
    lemma_merge_partition(components, plan, n);
    assert forall|x: int, y: int| 0 <= x < n && 0 <= y < n implies (#[trigger] same_group(
        groups,
        x,
        y,
    ) <==> reachable(joined_rel(segments, threshold_um), n, x, y)) by {
        lemma_joined_groups(segments, threshold_um, components, plan, x, y);
    }
}

/// Segments that a chain of shared nodes joins are in the same connected
/// component, whatever the order in which the components were explored.
pub proof fn lemma_chained_segments_share_a_component(
    segments: Seq<SegmentView>,
    components: Seq<Seq<usize>>,
    a: int,
    b: int,
)
    requires
        is_components(
            components,
            shares_node_rel(node_lists(segments)),
            segments.len() as int,
        ),
        0 <= a < segments.len(),
        0 <= b < segments.len(),
        reachable(shares_node_rel(node_lists(segments)), segments.len() as int, a, b),
    ensures
        same_group(components, a, b),
{
}

/// Two segments of merged components are in the same group exactly when a
/// chain of components leads from the component of the one to that of the
/// other in which each is near the next.
pub proof fn lemma_merged_iff_chained(
    segments: Seq<SegmentView>,
    components: Seq<Seq<usize>>,
    merged: Seq<Seq<usize>>,
    threshold_um: u64,
    c1: int,
    c2: int,
    a: int,
    b: int,
)
    requires
        is_partition(components, segments.len() as int),
        is_proximity_merge(merged, segments, components, threshold_um),
        in_group(components, c1, a),
        in_group(components, c2, b),
    ensures
        is_partition(merged, segments.len() as int),
        same_group(merged, a, b) <==> reachable(
            near_rel(segments, components, threshold_um),
            components.len() as int,
            c1,
            c2,
        ),
{
    let n = segments.len() as int;
    let plan = choose|plan: Seq<Seq<usize>>| #[trigger]
        is_components(
            plan,
            near_rel(segments, components, threshold_um),
            components.len() as int,
        ) && merged == merge_by(components, plan);
    lemma_merge_partition(components, plan, n);
    lemma_group_of(components, n, c1, a);
    lemma_group_of(components, n, c2, b);
}

/// Two different components are merged by the spatial step exactly when
/// they are near one another, that is, when the least distance between a
/// position of the one and a position of the other is below the threshold;
/// this holds of components that no chain of other components joins.
pub proof fn lemma_spatial_merge(
    segments: Seq<SegmentView>,
    components: Seq<Seq<usize>>,
    merged: Seq<Seq<usize>>,
    threshold_um: u64,
    c1: int,
    c2: int,
    a: int,
    b: int,
)
    requires
        is_partition(components, segments.len() as int),
        is_proximity_merge(merged, segments, components, threshold_um),
        in_group(components, c1, a),
        in_group(components, c2, b),
        c1 != c2,
        reachable(
            near_rel(segments, components, threshold_um),
            components.len() as int,
            c1,
            c2,
        ) ==> components_near(segments, components[c1], components[c2], threshold_um),
    ensures
        same_group(merged, a, b) <==> components_near(
            segments,
            components[c1],
            components[c2],
            threshold_um,
        ),
{
    let near = near_rel(segments, components, threshold_um);
    lemma_merged_iff_chained(segments, components, merged, threshold_um, c1, c2, a, b);
    if components_near(segments, components[c1], components[c2], threshold_um) {
        assert(near(c1, c2));
        lemma_reachable_one(near, components.len() as int, c1, c2);
    }
}

/// Components that are near one another are always merged.
pub proof fn lemma_near_components_are_merged(
    segments: Seq<SegmentView>,
    components: Seq<Seq<usize>>,
    merged: Seq<Seq<usize>>,
    threshold_um: u64,
    c1: int,
    c2: int,
    a: int,
    b: int,
)
    requires
        is_partition(components, segments.len() as int),
        is_proximity_merge(merged, segments, components, threshold_um),
        in_group(components, c1, a),
        in_group(components, c2, b),
        components_near(segments, components[c1], components[c2], threshold_um),
    ensures
        same_group(merged, a, b),
{
    let near = near_rel(segments, components, threshold_um);
    let m = components.len() as int;
    lemma_merged_iff_chained(segments, components, merged, threshold_um, c1, c2, a, b);
    if c1 == c2 {
        lemma_reachable_refl(near, m, c1);
    } else {
        assert(near(c1, c2));
        lemma_reachable_one(near, m, c1, c2);
    }
}

/// With a threshold of zero the spatial step merges nothing, not even
/// components at no distance from one another: two segments are in the
/// same group afterwards exactly when they were in the same component.
pub proof fn lemma_zero_threshold_keeps_components(
    segments: Seq<SegmentView>,
    components: Seq<Seq<usize>>,
    merged: Seq<Seq<usize>>,
    a: int,
    b: int,
)
    requires
        is_partition(components, segments.len() as int),
        is_proximity_merge(merged, segments, components, 0),
        0 <= a < segments.len(),
        0 <= b < segments.len(),
    ensures
        same_group(merged, a, b) <==> same_group(components, a, b),
{
    let n = segments.len() as int;
    let m = components.len() as int;
    let near = near_rel(segments, components, 0);
    lemma_same_group_of(components, n, a, b);
    let c1 = group_of(components, a);
    let c2 = group_of(components, b);
    lemma_merged_iff_chained(segments, components, merged, 0, c1, c2, a, b);
    if c1 == c2 {
        lemma_reachable_refl(near, m, c1);
    } else if reachable(near, m, c1, c2) {
        assert forall|x: int, y: int|
            0 <= x < m && 0 <= y < m && set![c1].contains(x) && #[trigger] near(
                x,
                y,
            ) implies set![c1].contains(y) by {
            lemma_nothing_is_near_at_zero(segments, components[x], components[y]);
        }
        lemma_reachable_closed(near, m, set![c1], c1, c2);
    }
}

/// Two runs of the component search on the same segments give the same
/// partition.
pub proof fn lemma_components_are_determined(
    segments: Seq<SegmentView>,
    first: Seq<Seq<usize>>,
    second: Seq<Seq<usize>>,
    a: int,
    b: int,
)
    requires
        is_components(first, shares_node_rel(node_lists(segments)), segments.len() as int),
        is_components(second, shares_node_rel(node_lists(segments)), segments.len() as int),
        0 <= a < segments.len(),
        0 <= b < segments.len(),
    ensures
        same_group(first, a, b) <==> same_group(second, a, b),
{
}

} // verus!
