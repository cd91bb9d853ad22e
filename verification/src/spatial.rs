//! Merging components that lie close to one another. Positions are in
//! nanodegrees and distances are planar: one nanodegree counts as 111
//! micrometres in either direction.

use crate::flood_fill::connected_components;
use crate::graph::{
    add_edge, edge, edge_rel, empty_rows, in_group, in_some_group, is_components, is_partition,
    is_undirected_graph, least_first, lemma_reachable_closed, lemma_reachable_refl,
    lemma_reachable_same, lemma_rows, member, push_row, reachable, same_group,
};
use crate::segment::{Coord, SegmentView, StreetSegment};
use vstd::prelude::*;

verus! {

/// The square of the planar distance between two positions, in square
/// nanodegrees.
pub open spec fn planar_dist_sq(p: Coord, q: Coord) -> int {
    (p.lat - q.lat) * (p.lat - q.lat) + (p.lon - q.lon) * (p.lon - q.lon)
}

/// Whether the planar distance between two positions, 111 micrometres to the
/// nanodegree, is strictly below the threshold in micrometres.
pub open spec fn closer_than(p: Coord, q: Coord, threshold_um: u64) -> bool {
    111 * 111 * planar_dist_sq(p, q) < threshold_um * threshold_um
}

/// Whether some position of `a` is closer than the threshold to some
/// position of `b`.
pub open spec fn segments_close(a: Seq<Coord>, b: Seq<Coord>, threshold_um: u64) -> bool {
    exists|x: int, y: int|
        #![trigger a[x], b[y]]
        0 <= x < a.len() && 0 <= y < b.len() && closer_than(a[x], b[y], threshold_um)
}

/// Whether some segment of component `c1` is close to some segment of
/// component `c2`: whether the least distance between their positions is
/// below the threshold.
pub open spec fn components_near(
    segments: Seq<SegmentView>,
    c1: Seq<usize>,
    c2: Seq<usize>,
    threshold_um: u64,
) -> bool {
    exists|i: int, j: int|
        #![trigger c1[i], c2[j]]
        0 <= i < c1.len() && 0 <= j < c2.len() && segments_close(
            segments[c1[i] as int].coords,
            segments[c2[j] as int].coords,
            threshold_um,
        )
}

/// The relation between the places of two different components that are
/// near one another.
pub open spec fn near_rel(
    segments: Seq<SegmentView>,
    components: Seq<Seq<usize>>,
    threshold_um: u64,
) -> spec_fn(int, int) -> bool {
    |i: int, j: int|
        0 <= i < components.len() && 0 <= j < components.len() && i != j && components_near(
            segments,
            components[i],
            components[j],
            threshold_um,
        )
}

/// The components named by `group`, one after the other.
pub open spec fn concat_groups(components: Seq<Seq<usize>>, group: Seq<usize>) -> Seq<usize>
    decreases group.len(),
{
    if group.len() == 0 {
        Seq::empty()
    } else {
        concat_groups(components, group.drop_last()) + components[group.last() as int]
    }
}

/// The components merged as the plan says: one merged component for each
/// group of the plan.
pub open spec fn merge_by(components: Seq<Seq<usize>>, plan: Seq<Seq<usize>>) -> Seq<Seq<usize>> {
    Seq::new(plan.len(), |g: int| concat_groups(components, plan[g]))
}

/// Whether `merged` is what the spatial step makes of `components`: the
/// components are grouped by chains of nearness, and each group is merged
/// into one, in the order of the group.
pub open spec fn is_proximity_merge(
    merged: Seq<Seq<usize>>,
    segments: Seq<SegmentView>,
    components: Seq<Seq<usize>>,
    threshold_um: u64,
) -> bool {
    exists|plan: Seq<Seq<usize>>| #[trigger]
        is_components(
            plan,
            near_rel(segments, components, threshold_um),
            components.len() as int,
        ) && merged == merge_by(components, plan)
}

/// Distance does not depend on the direction.
pub proof fn lemma_closer_symmetric(p: Coord, q: Coord, threshold_um: u64)
    ensures
        closer_than(p, q, threshold_um) == closer_than(q, p, threshold_um),
{
    let a: int = p.lat - q.lat;
    let b: int = p.lon - q.lon;
    assert(a * a == (-a) * (-a)) by (nonlinear_arith);
    assert(b * b == (-b) * (-b)) by (nonlinear_arith);
    assert(q.lat - p.lat == -a);
    assert(q.lon - p.lon == -b);
}

/// Closeness of segments does not depend on the direction.
pub proof fn lemma_segments_close_symmetric(a: Seq<Coord>, b: Seq<Coord>, threshold_um: u64)
    ensures
        segments_close(a, b, threshold_um) == segments_close(b, a, threshold_um),
{
    if segments_close(a, b, threshold_um) {
        let (x, y): (int, int) = choose|x: int, y: int|
            #![trigger a[x], b[y]]
            0 <= x < a.len() && 0 <= y < b.len() && closer_than(a[x], b[y], threshold_um);
        lemma_closer_symmetric(a[x], b[y], threshold_um);
        assert(closer_than(b[y], a[x], threshold_um));
    }
    if segments_close(b, a, threshold_um) {
        let (y, x): (int, int) = choose|y: int, x: int|
            #![trigger b[y], a[x]]
            0 <= y < b.len() && 0 <= x < a.len() && closer_than(b[y], a[x], threshold_um);
        lemma_closer_symmetric(b[y], a[x], threshold_um);
        assert(closer_than(a[x], b[y], threshold_um));
    }
}

/// Nearness of components does not depend on the direction.
pub proof fn lemma_components_near_symmetric(
    segments: Seq<SegmentView>,
    c1: Seq<usize>,
    c2: Seq<usize>,
    threshold_um: u64,
)
    ensures
        components_near(segments, c1, c2, threshold_um) == components_near(
            segments,
            c2,
            c1,
            threshold_um,
        ),
{
    if components_near(segments, c1, c2, threshold_um) {
        let (i, j): (int, int) = choose|i: int, j: int|
            #![trigger c1[i], c2[j]]
            0 <= i < c1.len() && 0 <= j < c2.len() && segments_close(
                segments[c1[i] as int].coords,
                segments[c2[j] as int].coords,
                threshold_um,
            );
        lemma_segments_close_symmetric(
            segments[c1[i] as int].coords,
            segments[c2[j] as int].coords,
            threshold_um,
        );
        assert(segments_close(
            segments[c2[j] as int].coords,
            segments[c1[i] as int].coords,
            threshold_um,
        ));
    }
    if components_near(segments, c2, c1, threshold_um) {
        let (j, i): (int, int) = choose|j: int, i: int|
            #![trigger c2[j], c1[i]]
            0 <= j < c2.len() && 0 <= i < c1.len() && segments_close(
                segments[c2[j] as int].coords,
                segments[c1[i] as int].coords,
                threshold_um,
            );
        lemma_segments_close_symmetric(
            segments[c2[j] as int].coords,
            segments[c1[i] as int].coords,
            threshold_um,
        );
        assert(segments_close(
            segments[c1[i] as int].coords,
            segments[c2[j] as int].coords,
            threshold_um,
        ));
    }
}

/// With a threshold of zero nothing is close to anything.
pub proof fn lemma_zero_threshold(p: Coord, q: Coord)
    ensures
        !closer_than(p, q, 0),
{
    let a: int = p.lat - q.lat;
    let b: int = p.lon - q.lon;
    assert(a * a >= 0) by (nonlinear_arith);
    assert(b * b >= 0) by (nonlinear_arith);
}

/// With a threshold of zero no two components are near one another.
pub proof fn lemma_nothing_is_near_at_zero(
    segments: Seq<SegmentView>,
    c1: Seq<usize>,
    c2: Seq<usize>,
)
    ensures
        !components_near(segments, c1, c2, 0),
{
    if components_near(segments, c1, c2, 0) {
        let (x, y): (int, int) = choose|x: int, y: int|
            #![trigger c1[x], c2[y]]
            0 <= x < c1.len() && 0 <= y < c2.len() && segments_close(
                segments[c1[x] as int].coords,
                segments[c2[y] as int].coords,
                0,
            );
        let a = segments[c1[x] as int].coords;
        let b = segments[c2[y] as int].coords;
        let (p, q): (int, int) = choose|p: int, q: int|
            #![trigger a[p], b[q]]
            0 <= p < a.len() && 0 <= q < b.len() && closer_than(a[p], b[q], 0);
        lemma_zero_threshold(a[p], b[q]);
    }
}

/// Where no two components are near one another, the spatial step leaves
/// the components as they are.
pub proof fn lemma_nothing_near_merges_nothing(
    segments: Seq<SegmentView>,
    components: Seq<Seq<usize>>,
    threshold_um: u64,
)
    requires
        components.len() <= usize::MAX,
        forall|i: int, j: int|
            0 <= i < components.len() && 0 <= j < components.len() && i != j ==> !components_near(
                segments,
                #[trigger] components[i],
                #[trigger] components[j],
                threshold_um,
            ),
    ensures
        is_proximity_merge(components, segments, components, threshold_um),
{
    let m = components.len() as int;
    let near = near_rel(segments, components, threshold_um);
    let plan = Seq::new(components.len(), |i: int| seq![i as usize]);
    assert forall|c: int, v: int| in_group(plan, c, v) <==> (0 <= c < m && v == c) by {
        if 0 <= c < m {
            assert(plan[c][0] == c);
            if member(plan[c], v) {
                let k: int = choose|k: int| 0 <= k < plan[c].len() && #[trigger] plan[c][k] == v;
            }
        }
    }
    assert forall|v: int| 0 <= v < m implies #[trigger] in_some_group(plan, v) by {
        assert(in_group(plan, v, v));
    }
    assert(is_partition(plan, m));
    assert(least_first(plan));
    assert forall|a: int, b: int| 0 <= a < m && 0 <= b < m implies (#[trigger] same_group(
        plan,
        a,
        b,
    ) <==> reachable(near, m, a, b)) by {
        if same_group(plan, a, b) {
            let c: int = choose|c: int| in_group(plan, c, a) && in_group(plan, c, b);
            lemma_reachable_refl(near, m, a);
        }
        if reachable(near, m, a, b) {
            assert forall|x: int, y: int|
                0 <= x < m && 0 <= y < m && set![a].contains(x) && #[trigger] near(
                    x,
                    y,
                ) implies set![a].contains(y) by {
                assert(!components_near(segments, components[x], components[y], threshold_um));
            }
            lemma_reachable_closed(near, m, set![a], a, b);
            assert(in_group(plan, a, a) && in_group(plan, a, b));
        }
    }
    assert(merge_by(components, plan) =~= components) by {
        assert forall|g: int| 0 <= g < m implies concat_groups(components, #[trigger] plan[g])
            == components[g] by {
            let one = plan[g];
            assert(one.drop_last() =~= Seq::<usize>::empty());
            assert(concat_groups(components, one.drop_last()) =~= Seq::<usize>::empty());
            assert(concat_groups(components, one) =~= components[g]);
        }
    }
    assert(is_components(plan, near, m));
}

/// With a threshold of zero the spatial step leaves the components as they
/// are.
pub proof fn lemma_zero_threshold_merges_nothing(
    segments: Seq<SegmentView>,
    components: Seq<Seq<usize>>,
)
    requires
        components.len() <= usize::MAX,
    ensures
        is_proximity_merge(components, segments, components, 0),
{
    assert forall|i: int, j: int|
        0 <= i < components.len() && 0 <= j < components.len() && i != j implies !components_near(
        segments,
        #[trigger] components[i],
        #[trigger] components[j],
        0,
    ) by {
        lemma_nothing_is_near_at_zero(segments, components[i], components[j]);
    }
    lemma_nothing_near_merges_nothing(segments, components, 0);
}

/// The distance between two numbers.
fn gap(a: i64, b: i64) -> (d: u128)
    ensures
        d == if a >= b { a - b } else { b - a },
        d < 0x1_0000_0000_0000_0000,
{
    let wide_a: i128 = a as i128;
    let wide_b: i128 = b as i128;
    if wide_a >= wide_b {
        (wide_a - wide_b) as u128
    } else {
        (wide_b - wide_a) as u128
    }
}

/// Whether two positions are closer than the threshold.
pub fn is_closer_than(p: Coord, q: Coord, threshold_um: u64) -> (close: bool)
    ensures
        close == closer_than(p, q, threshold_um),
{
    let t: u128 = threshold_um as u128;
    let north: u128 = 111 * gap(p.lat, q.lat);
    let east: u128 = 111 * gap(p.lon, q.lon);
    proof {
        let a: int = p.lat - q.lat;
        let b: int = p.lon - q.lon;
        assert(north * north == 111 * 111 * (a * a)) by (nonlinear_arith)
            requires
                north == 111 * a || north == 111 * (-a),
        ;
        assert(east * east == 111 * 111 * (b * b)) by (nonlinear_arith)
            requires
                east == 111 * b || east == 111 * (-b),
        ;
        assert(111 * 111 * planar_dist_sq(p, q) == north * north + east * east) by (nonlinear_arith)
            requires
                north * north == 111 * 111 * (a * a),
                east * east == 111 * 111 * (b * b),
                planar_dist_sq(p, q) == a * a + b * b,
        ;
        assert(east * east >= 0 && north * north >= 0) by (nonlinear_arith);
    }
    if north >= t || east >= t {
        proof {
            assert(north >= t ==> north * north >= t * t) by (nonlinear_arith)
                requires
                    t >= 0,
                    north >= 0,
            ;
            assert(east >= t ==> east * east >= t * t) by (nonlinear_arith)
                requires
                    t >= 0,
                    east >= 0,
            ;
        }
        false
    } else {
        proof {
            assert(north * north < t * t) by (nonlinear_arith)
                requires
                    0 <= north < t,
            ;
            assert(east * east < t * t) by (nonlinear_arith)
                requires
                    0 <= east < t,
            ;
            assert(t * t <= 0xffff_ffff_ffff_ffff * 0xffff_ffff_ffff_ffff) by (nonlinear_arith)
                requires
                    0 <= t <= 0xffff_ffff_ffff_ffff,
            ;
        }
        let north_sq: u128 = north * north;
        let east_sq: u128 = east * east;
        let limit: u128 = t * t;
        north_sq < limit - east_sq
    }
}

/// Whether some position of `a` is closer than the threshold to some
/// position of `b`.
pub fn coords_are_close(a: &Vec<Coord>, b: &Vec<Coord>, threshold_um: u64) -> (close: bool)
    ensures
        close == segments_close(a@, b@, threshold_um),
{
    let mut x: usize = 0;
    while x < a.len()
        invariant
            x <= a.len(),
            forall|x1: int, y1: int|
                #![trigger a@[x1], b@[y1]]
                0 <= x1 < x && 0 <= y1 < b.len() ==> !closer_than(a@[x1], b@[y1], threshold_um),
        decreases a.len() - x,
    {
        let mut y: usize = 0;
        while y < b.len()
            invariant
                x < a.len(),
                y <= b.len(),
                forall|x1: int, y1: int|
                    #![trigger a@[x1], b@[y1]]
                    0 <= x1 < x && 0 <= y1 < b.len() ==> !closer_than(
                        a@[x1],
                        b@[y1],
                        threshold_um,
                    ),
                forall|y1: int|
                    0 <= y1 < y ==> !closer_than(a@[x as int], #[trigger] b@[y1], threshold_um),
            decreases b.len() - y,
        {
            if is_closer_than(a[x], b[y], threshold_um) {
                assert(closer_than(a@[x as int], b@[y as int], threshold_um));
                return true;
            }
            y += 1;
        }
        x += 1;
    }
    false
}

/// Whether the indices of every component are places of `segments`.
pub open spec fn valid_components(components: Seq<Seq<usize>>, n: int) -> bool {
    forall|c: int, k: int|
        0 <= c < components.len() && 0 <= k < components[c].len() ==> (#[trigger] components[c][k])
            < n
}

/// Whether some segment of `c1` is close to some segment of `c2`.
pub fn components_are_near(
    segments: &Vec<StreetSegment>,
    c1: &Vec<usize>,
    c2: &Vec<usize>,
    threshold_um: u64,
) -> (near: bool)
    requires
        forall|k: int| 0 <= k < c1.len() ==> (#[trigger] c1[k]) < segments.len(),
        forall|k: int| 0 <= k < c2.len() ==> (#[trigger] c2[k]) < segments.len(),
    ensures
        near == components_near(segments.deep_view(), c1@, c2@, threshold_um),
{
    let ghost segs = segments.deep_view();
    let mut i: usize = 0;
    while i < c1.len()
        invariant
            segs == segments.deep_view(),
            forall|k: int| 0 <= k < c1.len() ==> (#[trigger] c1[k]) < segments.len(),
            forall|k: int| 0 <= k < c2.len() ==> (#[trigger] c2[k]) < segments.len(),
            i <= c1.len(),
            forall|i1: int, j1: int|
                #![trigger c1@[i1], c2@[j1]]
                0 <= i1 < i && 0 <= j1 < c2.len() ==> !segments_close(
                    segs[c1@[i1] as int].coords,
                    segs[c2@[j1] as int].coords,
                    threshold_um,
                ),
        decreases c1.len() - i,
    {
        let first: &Vec<Coord> = segments[c1[i]].coords();
        let mut j: usize = 0;
        while j < c2.len()
            invariant
                segs == segments.deep_view(),
                forall|k: int| 0 <= k < c2.len() ==> (#[trigger] c2[k]) < segments.len(),
                i < c1.len(),
                c1[i as int] < segments.len(),
                first@ == segs[c1@[i as int] as int].coords,
                j <= c2.len(),
                forall|i1: int, j1: int|
                    #![trigger c1@[i1], c2@[j1]]
                    0 <= i1 < i && 0 <= j1 < c2.len() ==> !segments_close(
                        segs[c1@[i1] as int].coords,
                        segs[c2@[j1] as int].coords,
                        threshold_um,
                    ),
                forall|j1: int|
                    0 <= j1 < j ==> !segments_close(
                        first@,
                        segs[(#[trigger] c2@[j1]) as int].coords,
                        threshold_um,
                    ),
            decreases c2.len() - j,
        {
            let second: &Vec<Coord> = segments[c2[j]].coords();
            if coords_are_close(first, second, threshold_um) {
                assert(segments_close(
                    segs[c1@[i as int] as int].coords,
                    segs[c2@[j as int] as int].coords,
                    threshold_um,
                ));
                return true;
            }
            j += 1;
        }
        i += 1;
    }
    false
}

/// The graph on the components in which two are joined when they are near
/// one another.
fn proximity_graph(
    segments: &Vec<StreetSegment>,
    components: &Vec<Vec<usize>>,
    threshold_um: u64,
) -> (adj: Vec<Vec<usize>>)
    requires
        valid_components(components.deep_view(), segments.len() as int),
    ensures
        adj.len() == components.len(),
        is_undirected_graph(adj.deep_view()),
        forall|i: int, j: int|
            0 <= i < components.len() && 0 <= j < components.len() ==> (#[trigger] edge(
                adj.deep_view(),
                i,
                j,
            ) <==> near_rel(segments.deep_view(), components.deep_view(), threshold_um)(i, j)),
{
    let n: usize = components.len();
    let ghost segs = segments.deep_view();
    let ghost comps = components.deep_view();
    let ghost near = near_rel(segs, comps, threshold_um);
    let mut adj: Vec<Vec<usize>> = empty_rows(n);
    proof {
        lemma_rows(components);
        assert forall|a: int, c: int| !edge(adj.deep_view(), a, c) by {}
    }
    let mut i: usize = 0;
    while i < n
        invariant
            n == components.len(),
            segs == segments.deep_view(),
            comps == components.deep_view(),
            near == near_rel(segs, comps, threshold_um),
            comps.len() == n,
            forall|r: int| 0 <= r < n ==> #[trigger] comps[r] == components@[r]@,
            valid_components(comps, segments.len() as int),
            i <= n,
            adj.len() == n,
            adj.deep_view().len() == n,
            proximity_inv(adj.deep_view(), near, n as int, i as int, 0),
        decreases n - i,
    {
        let mut j: usize = i + 1;
        while j < n
            invariant
                n == components.len(),
                segs == segments.deep_view(),
                comps == components.deep_view(),
                near == near_rel(segs, comps, threshold_um),
                comps.len() == n,
                forall|r: int| 0 <= r < n ==> #[trigger] comps[r] == components@[r]@,
                valid_components(comps, segments.len() as int),
                i < n,
                i < j <= n,
                adj.len() == n,
                adj.deep_view().len() == n,
                proximity_inv(adj.deep_view(), near, n as int, i as int, j as int),
            decreases n - j,
        {
            let ghost g0 = adj.deep_view();
            assert forall|k: int| 0 <= k < components@[i as int]@.len() implies (
            #[trigger] components@[i as int]@[k]) < segments.len() by {
                assert(comps[i as int][k] < segments.len());
            }
            assert forall|k: int| 0 <= k < components@[j as int]@.len() implies (
            #[trigger] components@[j as int]@[k]) < segments.len() by {
                assert(comps[j as int][k] < segments.len());
            }
            let is_near: bool = components_are_near(
                segments,
                &components[i],
                &components[j],
                threshold_um,
            );
            proof {
                lemma_components_near_symmetric(segs, comps[i as int], comps[j as int], threshold_um);
                assert(near(i as int, j as int) == is_near);
                assert(near(j as int, i as int) == is_near);
            }
            if is_near {
                add_edge(&mut adj, i, j);
            }
            proof {
                let g = adj.deep_view();
                assert forall|a: int, c: int| #[trigger] edge(g, a, c) implies near(a, c) by {
                    if edge(g0, a, c) {
                    }
                }
                assert forall|a: int, c: int|
                    #![trigger near(a, c)]
                    0 <= a < c < n && (a < i || (a == i && c < j + 1)) && near(a, c) implies edge(
                    g,
                    a,
                    c,
                ) && edge(g, c, a) by {
                    if a == i && c == j {
                    } else {
                        assert(edge(g0, a, c) && edge(g0, c, a));
                    }
                }
            }
            j += 1;
        }
        i += 1;
    }
    proof {
        let g = adj.deep_view();
        assert forall|a: int, c: int| 0 <= a < n && 0 <= c < n implies (#[trigger] edge(g, a, c)
            <==> near(a, c)) by {
            if near(a, c) {
                lemma_components_near_symmetric(segs, comps[a], comps[c], threshold_um);
                assert(near(c, a));
                if a < c {
                    assert(edge(g, a, c));
                } else {
                    assert(edge(g, c, a) && edge(g, a, c));
                }
            }
        }
        assert forall|a: int, c: int| #[trigger] edge(g, a, c) implies edge(g, c, a) by {
            assert(near(a, c));
            lemma_components_near_symmetric(segs, comps[a], comps[c], threshold_um);
            assert(near(c, a));
            if c < a {
                assert(edge(g, c, a));
            } else {
                assert(edge(g, a, c) && edge(g, c, a));
            }
        }
    }
    adj
}

/// What holds of the proximity graph when every pair before `(i, j)` has
/// been looked at.
spec fn proximity_inv(
    g: Seq<Seq<usize>>,
    near: spec_fn(int, int) -> bool,
    n: int,
    i: int,
    j: int,
) -> bool {
    &&& forall|a: int, k: int|
        0 <= a < g.len() && 0 <= k < g[a].len() ==> (#[trigger] g[a][k]) < g.len()
    &&& forall|a: int, c: int| #[trigger] edge(g, a, c) ==> near(a, c)
    &&& forall|a: int, c: int|
        #![trigger near(a, c)]
        0 <= a < c < n && (a < i || (a == i && c < j)) && near(a, c) ==> edge(g, a, c) && edge(
            g,
            c,
            a,
        )
}

/// Appends the entries of `more` to `list`.
fn append_all(list: &mut Vec<usize>, more: &Vec<usize>)
    ensures
        final(list)@ == old(list)@ + more@,
{
    let ghost before = list@;
    let mut k: usize = 0;
    while k < more.len()
        invariant
            k <= more.len(),
            list@ == before + more@.subrange(0, k as int),
        decreases more.len() - k,
    {
        list.push(more[k]);
        proof {
            assert(more@.subrange(0, k + 1) =~= more@.subrange(0, k as int).push(more@[k as int]));
            assert(list@ =~= before + more@.subrange(0, k + 1));
        }
        k += 1;
    }
    proof {
        assert(more@.subrange(0, more@.len() as int) =~= more@);
    }
}

/// Merges the components as the plan says.
fn merge_components(components: &Vec<Vec<usize>>, plan: &Vec<Vec<usize>>) -> (merged: Vec<
    Vec<usize>,
>)
    requires
        valid_components(plan.deep_view(), components.len() as int),
    ensures
        merged.deep_view() == merge_by(components.deep_view(), plan.deep_view()),
{
    let ghost comps = components.deep_view();
    let ghost groups = plan.deep_view();
    let mut merged: Vec<Vec<usize>> = Vec::new();
    proof {
        lemma_rows(components);
        lemma_rows(plan);
        lemma_rows(&merged);
    }
    let mut g: usize = 0;
    while g < plan.len()
        invariant
            comps == components.deep_view(),
            groups == plan.deep_view(),
            comps.len() == components.len(),
            groups.len() == plan.len(),
            forall|r: int| 0 <= r < components.len() ==> #[trigger] comps[r] == components@[r]@,
            forall|r: int| 0 <= r < plan.len() ==> #[trigger] groups[r] == plan@[r]@,
            valid_components(groups, components.len() as int),
            g <= plan.len(),
            merged.len() == g,
            merged.deep_view().len() == g,
            forall|r: int|
                0 <= r < g ==> #[trigger] merged.deep_view()[r] == concat_groups(comps, groups[r]),
        decreases plan.len() - g,
    {
        let group: &Vec<usize> = &plan[g];
        let mut list: Vec<usize> = Vec::new();
        let mut k: usize = 0;
        proof {
            assert(group@.subrange(0, 0) =~= Seq::<usize>::empty());
        }
        while k < group.len()
            invariant
                comps.len() == components.len(),
                forall|r: int| 0 <= r < components.len() ==> #[trigger] comps[r] == components@[r]@,
                groups.len() == plan.len(),
                g < plan.len(),
                group@ == groups[g as int],
                valid_components(groups, components.len() as int),
                k <= group.len(),
                list@ == concat_groups(comps, group@.subrange(0, k as int)),
            decreases group.len() - k,
        {
            assert(groups[g as int][k as int] < components.len());
            append_all(&mut list, &components[group[k]]);
            proof {
                let head = group@.subrange(0, k + 1);
                assert(head.drop_last() =~= group@.subrange(0, k as int));
                assert(head.last() == group@[k as int]);
            }
            k += 1;
        }
        proof {
            assert(group@.subrange(0, group@.len() as int) =~= group@);
        }
        let ghost row = list@;
        let ghost before = merged.deep_view();
        push_row(&mut merged, list);
        proof {
            let now = merged.deep_view();
            assert forall|r: int| 0 <= r < g + 1 implies #[trigger] now[r] == concat_groups(
                comps,
                groups[r],
            ) by {
                if r < g {
                    assert(now[r] == before[r]);
                }
            }
        }
        g += 1;
    }
    proof {
        assert(merged.deep_view() =~= merge_by(comps, groups));
    }
    merged
}

/// Merges the components that lie near one another: components are joined
/// when a chain of components leads from one to the other in which each is
/// closer to the next than the threshold, in micrometres. With a threshold
/// of zero nothing is merged.
pub fn group_nearby_components(
    segments: &Vec<StreetSegment>,
    components: Vec<Vec<usize>>,
    threshold_um: u64,
) -> (merged: Vec<Vec<usize>>)
    requires
        valid_components(components.deep_view(), segments.len() as int),
    ensures
        is_proximity_merge(
            merged.deep_view(),
            segments.deep_view(),
            components.deep_view(),
            threshold_um,
        ),
{
    let n: usize = components.len();
    let ghost segs = segments.deep_view();
    let ghost comps = components.deep_view();
    let ghost near = near_rel(segs, comps, threshold_um);
    if n <= 1 {
        proof {
            lemma_rows(&components);
            lemma_nothing_near_merges_nothing(segs, comps, threshold_um);
        }
        return components;
    }
    let adj = proximity_graph(segments, &components, threshold_um);
    let plan = connected_components(&adj);
    proof {
        let g = adj.deep_view();
        let groups = plan.deep_view();
        assert forall|x: int, y: int| 0 <= x < n && 0 <= y < n implies #[trigger] edge_rel(g)(x, y)
            == near(x, y) by {
            assert(edge(g, x, y) <==> near(x, y));
        }
        assert forall|a: int, b: int| 0 <= a < n && 0 <= b < n implies (#[trigger] same_group(
            groups,
            a,
            b,
        ) <==> reachable(near, n as int, a, b)) by {
            lemma_reachable_same(edge_rel(g), near, n as int, a, b);
        }
        assert(is_components(groups, near, n as int));
    }
    let merged = merge_components(&components, &plan);
    merged
}

} // verus!
