//! The laws of the grouping of all segments into streets.

use crate::consensus::valid_members;
use crate::graph::{
    in_group, in_some_group, is_partition, is_path, least_first, lemma_reachable_closed,
    lemma_reachable_one, lemma_reachable_refl, lemma_reachable_step, member, reachable,
    same_group,
};
use crate::segment::SegmentView;
use crate::street_laws::{
    joined_rel, lemma_name_groups, lemma_same_group_refl, lemma_same_group_trans, link_rel,
};
use crate::streets::{
    globalize, is_name_groups, is_name_partition, is_street_grouping, same_key, sub_segments,
    at_places, groups_at_places,
};
use vstd::prelude::*;

verus! {

/// The renamed start of a path reaches the renamed vertex at every place of
/// the path.
proof fn lemma_map_along(
    rel1: spec_fn(int, int) -> bool,
    n1: int,
    rel2: spec_fn(int, int) -> bool,
    n2: int,
    f: spec_fn(int) -> int,
    p: Seq<int>,
    i: int,
)
    requires
        forall|x: int| 0 <= x < n1 ==> 0 <= #[trigger] f(x) < n2,
        forall|x: int, y: int|
            0 <= x < n1 && 0 <= y < n1 && #[trigger] rel1(x, y) ==> rel2(f(x), f(y)),
        is_path(rel1, n1, p),
        0 <= i < p.len(),
    ensures
        reachable(rel2, n2, f(p[0]), f(p[i])),
    decreases i,
{
    if i == 0 {
        lemma_reachable_refl(rel2, n2, f(p[0]));
    } else {
        lemma_map_along(rel1, n1, rel2, n2, f, p, i - 1);
        assert(rel1(p[i - 1], p[i - 1 + 1]));
        lemma_reachable_step(rel2, n2, f(p[0]), f(p[i - 1]), f(p[i]));
    }
}

/// A path stays a path when the vertices are renamed and every step is a
/// step of the other relation between the new names.
pub proof fn lemma_reachable_map(
    rel1: spec_fn(int, int) -> bool,
    n1: int,
    rel2: spec_fn(int, int) -> bool,
    n2: int,
    f: spec_fn(int) -> int,
    a: int,
    b: int,
)
    requires
        forall|x: int| 0 <= x < n1 ==> 0 <= #[trigger] f(x) < n2,
        forall|x: int, y: int|
            0 <= x < n1 && 0 <= y < n1 && #[trigger] rel1(x, y) ==> rel2(f(x), f(y)),
        reachable(rel1, n1, a, b),
    ensures
        reachable(rel2, n2, f(a), f(b)),
{
    let p = choose|p: Seq<int>| #[trigger] is_path(rel1, n1, p) && p[0] == a && p[p.len() - 1] == b;
    lemma_map_along(rel1, n1, rel2, n2, f, p, p.len() - 1);
}

/// Whether `v` is the place at one of the positions that the group lists.
pub open spec fn placed(places: Seq<usize>, group: Seq<usize>, v: int) -> bool {
    exists|l: int| 0 <= l < places.len() && member(group, l) && #[trigger] places[l] == v
}

/// Whether `a` and `c` are places of one name whose positions are in one
/// group of that name, among the first `k` names.
pub open spec fn together(
    origin: Seq<Seq<usize>>,
    locals: Seq<Seq<Seq<usize>>>,
    k: int,
    a: int,
    c: int,
) -> bool {
    exists|b: int, x: int, y: int|
        #![trigger origin[b][x], origin[b][y]]
        0 <= b < k && 0 <= x < origin[b].len() && 0 <= y < origin[b].len() && origin[b][x] == a
            && origin[b][y] == c && same_group(locals[b], x, y)
}

/// Whether `v` is a place of one of the first `k` names.
pub open spec fn bucket_below(origin: Seq<Seq<usize>>, k: int, v: int) -> bool {
    exists|b: int| 0 <= b < k && in_group(origin, b, v)
}

/// What is in a group of places is the place at one of the positions.
proof fn lemma_member_at_places(places: Seq<usize>, group: Seq<usize>, v: int)
    requires
        valid_members(group, places.len() as int),
    ensures
        member(at_places(places, group), v) <==> placed(places, group, v),
{
    let moved = at_places(places, group);
    if member(moved, v) {
        let j: int = choose|j: int| 0 <= j < moved.len() && #[trigger] moved[j] == v;
        let l: int = group[j] as int;
        assert(group[j] < places.len());
        assert(member(group, l));
        assert(places[l] == v);
    }
    if placed(places, group, v) {
        let l: int = choose|l: int|
            0 <= l < places.len() && member(group, l) && #[trigger] places[l] == v;
        let j: int = choose|j: int| 0 <= j < group.len() && #[trigger] group[j] == l;
        assert(moved[j] == v);
    }
}

/// A group of places is not empty, repeats nothing, and lists places.
proof fn lemma_group_at_places(places: Seq<usize>, group: Seq<usize>, n: int)
    requires
        forall|l1: int, l2: int|
            0 <= l1 < l2 < places.len() ==> #[trigger] places[l1] < #[trigger] places[l2],
        forall|l: int| 0 <= l < places.len() ==> (#[trigger] places[l]) < n,
        valid_members(group, places.len() as int),
        group.no_duplicates(),
        group.len() > 0,
    ensures
        at_places(places, group).len() > 0,
        at_places(places, group).no_duplicates(),
        forall|j: int|
            0 <= j < at_places(places, group).len() ==> (#[trigger] at_places(places, group)[j])
                < n,
{
    let moved = at_places(places, group);
    assert forall|i: int, j: int|
        0 <= i < moved.len() && 0 <= j < moved.len() && i != j implies moved[i] != moved[j] by {
        assert(group[i] < places.len() && group[j] < places.len());
        assert(group[i] != group[j]);
        if group[i] < group[j] {
            assert(places[group[i] as int] < places[group[j] as int]);
        } else {
            assert(places[group[j] as int] < places[group[i] as int]);
        }
    }
    assert forall|j: int| 0 <= j < moved.len() implies (#[trigger] moved[j]) < n by {
        assert(group[j] < places.len());
        assert(places[group[j] as int] < n);
    }
}

/// What holds of the groups of the first `k` names.
pub open spec fn globalize_inv(
    origin: Seq<Seq<usize>>,
    locals: Seq<Seq<Seq<usize>>>,
    k: int,
    groups: Seq<Seq<usize>>,
    n: int,
) -> bool {
    &&& forall|g: int|
        0 <= g < groups.len() ==> (#[trigger] groups[g]).len() > 0 && groups[g].no_duplicates()
    &&& forall|g: int, j: int|
        0 <= g < groups.len() && 0 <= j < groups[g].len() ==> (#[trigger] groups[g][j]) < n
    &&& forall|g: int, v: int| #[trigger] in_group(groups, g, v) ==> bucket_below(origin, k, v)
    &&& forall|g1: int, g2: int, v: int|
        #[trigger] in_group(groups, g1, v) && #[trigger] in_group(groups, g2, v) ==> g1 == g2
    &&& forall|b: int, v: int|
        0 <= b < k && #[trigger] in_group(origin, b, v) ==> in_some_group(groups, v)
    &&& forall|a: int, c: int|
        #![trigger same_group(groups, a, c)]
        #![trigger together(origin, locals, k, a, c)]
        same_group(groups, a, c) <==> together(origin, locals, k, a, c)
}

/// The groups of the first `k` names are a partition of the places of those
/// names, and two places are together exactly when they are places of one
/// name whose positions are together.
pub proof fn lemma_globalize(
    origin: Seq<Seq<usize>>,
    locals: Seq<Seq<Seq<usize>>>,
    k: int,
    n: int,
)
    requires
        is_partition(origin, n),
        forall|b: int, l1: int, l2: int|
            0 <= b < origin.len() && 0 <= l1 < l2 < origin[b].len() ==> #[trigger] origin[b][l1]
                < #[trigger] origin[b][l2],
        locals.len() == origin.len(),
        forall|b: int|
            0 <= b < origin.len() ==> is_partition(#[trigger] locals[b], origin[b].len() as int),
        0 <= k <= origin.len(),
    ensures
        globalize_inv(
            origin,
            locals,
            k,
            globalize(origin.subrange(0, k), locals.subrange(0, k)),
            n,
        ),
    decreases k,
{
    let groups = globalize(origin.subrange(0, k), locals.subrange(0, k));
    if k == 0 {
        assert(groups =~= Seq::<Seq<usize>>::empty());
        assert forall|a: int, c: int|
            #![trigger same_group(groups, a, c)]
            #![trigger together(origin, locals, k, a, c)]
            same_group(groups, a, c) <==> together(origin, locals, k, a, c) by {
            if same_group(groups, a, c) {
                let g: int = choose|g: int| in_group(groups, g, a) && in_group(groups, g, c);
            }
        }
    } else {
        lemma_globalize(origin, locals, k - 1, n);
        let before = globalize(origin.subrange(0, k - 1), locals.subrange(0, k - 1));
        let places = origin[k - 1];
        let local = locals[k - 1];
        let moved = groups_at_places(places, local);
        let off = before.len() as int;
        assert(origin.subrange(0, k).drop_last() =~= origin.subrange(0, k - 1));
        assert(locals.subrange(0, k).drop_last() =~= locals.subrange(0, k - 1));
        assert(origin.subrange(0, k).last() == places);
        assert(locals.subrange(0, k).last() == local);
        assert(groups == before + moved);
        assert(is_partition(local, places.len() as int));
        assert forall|l: int| 0 <= l < places.len() implies (#[trigger] places[l]) < n by {
            assert(origin[k - 1][l] < n);
        }
        assert forall|l: int| 0 <= l < places.len() implies in_group(
            origin,
            k - 1,
            (#[trigger] places[l]) as int,
        ) by {
            assert(member(places, places[l] as int));
        }
        assert forall|l1: int, l2: int| 0 <= l1 < places.len() && 0 <= l2 < places.len() && l1
            != l2 implies #[trigger] places[l1] != #[trigger] places[l2] by {
            if l1 < l2 {
                assert(origin[k - 1][l1] < origin[k - 1][l2]);
            } else {
                assert(origin[k - 1][l2] < origin[k - 1][l1]);
            }
        }
        assert forall|r: int| 0 <= r < local.len() implies valid_members(
            #[trigger] local[r],
            places.len() as int,
        ) by {
            assert forall|j: int| 0 <= j < local[r].len() implies (#[trigger] local[r][j])
                < places.len() by {}
        }
        assert forall|g: int, v: int|
            #![trigger in_group(groups, g, v)]
            in_group(groups, g, v) <==> (in_group(before, g, v) || (off <= g < off + moved.len()
                && in_group(moved, g - off, v))) by {
            if 0 <= g < off {
                assert(groups[g] == before[g]);
            } else if off <= g < groups.len() {
                assert(groups[g] == moved[g - off]);
            }
        }
        assert forall|r: int, v: int|
            #![trigger in_group(moved, r, v)]
            0 <= r < local.len() implies (in_group(moved, r, v) <==> placed(
                places,
                local[r],
                v,
            )) by {
            lemma_member_at_places(places, local[r], v);
        }
        assert forall|g: int| 0 <= g < groups.len() implies (#[trigger] groups[g]).len() > 0
            && groups[g].no_duplicates() by {
            if g < off {
                assert(groups[g] == before[g]);
            } else {
                let r = g - off;
                assert(groups[g] == moved[r]);
                assert forall|l1: int, l2: int| 0 <= l1 < l2 < places.len() implies #[trigger] places[l1]
                    < #[trigger] places[l2] by {
                    assert(origin[k - 1][l1] < origin[k - 1][l2]);
                }
                lemma_group_at_places(places, local[r], n);
            }
        }
        assert forall|g: int, j: int| 0 <= g < groups.len() && 0 <= j < groups[g].len() implies (
        #[trigger] groups[g][j]) < n by {
            if g < off {
                assert(groups[g] == before[g]);
            } else {
                let r = g - off;
                assert(groups[g] == moved[r]);
                assert(local[r][j] < places.len());
            }
        }
        assert forall|g: int, v: int| #[trigger] in_group(groups, g, v) implies bucket_below(
            origin,
            k,
            v,
        ) by {
            if in_group(before, g, v) {
                assert(bucket_below(origin, k - 1, v));
                let b: int = choose|b: int| 0 <= b < k - 1 && in_group(origin, b, v);
                assert(in_group(origin, b, v));
            } else {
                let r = g - off;
                let l: int = choose|l: int|
                    0 <= l < places.len() && member(local[r], l) && #[trigger] places[l] == v;
                assert(in_group(origin, k - 1, v));
            }
        }
        assert forall|g1: int, g2: int, v: int| #[trigger]
            in_group(groups, g1, v) && #[trigger] in_group(groups, g2, v) implies g1 == g2 by {
            if in_group(before, g1, v) && in_group(before, g2, v) {
            } else if in_group(before, g1, v) || in_group(before, g2, v) {
                let g = if in_group(before, g1, v) { g1 } else { g2 };
                let h = if in_group(before, g1, v) { g2 } else { g1 };
                assert(bucket_below(origin, k - 1, v));
                let b: int = choose|b: int| 0 <= b < k - 1 && in_group(origin, b, v);
                let r = h - off;
                let l: int = choose|l: int|
                    0 <= l < places.len() && member(local[r], l) && #[trigger] places[l] == v;
                assert(in_group(origin, k - 1, v));
            } else {
                let r1 = g1 - off;
                let r2 = g2 - off;
                let l1: int = choose|l: int|
                    0 <= l < places.len() && member(local[r1], l) && #[trigger] places[l] == v;
                let l2: int = choose|l: int|
                    0 <= l < places.len() && member(local[r2], l) && #[trigger] places[l] == v;
                assert(l1 == l2);
                assert(in_group(local, r1, l1) && in_group(local, r2, l1));
            }
        }
        assert forall|b: int, v: int| 0 <= b < k && #[trigger] in_group(
            origin,
            b,
            v,
        ) implies in_some_group(groups, v) by {
            if b < k - 1 {
                assert(in_some_group(before, v));
                let g: int = choose|g: int| in_group(before, g, v);
                assert(in_group(groups, g, v));
            } else {
                let l: int = choose|l: int| 0 <= l < places.len() && #[trigger] places[l] == v;
                assert(in_some_group(local, l));
                let r: int = choose|r: int| in_group(local, r, l);
                assert(placed(places, local[r], v));
                assert(in_group(moved, r, v));
                assert(in_group(groups, off + r, v));
            }
        }
        assert forall|a: int, c: int|
            #![trigger same_group(groups, a, c)]
            #![trigger together(origin, locals, k, a, c)]
            same_group(groups, a, c) <==> together(origin, locals, k, a, c) by {
            if same_group(groups, a, c) {
                let g: int = choose|g: int| in_group(groups, g, a) && in_group(groups, g, c);
                if in_group(before, g, a) {
                    assert(in_group(before, g, c));
                    assert(same_group(before, a, c));
                    assert(together(origin, locals, k - 1, a, c));
                    let (b, x, y): (int, int, int) = choose|b: int, x: int, y: int|
                        #![trigger origin[b][x], origin[b][y]]
                        0 <= b < k - 1 && 0 <= x < origin[b].len() && 0 <= y < origin[b].len()
                            && origin[b][x] == a && origin[b][y] == c && same_group(
                            locals[b],
                            x,
                            y,
                        );
                    assert(origin[b][x] == a && origin[b][y] == c);
                } else {
                    let r = g - off;
                    let x: int = choose|l: int|
                        0 <= l < places.len() && member(local[r], l) && #[trigger] places[l] == a;
                    let y: int = choose|l: int|
                        0 <= l < places.len() && member(local[r], l) && #[trigger] places[l] == c;
                    assert(in_group(local, r, x) && in_group(local, r, y));
                    assert(same_group(local, x, y));
                    assert(origin[k - 1][x] == a && origin[k - 1][y] == c);
                }
            }
            if together(origin, locals, k, a, c) {
                let (b, x, y): (int, int, int) = choose|b: int, x: int, y: int|
                    #![trigger origin[b][x], origin[b][y]]
                    0 <= b < k && 0 <= x < origin[b].len() && 0 <= y < origin[b].len()
                        && origin[b][x] == a && origin[b][y] == c && same_group(locals[b], x, y);
                if b < k - 1 {
                    assert(origin[b][x] == a && origin[b][y] == c);
                    assert(together(origin, locals, k - 1, a, c));
                    assert(same_group(before, a, c));
                    let g: int = choose|g: int| in_group(before, g, a) && in_group(before, g, c);
                    assert(in_group(groups, g, a) && in_group(groups, g, c));
                } else {
                    let r: int = choose|r: int| in_group(local, r, x) && in_group(local, r, y);
                    assert(places[x] == a && places[y] == c);
                    assert(placed(places, local[r], a));
                    assert(placed(places, local[r], c));
                    assert(in_group(moved, r, a) && in_group(moved, r, c));
                    assert(in_group(groups, off + r, a) && in_group(groups, off + r, c));
                }
            }
        }
    }
}

/// The grouping into streets is a partition of the segments, and two
/// segments belong to the same street exactly when a chain of segments of
/// one name and region leads from one to the other in which each shares a
/// node with the next or lies closer to it than the threshold.
pub proof fn lemma_street_grouping(
    segments: Seq<SegmentView>,
    threshold_um: u64,
    groups: Seq<Seq<usize>>,
)
    requires
        is_street_grouping(segments, threshold_um, groups),
    ensures
        is_partition(groups, segments.len() as int),
        forall|a: int, c: int|
            0 <= a < segments.len() && 0 <= c < segments.len() ==> (#[trigger] same_group(
                groups,
                a,
                c,
            ) <==> reachable(link_rel(segments, threshold_um), segments.len() as int, a, c)),
{
    let n = segments.len() as int;
    let link = link_rel(segments, threshold_um);
    let (origin, locals): (Seq<Seq<usize>>, Seq<Seq<Seq<usize>>>) = choose|
        origin: Seq<Seq<usize>>,
        locals: Seq<Seq<Seq<usize>>>,
    |
        #![trigger globalize(origin, locals)]
        is_name_partition(segments, origin) && locals.len() == origin.len() && (forall|b: int|
            0 <= b < origin.len() ==> is_name_groups(
                sub_segments(segments, origin[b]),
                threshold_um,
                #[trigger] locals[b],
            )) && groups == globalize(origin, locals);
    let k = origin.len() as int;
    assert forall|b: int| 0 <= b < k implies is_partition(
        #[trigger] locals[b],
        origin[b].len() as int,
    ) by {
        lemma_name_groups(sub_segments(segments, origin[b]), threshold_um, locals[b]);
    }
    lemma_globalize(origin, locals, k, n);
    assert(origin.subrange(0, k) =~= origin);
    assert(locals.subrange(0, k) =~= locals);
    assert(globalize_inv(origin, locals, k, groups, n));
    assert forall|v: int| 0 <= v < n implies #[trigger] in_some_group(groups, v) by {
        assert(in_some_group(origin, v));
        let b: int = choose|b: int| in_group(origin, b, v);
        assert(in_group(origin, b, v));
    }
    assert(is_partition(groups, n));
    assert forall|a: int, c: int| 0 <= a < n && 0 <= c < n implies (#[trigger] same_group(
        groups,
        a,
        c,
    ) <==> reachable(link, n, a, c)) by {
        if same_group(groups, a, c) {
            assert(together(origin, locals, k, a, c));
            let (b, x, y): (int, int, int) = choose|b: int, x: int, y: int|
                #![trigger origin[b][x], origin[b][y]]
                0 <= b < k && 0 <= x < origin[b].len() && 0 <= y < origin[b].len() && origin[b][x]
                    == a && origin[b][y] == c && same_group(locals[b], x, y);
            lemma_chain_in_name(segments, threshold_um, origin, locals[b], b, x, y);
        }
        if reachable(link, n, a, c) {
            let s = Set::new(|v: int| 0 <= v < n && same_group(groups, a, v));
            lemma_same_group_refl(groups, n, a);
            assert forall|v: int, w: int|
                0 <= v < n && 0 <= w < n && s.contains(v) && #[trigger] link(v, w) implies s.contains(
                w,
            ) by {
                assert(same_group(origin, v, w));
                let b: int = choose|b: int| in_group(origin, b, v) && in_group(origin, b, w);
                let x: int = choose|x: int| 0 <= x < origin[b].len() && #[trigger] origin[b][x] == v;
                let y: int = choose|y: int| 0 <= y < origin[b].len() && #[trigger] origin[b][y] == w;
                let sub = sub_segments(segments, origin[b]);
                let joined = joined_rel(sub, threshold_um);
                assert(sub[x] == segments[v] && sub[y] == segments[w]);
                assert(joined(x, y));
                lemma_reachable_one(joined, origin[b].len() as int, x, y);
                lemma_name_groups(sub, threshold_um, locals[b]);
                assert(same_group(locals[b], x, y));
                assert(origin[b][x] == v && origin[b][y] == w);
                assert(together(origin, locals, k, v, w));
                assert(same_group(groups, v, w));
                lemma_same_group_trans(groups, n, a, v, w);
            }
            lemma_reachable_closed(link, n, s, a, c);
        }
    }
}

/// Two positions that are grouped together within one name are linked by a
/// chain among all the segments.
proof fn lemma_chain_in_name(
    segments: Seq<SegmentView>,
    threshold_um: u64,
    origin: Seq<Seq<usize>>,
    local: Seq<Seq<usize>>,
    b: int,
    x: int,
    y: int,
)
    requires
        is_name_partition(segments, origin),
        0 <= b < origin.len(),
        is_name_groups(sub_segments(segments, origin[b]), threshold_um, local),
        0 <= x < origin[b].len(),
        0 <= y < origin[b].len(),
        same_group(local, x, y),
    ensures
        reachable(
            link_rel(segments, threshold_um),
            segments.len() as int,
            origin[b][x] as int,
            origin[b][y] as int,
        ),
{
    let n = segments.len() as int;
    let places = origin[b];
    let m = places.len() as int;
    let sub = sub_segments(segments, places);
    let joined = joined_rel(sub, threshold_um);
    let link = link_rel(segments, threshold_um);
    let f = |l: int| places[l] as int;
    lemma_name_groups(sub, threshold_um, local);
    assert(reachable(joined, m, x, y));
    assert forall|l: int| 0 <= l < m implies 0 <= #[trigger] f(l) < n by {
        assert(origin[b][l] < n);
    }
    assert forall|p: int, q: int| 0 <= p < m && 0 <= q < m && #[trigger] joined(p, q) implies link(
        f(p),
        f(q),
    ) by {
        assert(origin[b][p] < n && origin[b][q] < n);
        assert(sub[p] == segments[f(p)] && sub[q] == segments[f(q)]);
        assert(member(places, f(p)) && member(places, f(q)));
        assert(in_group(origin, b, f(p)) && in_group(origin, b, f(q)));
        assert(same_group(origin, f(p), f(q)));
    }
    lemma_reachable_map(joined, m, link, n, f, x, y);
}

/// Segments of one name and region that a chain of shared nodes or of
/// proximity joins belong to the same street.
pub proof fn lemma_linked_segments_share_a_street(
    segments: Seq<SegmentView>,
    threshold_um: u64,
    groups: Seq<Seq<usize>>,
    a: int,
    c: int,
)
    requires
        is_street_grouping(segments, threshold_um, groups),
        0 <= a < segments.len(),
        0 <= c < segments.len(),
        reachable(link_rel(segments, threshold_um), segments.len() as int, a, c),
    ensures
        same_group(groups, a, c),
{
    lemma_street_grouping(segments, threshold_um, groups);
}

/// Segments of different names or regions never belong to the same street.
pub proof fn lemma_streets_keep_names_apart(
    segments: Seq<SegmentView>,
    threshold_um: u64,
    groups: Seq<Seq<usize>>,
    a: int,
    c: int,
)
    requires
        is_street_grouping(segments, threshold_um, groups),
        0 <= a < segments.len(),
        0 <= c < segments.len(),
        same_group(groups, a, c),
    ensures
        same_key(segments[a], segments[c]),
{
    let n = segments.len() as int;
    let link = link_rel(segments, threshold_um);
    lemma_street_grouping(segments, threshold_um, groups);
    let s = Set::new(|v: int| 0 <= v < n && same_key(segments[a], segments[v]));
    assert forall|v: int, w: int|
        0 <= v < n && 0 <= w < n && s.contains(v) && #[trigger] link(v, w) implies s.contains(w) by {}
    lemma_reachable_closed(link, n, s, a, c);
}

/// Two runs of the grouping on the same segments with the same threshold
/// give the same partition of the segments into streets.
pub proof fn lemma_grouping_is_determined(
    segments: Seq<SegmentView>,
    threshold_um: u64,
    first: Seq<Seq<usize>>,
    second: Seq<Seq<usize>>,
    a: int,
    c: int,
)
    requires
        is_street_grouping(segments, threshold_um, first),
        is_street_grouping(segments, threshold_um, second),
        0 <= a < segments.len(),
        0 <= c < segments.len(),
    ensures
        same_group(first, a, c) <==> same_group(second, a, c),
{
    lemma_street_grouping(segments, threshold_um, first);
    lemma_street_grouping(segments, threshold_um, second);
}

/// Every group of the first `k` names starts with its least place.
proof fn lemma_globalize_least(
    origin: Seq<Seq<usize>>,
    locals: Seq<Seq<Seq<usize>>>,
    k: int,
)
    requires
        forall|b: int, l1: int, l2: int|
            0 <= b < origin.len() && 0 <= l1 < l2 < origin[b].len() ==> #[trigger] origin[b][l1]
                < #[trigger] origin[b][l2],
        locals.len() == origin.len(),
        forall|b: int|
            0 <= b < origin.len() ==> is_partition(#[trigger] locals[b], origin[b].len() as int)
                && least_first(locals[b]),
        0 <= k <= origin.len(),
    ensures
        forall|g: int, j: int|
            0 <= g < globalize(origin.subrange(0, k), locals.subrange(0, k)).len() && 0 <= j
                < globalize(origin.subrange(0, k), locals.subrange(0, k))[g].len() ==> globalize(
                origin.subrange(0, k),
                locals.subrange(0, k),
            )[g][0] <= #[trigger] globalize(origin.subrange(0, k), locals.subrange(0, k))[g][j],
    decreases k,
{
    let groups = globalize(origin.subrange(0, k), locals.subrange(0, k));
    if k == 0 {
        assert(groups =~= Seq::<Seq<usize>>::empty());
    } else {
        lemma_globalize_least(origin, locals, k - 1);
        let before = globalize(origin.subrange(0, k - 1), locals.subrange(0, k - 1));
        let places = origin[k - 1];
        let local = locals[k - 1];
        let moved = groups_at_places(places, local);
        let off = before.len() as int;
        assert(origin.subrange(0, k).drop_last() =~= origin.subrange(0, k - 1));
        assert(locals.subrange(0, k).drop_last() =~= locals.subrange(0, k - 1));
        assert(origin.subrange(0, k).last() == places);
        assert(locals.subrange(0, k).last() == local);
        assert(groups == before + moved);
        assert(is_partition(local, places.len() as int) && least_first(local));
        assert forall|g: int, j: int| 0 <= g < groups.len() && 0 <= j < groups[g].len() implies groups[g][0]
            <= #[trigger] groups[g][j] by {
            if g < off {
                assert(groups[g] == before[g]);
            } else {
                let r = g - off;
                assert(groups[g] == moved[r]);
                assert(local[r][0] <= local[r][j]);
                assert(local[r][0] < places.len() && local[r][j] < places.len());
                if local[r][0] < local[r][j] {
                    assert(origin[k - 1][local[r][0] as int] < origin[k - 1][local[r][j] as int]);
                }
            }
        }
    }
}

/// Every street starts with the least of its segments, so that the
/// position of a street is the first position of its first segment in the
/// order of the segments.
pub proof fn lemma_streets_start_with_their_least(
    segments: Seq<SegmentView>,
    threshold_um: u64,
    groups: Seq<Seq<usize>>,
)
    requires
        is_street_grouping(segments, threshold_um, groups),
    ensures
        forall|g: int, j: int|
            0 <= g < groups.len() && 0 <= j < groups[g].len() ==> groups[g][0]
                <= #[trigger] groups[g][j],
{
    let (origin, locals): (Seq<Seq<usize>>, Seq<Seq<Seq<usize>>>) = choose|
        origin: Seq<Seq<usize>>,
        locals: Seq<Seq<Seq<usize>>>,
    |
        #![trigger globalize(origin, locals)]
        is_name_partition(segments, origin) && locals.len() == origin.len() && (forall|b: int|
            0 <= b < origin.len() ==> is_name_groups(
                sub_segments(segments, origin[b]),
                threshold_um,
                #[trigger] locals[b],
            )) && groups == globalize(origin, locals);
    let k = origin.len() as int;
    assert forall|b: int| 0 <= b < k implies is_partition(
        #[trigger] locals[b],
        origin[b].len() as int,
    ) && least_first(locals[b]) by {
        lemma_name_groups(sub_segments(segments, origin[b]), threshold_um, locals[b]);
    }
    lemma_globalize_least(origin, locals, k);
    assert(origin.subrange(0, k) =~= origin);
    assert(locals.subrange(0, k) =~= locals);
}

} // verus!
