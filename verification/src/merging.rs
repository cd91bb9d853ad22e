//! What merging does to a partition: when the groups of a partition are
//! themselves grouped by a plan, and each group of the plan is merged into
//! one, the result is again a partition.

use crate::graph::{in_group, in_some_group, is_partition, least_first, member, same_group};
use crate::spatial::{concat_groups, merge_by};
use vstd::prelude::*;
use vstd::seq_lib::lemma_no_dup_in_concat;

verus! {

/// The group that lists `v`.
pub open spec fn group_of(groups: Seq<Seq<usize>>, v: int) -> int {
    choose|c: int| in_group(groups, c, v)
}

/// Whether one of the components named by `group` lists `v`.
pub open spec fn in_named(components: Seq<Seq<usize>>, group: Seq<usize>, v: int) -> bool {
    exists|k: int| 0 <= k < group.len() && member(components[(#[trigger] group[k]) as int], v)
}

/// What is in the concatenation of two lists is in one of them.
pub proof fn lemma_member_concat(a: Seq<usize>, b: Seq<usize>, v: int)
    ensures
        member(a + b, v) <==> (member(a, v) || member(b, v)),
{
    let c = a + b;
    if member(a, v) {
        let k: int = choose|k: int| 0 <= k < a.len() && #[trigger] a[k] == v;
        assert(c[k] == v);
    }
    if member(b, v) {
        let k: int = choose|k: int| 0 <= k < b.len() && #[trigger] b[k] == v;
        assert(c[a.len() + k] == v);
    }
    if member(c, v) {
        let k: int = choose|k: int| 0 <= k < c.len() && #[trigger] c[k] == v;
        if k < a.len() {
            assert(a[k] == v);
        } else {
            assert(b[k - a.len()] == v);
        }
    }
}

/// What is in a merged group is in one of the components merged into it.
pub proof fn lemma_concat_member(components: Seq<Seq<usize>>, group: Seq<usize>, v: int)
    ensures
        member(concat_groups(components, group), v) <==> in_named(components, group, v),
    decreases group.len(),
{
    if group.len() > 0 {
        let head = group.drop_last();
        lemma_concat_member(components, head, v);
        lemma_member_concat(
            concat_groups(components, head),
            components[group.last() as int],
            v,
        );
        if in_named(components, head, v) {
            let k: int = choose|k: int|
                0 <= k < head.len() && member(components[(#[trigger] head[k]) as int], v);
            assert(group[k] == head[k]);
        }
        if member(components[group.last() as int], v) {
            assert(group[group.len() - 1] == group.last());
        }
        if in_named(components, group, v) {
            let k: int = choose|k: int|
                0 <= k < group.len() && member(components[(#[trigger] group[k]) as int], v);
            if k < head.len() {
                assert(head[k] == group[k]);
            }
        }
    }
}

/// A merged group starts as the first of its components does.
pub proof fn lemma_concat_first(components: Seq<Seq<usize>>, group: Seq<usize>)
    requires
        group.len() > 0,
        components[group[0] as int].len() > 0,
    ensures
        concat_groups(components, group).len() > 0,
        concat_groups(components, group)[0] == components[group[0] as int][0],
    decreases group.len(),
{
    let head = group.drop_last();
    if head.len() == 0 {
        assert(concat_groups(components, head) =~= Seq::<usize>::empty());
        assert(concat_groups(components, group) =~= components[group[0] as int]);
    } else {
        assert(head[0] == group[0]);
        lemma_concat_first(components, head);
    }
}

/// Merging different components of a partition repeats nothing.
pub proof fn lemma_concat_no_duplicates(components: Seq<Seq<usize>>, group: Seq<usize>, n: int)
    requires
        is_partition(components, n),
        group.no_duplicates(),
        forall|k: int| 0 <= k < group.len() ==> (#[trigger] group[k]) < components.len(),
    ensures
        concat_groups(components, group).no_duplicates(),
    decreases group.len(),
{
    if group.len() > 0 {
        let head = group.drop_last();
        let a = concat_groups(components, head);
        let b = components[group.last() as int];
        assert forall|k: int| 0 <= k < head.len() implies (#[trigger] head[k])
            < components.len() by {
            assert(head[k] == group[k]);
        }
        assert(head.no_duplicates()) by {
            assert forall|i: int, j: int|
                0 <= i < head.len() && 0 <= j < head.len() && i != j implies head[i] != head[j] by {
                assert(head[i] == group[i] && head[j] == group[j]);
            }
        }
        lemma_concat_no_duplicates(components, head, n);
        assert forall|i: int, j: int| 0 <= i < a.len() && 0 <= j < b.len() implies a[i]
            != b[j] by {
            if a[i] == b[j] {
                let v: int = a[i] as int;
                assert(member(a, v));
                assert(member(b, v));
                lemma_concat_member(components, head, v);
                let k: int = choose|k: int|
                    0 <= k < head.len() && member(components[(#[trigger] head[k]) as int], v);
                assert(in_group(components, head[k] as int, v));
                assert(in_group(components, group.last() as int, v));
                assert(group[k] == group[group.len() - 1]);
            }
        }
        lemma_no_dup_in_concat(a, b);
    }
}

/// In a partition the group of a vertex is the one that lists it.
pub proof fn lemma_group_of(groups: Seq<Seq<usize>>, n: int, c: int, v: int)
    requires
        is_partition(groups, n),
        in_group(groups, c, v),
    ensures
        group_of(groups, v) == c,
        0 <= v < n,
{
    assert(in_group(groups, group_of(groups, v), v));
    let k: int = choose|k: int| 0 <= k < groups[c].len() && #[trigger] groups[c][k] == v;
    assert(groups[c][k] < n);
}

/// Merging the groups of a partition as a partition of the groups says
/// gives a partition, in which two vertices are together exactly when the
/// plan puts their groups together.
pub proof fn lemma_merge_partition(components: Seq<Seq<usize>>, plan: Seq<Seq<usize>>, n: int)
    requires
        is_partition(components, n),
        is_partition(plan, components.len() as int),
    ensures
        is_partition(merge_by(components, plan), n),
        forall|g: int, v: int|
            0 <= g < plan.len() ==> (#[trigger] in_group(merge_by(components, plan), g, v)
                <==> in_named(components, plan[g], v)),
        forall|a: int, b: int|
            0 <= a < n && 0 <= b < n ==> (#[trigger] same_group(merge_by(components, plan), a, b)
                <==> same_group(plan, group_of(components, a), group_of(components, b))),
        least_first(components) && least_first(plan) ==> least_first(merge_by(components, plan)),
{
    let merged = merge_by(components, plan);
    let m = components.len() as int;
    assert forall|g: int, v: int| 0 <= g < plan.len() implies (#[trigger] in_group(merged, g, v)
        <==> in_named(components, plan[g], v)) by {
        lemma_concat_member(components, plan[g], v);
    }
    assert forall|g: int| 0 <= g < merged.len() implies (#[trigger] merged[g]).len() > 0
        && merged[g].no_duplicates() && merged[g][0] == components[plan[g][0] as int][0] by {
        assert(plan[g][0] < m);
        lemma_concat_first(components, plan[g]);
        lemma_concat_no_duplicates(components, plan[g], n);
    }
    assert forall|g: int, k: int| 0 <= g < merged.len() && 0 <= k < merged[g].len() implies (
    #[trigger] merged[g][k]) < n by {
        let v: int = merged[g][k] as int;
        assert(member(merged[g], v));
        assert(in_group(merged, g, v));
        let j: int = choose|j: int|
            0 <= j < plan[g].len() && member(components[(#[trigger] plan[g][j]) as int], v);
        assert(plan[g][j] < m);
        assert(in_group(components, plan[g][j] as int, v));
        lemma_group_of(components, n, plan[g][j] as int, v);
    }
    assert forall|g1: int, g2: int, v: int| #[trigger]
        in_group(merged, g1, v) && #[trigger] in_group(merged, g2, v) implies g1 == g2 by {
        let j1: int = choose|j: int|
            0 <= j < plan[g1].len() && member(components[(#[trigger] plan[g1][j]) as int], v);
        let j2: int = choose|j: int|
            0 <= j < plan[g2].len() && member(components[(#[trigger] plan[g2][j]) as int], v);
        assert(plan[g1][j1] < m && plan[g2][j2] < m);
        assert(in_group(components, plan[g1][j1] as int, v));
        assert(in_group(components, plan[g2][j2] as int, v));
        let c: int = plan[g1][j1] as int;
        assert(member(plan[g1], c));
        assert(member(plan[g2], c));
        assert(in_group(plan, g1, c) && in_group(plan, g2, c));
    }
    assert forall|v: int| 0 <= v < n implies #[trigger] in_some_group(merged, v) by {
        assert(in_some_group(components, v));
        let c: int = choose|c: int| in_group(components, c, v);
        assert(in_some_group(plan, c));
        let g: int = choose|g: int| in_group(plan, g, c);
        let j: int = choose|j: int| 0 <= j < plan[g].len() && #[trigger] plan[g][j] == c;
        assert(member(components[plan[g][j] as int], v));
        assert(in_named(components, plan[g], v));
        assert(in_group(merged, g, v));
    }
    assert(is_partition(merged, n));
    assert forall|a: int, b: int| 0 <= a < n && 0 <= b < n implies (#[trigger] same_group(
        merged,
        a,
        b,
    ) <==> same_group(plan, group_of(components, a), group_of(components, b))) by {
        assert(in_some_group(components, a));
        assert(in_some_group(components, b));
        let ca = group_of(components, a);
        let cb = group_of(components, b);
        assert(in_group(components, ca, a) && in_group(components, cb, b));
        if same_group(merged, a, b) {
            let g: int = choose|g: int| in_group(merged, g, a) && in_group(merged, g, b);
            let ja: int = choose|j: int|
                0 <= j < plan[g].len() && member(components[(#[trigger] plan[g][j]) as int], a);
            let jb: int = choose|j: int|
                0 <= j < plan[g].len() && member(components[(#[trigger] plan[g][j]) as int], b);
            assert(plan[g][ja] < m && plan[g][jb] < m);
            assert(in_group(components, plan[g][ja] as int, a));
            assert(in_group(components, plan[g][jb] as int, b));
            assert(plan[g][ja] == ca && plan[g][jb] == cb);
            assert(member(plan[g], ca) && member(plan[g], cb));
            assert(in_group(plan, g, ca) && in_group(plan, g, cb));
        }
        if same_group(plan, ca, cb) {
            let g: int = choose|g: int| in_group(plan, g, ca) && in_group(plan, g, cb);
            let ja: int = choose|j: int| 0 <= j < plan[g].len() && #[trigger] plan[g][j] == ca;
            let jb: int = choose|j: int| 0 <= j < plan[g].len() && #[trigger] plan[g][j] == cb;
            assert(member(components[plan[g][ja] as int], a));
            assert(member(components[plan[g][jb] as int], b));
            assert(in_named(components, plan[g], a) && in_named(components, plan[g], b));
            assert(in_group(merged, g, a) && in_group(merged, g, b));
        }
    }
    if least_first(components) && least_first(plan) {
        assert forall|c1: int, c2: int| 0 <= c1 <= c2 < m implies components[c1][0]
            <= components[c2][0] by {
            if c1 < c2 {
                assert(components[c1][0] < components[c2][0]);
            }
        }
        assert forall|g: int, k: int| 0 <= g < merged.len() && 0 <= k < merged[g].len() implies merged[g][0]
            <= #[trigger] merged[g][k] by {
            let v: int = merged[g][k] as int;
            assert(member(merged[g], v));
            assert(in_group(merged, g, v));
            let j: int = choose|j: int|
                0 <= j < plan[g].len() && member(components[(#[trigger] plan[g][j]) as int], v);
            let c: int = plan[g][j] as int;
            assert(plan[g][0] <= plan[g][j]);
            assert(plan[g][0] < m && c < m);
            let i: int = choose|i: int| 0 <= i < components[c].len() && #[trigger] components[c][i] == v;
            assert(components[c][0] <= components[c][i]);
            assert(components[plan[g][0] as int][0] <= components[c][0]);
        }
        assert forall|g1: int, g2: int| 0 <= g1 < g2 < merged.len() implies (
        #[trigger] merged[g1])[0] < (#[trigger] merged[g2])[0] by {
            assert(plan[g1][0] < plan[g2][0]);
            assert(plan[g1][0] < m && plan[g2][0] < m);
            assert(components[plan[g1][0] as int][0] < components[plan[g2][0] as int][0]);
        }
    }
}

} // verus!
