//! Connected components of an undirected graph given by adjacency lists,
//! found by flood fill with an explicit stack.

use crate::graph::{
    edge, edge_rel, in_group, in_some_group, is_components, is_partition, is_symmetric,
    is_undirected_graph, least_first, lemma_member_drop_last, lemma_member_push,
    lemma_nodup_len_bound, lemma_nodup_push, lemma_reachable_closed, lemma_reachable_refl,
    lemma_reachable_step, lemma_reachable_sym, lemma_reachable_trans, lemma_rows, member,
    reachable, same_group,
};
use vstd::prelude::*;

verus! {

/// What holds while one component is being explored from `start`: `before`
/// is the visited set at the outset, `comp` the vertices already taken off
/// the stack, `stk` the stack.
spec fn explore_inv(
    g: Seq<Seq<usize>>,
    before: Seq<bool>,
    vis: Seq<bool>,
    comp: Seq<usize>,
    stk: Seq<usize>,
    start: int,
) -> bool {
    let n = g.len() as int;
    &&& before.len() == n
    &&& vis.len() == n
    &&& 0 <= start < n
    &&& forall|k: int| 0 <= k < comp.len() ==> (#[trigger] comp[k]) < n
    &&& forall|k: int| 0 <= k < stk.len() ==> (#[trigger] stk[k]) < n
    &&& comp.no_duplicates()
    &&& stk.no_duplicates()
    &&& forall|v: int|
        #![trigger member(comp, v)]
        #![trigger member(stk, v)]
        !(member(comp, v) && member(stk, v))
    &&& forall|v: int|
        0 <= v < n ==> (#[trigger] vis[v] <==> before[v] || member(comp, v) || member(stk, v))
    &&& forall|v: int|
        #![trigger member(comp, v)]
        #![trigger member(stk, v)]
        (member(comp, v) || member(stk, v)) ==> 0 <= v < n && !before[v] && reachable(
            edge_rel(g),
            n,
            start,
            v,
        )
    &&& (comp.len() == 0 ==> stk =~= seq![start as usize])
    &&& (comp.len() > 0 ==> comp[0] == start)
}

/// Every neighbour of every explored vertex other than `skip` is visited.
spec fn neighbours_seen(g: Seq<Seq<usize>>, vis: Seq<bool>, comp: Seq<usize>, skip: int) -> bool {
    forall|u: int, k: int|
        member(comp, u) && u != skip && 0 <= u < g.len() && 0 <= k < g[u].len() ==> vis[(
        #[trigger] g[u][k]) as int]
}

/// The visited set is closed under the neighbour relation.
spec fn closed_under_edges(g: Seq<Seq<usize>>, vis: Seq<bool>) -> bool {
    forall|a: int, b: int|
        0 <= a < g.len() && 0 <= b < g.len() && vis[a] && #[trigger] edge(g, a, b) ==> vis[b]
}

/// Collects the vertices reachable from `start`, marking each as visited.
fn explore(adj: &Vec<Vec<usize>>, visited: &mut Vec<bool>, start: usize) -> (component: Vec<usize>)
    requires
        is_undirected_graph(adj.deep_view()),
        old(visited).len() == adj.len(),
        start < adj.len(),
        !old(visited)[start as int],
        closed_under_edges(adj.deep_view(), old(visited)@),
    ensures
        final(visited).len() == adj.len(),
        component.len() > 0,
        component[0] == start,
        component@.no_duplicates(),
        forall|k: int| 0 <= k < component.len() ==> (#[trigger] component[k]) < adj.len(),
        forall|v: int|
            0 <= v < adj.len() ==> (#[trigger] member(component@, v) <==> reachable(
                edge_rel(adj.deep_view()),
                adj.len() as int,
                start as int,
                v,
            )),
        forall|v: int|
            0 <= v < adj.len() ==> (#[trigger] final(visited)[v] <==> old(visited)[v] || member(
                component@,
                v,
            )),
        forall|v: int| #[trigger] member(component@, v) ==> 0 <= v < adj.len() && !old(visited)[v],
{
    let n: usize = adj.len();
    let ghost g = adj.deep_view();
    let ghost rel = edge_rel(g);
    let ghost before = visited@;
    proof {
        lemma_rows(adj);
        lemma_reachable_refl(rel, n as int, start as int);
    }
    let mut component: Vec<usize> = Vec::new();
    let mut stack: Vec<usize> = Vec::new();
    stack.push(start);
    visited[start] = true;
    proof {
        assert(stack@ =~= seq![start]);
        assert(stack@[0] == start);
        assert forall|v: int| member(stack@, v) <==> v == start by {
            if member(stack@, v) {
                let k: int = choose|k: int| 0 <= k < stack@.len() && stack@[k] == v;
            }
        }
        assert forall|v: int| !member(component@, v) by {}
    }
    while stack.len() > 0
        invariant
            n == adj.len(),
            g == adj.deep_view(),
            rel == edge_rel(g),
            g.len() == n,
            forall|a: int| 0 <= a < n ==> #[trigger] g[a] == adj@[a]@,
            is_undirected_graph(g),
            closed_under_edges(g, before),
            explore_inv(g, before, visited@, component@, stack@, start as int),
            neighbours_seen(g, visited@, component@, -1),
        decreases n - component.len(),
    {
        let ghost comp0 = component@;
        let ghost stk0 = stack@;
        let current: usize = stack.pop().unwrap();
        component.push(current);
        proof {
            assert(stack@ =~= stk0.drop_last());
            assert(current == stk0.last());
            assert(stk0[stk0.len() - 1] == current);
            assert(member(stk0, current as int));
            assert(!member(comp0, current as int));
            lemma_nodup_push(comp0, current);
            assert forall|k: int| 0 <= k < component@.len() implies (#[trigger] component@[k])
                < n by {
                if k < comp0.len() {
                    assert(component@[k] == comp0[k]);
                }
            }
            lemma_nodup_len_bound(component@, n as nat);
            assert forall|v: int|
                #![trigger member(component@, v)]
                #![trigger member(comp0, v)]
                member(component@, v) <==> member(comp0, v) || v == current by {
                lemma_member_push(comp0, current, v);
            }
            assert forall|v: int|
                #![trigger member(stk0, v)]
                #![trigger member(stack@, v)]
                member(stk0, v) <==> member(stack@, v) || v == current by {
                lemma_member_drop_last(stk0, v);
            }
            assert(!member(stack@, current as int)) by {
                if member(stack@, current as int) {
                    let k: int = choose|k: int| 0 <= k < stack@.len() && stack@[k] == current;
                    assert(stk0[k] == stk0[stk0.len() - 1]);
                }
            }
            assert(stack@.no_duplicates()) by {
                assert forall|i: int, j: int|
                    0 <= i < stack@.len() && 0 <= j < stack@.len() && i != j implies stack@[i]
                    != stack@[j] by {
                    assert(stack@[i] == stk0[i] && stack@[j] == stk0[j]);
                }
            }
            assert forall|k: int| 0 <= k < stack@.len() implies (#[trigger] stack@[k]) < n by {
                assert(stack@[k] == stk0[k]);
            }
            if comp0.len() == 0 {
                assert(stk0[0] == start);
            } else {
                assert(component@[0] == comp0[0]);
            }
            assert forall|v: int|
                #![trigger member(component@, v)]
                #![trigger member(stack@, v)]
                !(member(component@, v) && member(stack@, v)) by {}
            assert forall|v: int| 0 <= v < n implies (#[trigger] visited@[v] <==> before[v] || member(
                component@,
                v,
            ) || member(stack@, v)) by {}
            assert forall|v: int|
                #![trigger member(component@, v)]
                #![trigger member(stack@, v)]
                (member(component@, v) || member(stack@, v)) implies 0 <= v < n && !before[v]
                && reachable(edge_rel(g), n as int, start as int, v) by {}
            assert(explore_inv(g, before, visited@, component@, stack@, start as int));
            assert(neighbours_seen(g, visited@, component@, current as int)) by {
                assert forall|u: int, k: int|
                    member(component@, u) && u != current && 0 <= u < g.len() && 0 <= k
                        < g[u].len() implies visited@[(#[trigger] g[u][k]) as int] by {
                    assert(member(comp0, u));
                }
            }
        }
        let row: &Vec<usize> = &adj[current];
        let mut k: usize = 0;
        while k < row.len()
            invariant
                n == adj.len(),
                g == adj.deep_view(),
                rel == edge_rel(g),
                g.len() == n,
                forall|a: int| 0 <= a < n ==> #[trigger] g[a] == adj@[a]@,
                is_undirected_graph(g),
                closed_under_edges(g, before),
                current < n,
                row@ == g[current as int],
                k <= row.len(),
                component@.len() <= n,
                component@.len() > comp0.len(),
                member(component@, current as int),
                explore_inv(g, before, visited@, component@, stack@, start as int),
                neighbours_seen(g, visited@, component@, current as int),
                forall|j: int| 0 <= j < k ==> visited@[(#[trigger] row@[j]) as int],
            decreases row.len() - k,
        {
            let neighbor: usize = row[k];
            assert(g[current as int][k as int] < n);
            if !visited[neighbor] {
                let ghost vis1 = visited@;
                let ghost stk1 = stack@;
                visited[neighbor] = true;
                stack.push(neighbor);
                proof {
                    assert(visited@ =~= vis1.update(neighbor as int, true));
                    assert(!member(stk1, neighbor as int));
                    assert(!member(component@, neighbor as int));
                    lemma_nodup_push(stk1, neighbor);
                    assert forall|v: int|
                        #![trigger member(stack@, v)]
                        #![trigger member(stk1, v)]
                        member(stack@, v) <==> member(stk1, v) || v == neighbor by {
                        lemma_member_push(stk1, neighbor, v);
                    }
                    assert forall|j: int| 0 <= j < stack@.len() implies (#[trigger] stack@[j])
                        < n by {
                        if j < stk1.len() {
                            assert(stack@[j] == stk1[j]);
                        }
                    }
                    assert(edge(g, current as int, neighbor as int)) by {
                        assert(g[current as int][k as int] == neighbor);
                    }
                    assert(rel(current as int, neighbor as int));
                    lemma_reachable_step(
                        rel,
                        n as int,
                        start as int,
                        current as int,
                        neighbor as int,
                    );
                    assert forall|v: int|
                        #![trigger member(component@, v)]
                        #![trigger member(stack@, v)]
                        !(member(component@, v) && member(stack@, v)) by {}
                    assert forall|v: int| 0 <= v < n implies (#[trigger] visited@[v] <==> before[v] || member(
                        component@,
                        v,
                    ) || member(stack@, v)) by {}
                    assert forall|v: int|
                        #![trigger member(component@, v)]
                        #![trigger member(stack@, v)]
                        (member(component@, v) || member(stack@, v)) implies 0 <= v < n && !before[v]
                        && reachable(edge_rel(g), n as int, start as int, v) by {}
                    assert(explore_inv(g, before, visited@, component@, stack@, start as int));
                }
            }
            k += 1;
        }
        proof {
            assert(neighbours_seen(g, visited@, component@, -1)) by {
                assert forall|u: int, j: int|
                    member(component@, u) && u != -1 && 0 <= u < g.len() && 0 <= j
                        < g[u].len() implies visited@[(#[trigger] g[u][j]) as int] by {
                    if u == current {
                        assert(row@[j] == g[u][j]);
                    }
                }
            }
        }
    }
    proof {
        assert(stack@.len() == 0);
        assert(component@.len() > 0);
        assert forall|v: int| !member(stack@, v) by {}
        assert(member(component@, start as int)) by {
            assert(component@[0] == start);
        }
        let s = Set::new(|v: int| member(component@, v));
        assert forall|x: int, y: int|
            0 <= x < n && 0 <= y < n && s.contains(x) && #[trigger] rel(x, y) implies s.contains(
            y,
        ) by {
            assert(edge(g, x, y));
            let k: int = choose|k: int| 0 <= k < g[x].len() && g[x][k] == y;
            assert(visited@[g[x][k] as int]);
            if before[y] {
                assert(edge(g, y, x));
                assert(before[x]);
            }
        }
        assert forall|v: int| 0 <= v < n implies (#[trigger] member(component@, v) <==> reachable(
            rel,
            n as int,
            start as int,
            v,
        )) by {
            if reachable(rel, n as int, start as int, v) {
                lemma_reachable_closed(rel, n as int, s, start as int, v);
            }
        }
    }
    component
}

/// What holds of the components found once every vertex below `upto` has
/// been looked at.
spec fn found(
    g: Seq<Seq<usize>>,
    vis: Seq<bool>,
    groups: Seq<Seq<usize>>,
    upto: int,
) -> bool {
    let n = g.len() as int;
    &&& vis.len() == n
    &&& closed_under_edges(g, vis)
    &&& forall|v: int|
        #![trigger vis[v]]
        #![trigger in_some_group(groups, v)]
        0 <= v < n ==> (vis[v] <==> in_some_group(groups, v))
    &&& forall|v: int| 0 <= v < upto && v < n ==> #[trigger] vis[v]
    &&& forall|c: int| 0 <= c < groups.len() ==> (#[trigger] groups[c]).len() > 0
    &&& forall|c: int, k: int|
        0 <= c < groups.len() && 0 <= k < groups[c].len() ==> (#[trigger] groups[c][k]) < n
    &&& forall|c: int| 0 <= c < groups.len() ==> (#[trigger] groups[c]).no_duplicates()
    &&& forall|c1: int, c2: int, v: int|
        #[trigger] in_group(groups, c1, v) && #[trigger] in_group(groups, c2, v) ==> c1 == c2
    &&& forall|c: int, v: int|
        0 <= c < groups.len() && 0 <= v < n ==> (#[trigger] in_group(groups, c, v) <==> reachable(
            edge_rel(g),
            n,
            groups[c][0] as int,
            v,
        ))
    &&& forall|c: int| 0 <= c < groups.len() ==> (#[trigger] groups[c])[0] < upto
    &&& least_first(groups)
}

/// Splits the vertices of an undirected graph into its connected
/// components. Each component starts with its least vertex, and the
/// components come in the order of those vertices.
pub fn connected_components(adj: &Vec<Vec<usize>>) -> (comps: Vec<Vec<usize>>)
    requires
        is_undirected_graph(adj.deep_view()),
    ensures
        is_components(comps.deep_view(), edge_rel(adj.deep_view()), adj.len() as int),
{
    let n: usize = adj.len();
    let ghost g = adj.deep_view();
    let ghost rel = edge_rel(g);
    let mut visited: Vec<bool> = vec![false; n];
    let mut comps: Vec<Vec<usize>> = Vec::new();
    let mut start: usize = 0;
    proof {
        lemma_rows(adj);
        lemma_rows(&comps);
        assert forall|v: int| !in_some_group(comps.deep_view(), v) by {}
    }
    while start < n
        invariant
            n == adj.len(),
            g == adj.deep_view(),
            rel == edge_rel(g),
            g.len() == n,
            is_undirected_graph(g),
            start <= n,
            visited.len() == n,
            found(g, visited@, comps.deep_view(), start as int),
        decreases n - start,
    {
        if !visited[start] {
            let ghost before = visited@;
            let ghost groups0 = comps.deep_view();
            let component = explore(adj, &mut visited, start);
            let ghost comp = component@;
            comps.push(component);
            proof {
                let groups = comps.deep_view();
                let last = groups0.len() as int;
                lemma_rows(&comps);
                assert(groups =~= groups0.push(comp)) by {
                    assert(groups.len() == groups0.len() + 1);
                    assert forall|c: int| 0 <= c < groups.len() implies groups[c] == groups0.push(
                        comp,
                    )[c] by {
                        if c < last {
                            assert(groups0[c] =~= comps@[c]@);
                        }
                    }
                }
                assert forall|c: int, v: int|
                    #![trigger in_group(groups, c, v)]
                    #![trigger in_group(groups0, c, v)]
                    in_group(groups, c, v) <==> (in_group(groups0, c, v) || (c == last && member(
                        comp,
                        v,
                    ))) by {
                    if 0 <= c < last {
                        assert(groups[c] == groups0[c]);
                    }
                }
                assert forall|v: int|
                    #![trigger in_some_group(groups, v)]
                    #![trigger in_some_group(groups0, v)]
                    #![trigger member(comp, v)]
                    in_some_group(groups, v) <==> (in_some_group(groups0, v) || member(
                        comp,
                        v,
                    )) by {
                    if in_some_group(groups, v) {
                        let c: int = choose|c: int| in_group(groups, c, v);
                        if c < last {
                            assert(in_group(groups0, c, v));
                        }
                    }
                    if in_some_group(groups0, v) {
                        let c: int = choose|c: int| in_group(groups0, c, v);
                        assert(in_group(groups, c, v));
                    }
                    if member(comp, v) {
                        assert(in_group(groups, last, v));
                    }
                }
                // the enlarged visited set is still closed under edges
                assert(closed_under_edges(g, visited@)) by {
                    assert forall|a: int, b: int|
                        0 <= a < g.len() && 0 <= b < g.len() && visited@[a] && #[trigger] edge(
                            g,
                            a,
                            b,
                        ) implies visited@[b] by {
                        if before[a] {
                            assert(before[b]);
                        } else {
                            assert(member(comp, a));
                            assert(rel(a, b));
                            lemma_reachable_step(rel, n as int, start as int, a, b);
                            assert(member(comp, b));
                        }
                    }
                }
                assert forall|c1: int, c2: int, v: int|
                    #[trigger] in_group(groups, c1, v) && #[trigger] in_group(
                        groups,
                        c2,
                        v,
                    ) implies c1 == c2 by {
                    if c1 < last && c2 < last {
                        assert(in_group(groups0, c1, v) && in_group(groups0, c2, v));
                    } else if c1 < last {
                        assert(in_group(groups0, c1, v));
                        assert(in_some_group(groups0, v));
                        assert(before[v]);
                    } else if c2 < last {
                        assert(in_group(groups0, c2, v));
                        assert(in_some_group(groups0, v));
                        assert(before[v]);
                    }
                }
                assert forall|k: int| 0 <= k < comp.len() implies comp[0] <= #[trigger] comp[k] by {
                    assert(member(comp, comp[k] as int));
                    if comp[k] < start {
                        assert(before[comp[k] as int]);
                    }
                }
                assert(least_first(groups)) by {
                    assert forall|c: int, k: int|
                        0 <= c < groups.len() && 0 <= k < groups[c].len() implies groups[c][0]
                        <= #[trigger] groups[c][k] by {
                        if c < last {
                            assert(groups[c] == groups0[c]);
                        }
                    }
                    assert forall|c1: int, c2: int| 0 <= c1 < c2 < groups.len() implies (
                    #[trigger] groups[c1])[0] < (#[trigger] groups[c2])[0] by {
                        assert(groups[c1] == groups0[c1]);
                        if c2 < last {
                            assert(groups[c2] == groups0[c2]);
                        }
                    }
                }
                assert forall|c: int| 0 <= c < groups.len() implies (#[trigger] groups[c])[0]
                    < start + 1 by {
                    if c < last {
                        assert(groups[c] == groups0[c]);
                    }
                }
                assert forall|c: int, k: int|
                    0 <= c < groups.len() && 0 <= k < groups[c].len() implies (
                #[trigger] groups[c][k]) < n by {
                    if c < last {
                        assert(groups[c] == groups0[c]);
                    }
                }
                assert forall|c: int| 0 <= c < groups.len() implies (
                #[trigger] groups[c]).no_duplicates() && groups[c].len() > 0 by {
                    if c < last {
                        assert(groups[c] == groups0[c]);
                    }
                }
                assert forall|c: int, v: int| 0 <= c < groups.len() && 0 <= v < n implies (
                #[trigger] in_group(groups, c, v) <==> reachable(
                    edge_rel(g),
                    n as int,
                    groups[c][0] as int,
                    v,
                )) by {
                    if c < last {
                        assert(groups[c] == groups0[c]);
                        assert(in_group(groups0, c, v) <==> in_group(groups, c, v));
                    }
                }
                assert(found(g, visited@, groups, start + 1));
            }
        }
        start += 1;
    }
    proof {
        let groups = comps.deep_view();
        assert(is_partition(groups, n as int));
        assert forall|c: int, v: int| in_group(groups, c, v) implies 0 <= v < n by {
            let k: int = choose|k: int| 0 <= k < groups[c].len() && groups[c][k] == v;
            assert(groups[c][k] < n);
        }
        lemma_edge_rel_symmetric(g);
        assert forall|a: int, b: int| 0 <= a < n && 0 <= b < n implies (#[trigger] same_group(
            groups,
            a,
            b,
        ) <==> reachable(rel, n as int, a, b)) by {
            if same_group(groups, a, b) {
                let c: int = choose|c: int| in_group(groups, c, a) && in_group(groups, c, b);
                let f: int = groups[c][0] as int;
                lemma_reachable_sym(rel, n as int, f, a);
                lemma_reachable_trans(rel, n as int, a, f, b);
            }
            if reachable(rel, n as int, a, b) {
                assert(in_some_group(groups, a));
                let c: int = choose|c: int| in_group(groups, c, a);
                let f: int = groups[c][0] as int;
                lemma_reachable_trans(rel, n as int, f, a, b);
                assert(in_group(groups, c, b));
            }
        }
    }
    comps
}

/// The neighbour relation of an undirected graph is symmetric.
pub proof fn lemma_edge_rel_symmetric(g: Seq<Seq<usize>>)
    requires
        is_undirected_graph(g),
    ensures
        is_symmetric(edge_rel(g), g.len() as int),
{
    let rel = edge_rel(g);
    assert forall|x: int, y: int| 0 <= x < g.len() && 0 <= y < g.len() && #[trigger] rel(
        x,
        y,
    ) implies rel(y, x) by {
        assert(edge(g, x, y));
    }
}

} // verus!
