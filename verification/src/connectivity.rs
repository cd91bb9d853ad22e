//! Grouping segments by the nodes they share: two segments belong to the same
//! component when a chain of segments leads from one to the other in which
//! each shares a node with the next.

use crate::flood_fill::connected_components;
use crate::graph::{
    add_edge, edge, edge_rel, empty_rows, is_components, is_undirected_graph, lemma_member_push,
    lemma_reachable_lift, lemma_reachable_refl, lemma_reachable_step, lemma_rows, member,
    push_row, push_to_row, reachable, same_group,
};
use crate::segment::{node_lists, StreetSegment};
use std::collections::HashMap;
use vstd::prelude::*;

verus! {

broadcast use vstd::std_specs::hash::group_hash_axioms;

/// Whether the node `m` occurs in the list.
pub open spec fn has_node(a: Seq<i64>, m: i64) -> bool {
    exists|x: int| 0 <= x < a.len() && #[trigger] a[x] == m
}

/// Whether some node occurs in both lists.
pub open spec fn shares_node(a: Seq<i64>, b: Seq<i64>) -> bool {
    exists|x: int, y: int|
        #![trigger a[x], b[y]]
        0 <= x < a.len() && 0 <= y < b.len() && a[x] == b[y]
}

/// The relation between the places of two node lists that share a node.
pub open spec fn shares_node_rel(lists: Seq<Seq<i64>>) -> spec_fn(int, int) -> bool {
    |i: int, j: int|
        0 <= i < lists.len() && 0 <= j < lists.len() && shares_node(lists[i], lists[j])
}

/// Whether the bucket of node number `t` of list `s` lists `s`.
spec fn is_bucketed(
    lists: Seq<Seq<i64>>,
    buckets: Seq<Seq<usize>>,
    nodes: Seq<i64>,
    s: int,
    t: int,
) -> bool {
    exists|b: int|
        #![trigger nodes[b]]
        0 <= b < buckets.len() && nodes[b] == lists[s][t] && member(buckets[b], s)
}

/// The buckets list, for every node that occurs, the segments in which it
/// occurs; `nodes` names the node of each bucket.
spec fn is_node_index(lists: Seq<Seq<i64>>, buckets: Seq<Seq<usize>>, nodes: Seq<i64>) -> bool {
    &&& nodes.len() == buckets.len()
    &&& forall|b1: int, b2: int|
        0 <= b1 < nodes.len() && 0 <= b2 < nodes.len() && #[trigger] nodes[b1] == #[trigger] nodes[b2]
            ==> b1 == b2
    &&& forall|b: int, k: int|
        0 <= b < buckets.len() && 0 <= k < buckets[b].len() ==> (#[trigger] buckets[b][k])
            < lists.len() && has_node(lists[buckets[b][k] as int], nodes[b])
    &&& forall|s: int, t: int|
        0 <= s < lists.len() && 0 <= t < lists[s].len() ==> #[trigger] is_bucketed(
            lists,
            buckets,
            nodes,
            s,
            t,
        )
}

/// What holds of the node index when the first `i` lists and the first `j`
/// nodes of list `i` have been entered.
spec fn index_inv(
    lists: Seq<Seq<i64>>,
    index: Map<i64, usize>,
    buckets: Seq<Seq<usize>>,
    nodes: Seq<i64>,
    i: int,
    j: int,
) -> bool {
    &&& nodes.len() == buckets.len()
    &&& forall|m: i64| #[trigger]
        index.contains_key(m) ==> index[m] < buckets.len() && nodes[index[m] as int] == m
    &&& forall|b: int|
        0 <= b < nodes.len() ==> index.contains_key(#[trigger] nodes[b]) && index[nodes[b]] == b
    &&& forall|b: int, k: int|
        0 <= b < buckets.len() && 0 <= k < buckets[b].len() ==> (#[trigger] buckets[b][k])
            < lists.len() && has_node(lists[buckets[b][k] as int], nodes[b])
    &&& forall|s: int, t: int|
        0 <= s < lists.len() && 0 <= t < lists[s].len() && (s < i || (s == i && t < j))
            ==> index.contains_key(#[trigger] lists[s][t]) && member(
            buckets[index[lists[s][t]] as int],
            s,
        )
}

/// Builds the inverted index from nodes to the segments that reference them.
fn build_node_index(segments: &Vec<StreetSegment>) -> (res: (Vec<Vec<usize>>, Ghost<Seq<i64>>))
    ensures
        is_node_index(node_lists(segments.deep_view()), res.0.deep_view(), res.1@),
{
    let n: usize = segments.len();
    let ghost lists = node_lists(segments.deep_view());
    let mut index: HashMap<i64, usize> = HashMap::new();
    let mut buckets: Vec<Vec<usize>> = Vec::new();
    let ghost mut nodes: Seq<i64> = Seq::empty();
    let mut i: usize = 0;
    proof {
        lemma_rows(&buckets);
    }
    while i < n
        invariant
            n == segments.len(),
            lists == node_lists(segments.deep_view()),
            lists.len() == n,
            i <= n,
            index_inv(lists, index@, buckets.deep_view(), nodes, i as int, 0),
        decreases n - i,
    {
        let ids: &Vec<i64> = segments[i].node_ids();
        assert(ids@ == lists[i as int]);
        let mut j: usize = 0;
        while j < ids.len()
            invariant
                lists.len() == n,
                i < n,
                ids@ == lists[i as int],
                j <= ids.len(),
                index_inv(lists, index@, buckets.deep_view(), nodes, i as int, j as int),
            decreases ids.len() - j,
        {
            let node_id: i64 = ids[j];
            let ghost bk = buckets.deep_view();
            let ghost idx = index@;
            let ghost nodes0 = nodes;
            assert(lists[i as int][j as int] == node_id);
            match index.get(&node_id) {
                Some(b) => {
                    let b: usize = *b;
                    push_to_row(&mut buckets, b, i);
                    proof {
                        let bk2 = buckets.deep_view();
                        assert forall|c: int, v: int| 0 <= c < bk.len() && member(
                            bk[c],
                            v,
                        ) implies member(bk2[c], v) by {
                            if c == b {
                                lemma_member_push(bk[c], i, v);
                            }
                        }
                        assert(member(bk2[b as int], i as int)) by {
                            lemma_member_push(bk[b as int], i, i as int);
                        }
                        assert forall|c: int, k: int|
                            0 <= c < bk2.len() && 0 <= k < bk2[c].len() implies (
                        #[trigger] bk2[c][k]) < lists.len() && has_node(
                            lists[bk2[c][k] as int],
                            nodes[c],
                        ) by {
                            if c == b && k == bk[c].len() {
                                assert(bk2[c][k] == i);
                                assert(lists[i as int][j as int] == nodes[c]);
                            } else {
                                assert(bk2[c][k] == bk[c][k]);
                            }
                        }
                        assert forall|s: int, t: int|
                            0 <= s < lists.len() && 0 <= t < lists[s].len() && (s < i || (s == i
                                && t < j + 1)) implies idx.contains_key(#[trigger] lists[s][t])
                            && member(bk2[idx[lists[s][t]] as int], s) by {
                            if s == i && t == j {
                            } else {
                                assert(member(bk[idx[lists[s][t]] as int], s));
                            }
                        }
                    }
                },
                None => {
                    let fresh: usize = buckets.len();
                    index.insert(node_id, fresh);
                    let mut bucket: Vec<usize> = Vec::new();
                    bucket.push(i);
                    let ghost row = bucket@;
                    push_row(&mut buckets, bucket);
                    proof {
                        nodes = nodes.push(node_id);
                        let bk2 = buckets.deep_view();
                        let idx2 = index@;
                        assert(row[0] == i);
                        assert(member(row, i as int));
                        assert forall|m: i64| #[trigger] idx2.contains_key(m) implies idx2[m]
                            < bk2.len() && nodes[idx2[m] as int] == m by {
                            if m != node_id {
                                assert(idx.contains_key(m));
                            }
                        }
                        assert forall|b: int| 0 <= b < nodes.len() implies idx2.contains_key(
                            #[trigger] nodes[b],
                        ) && idx2[nodes[b]] == b by {
                            if b < nodes0.len() {
                                assert(nodes[b] == nodes0[b]);
                                assert(idx.contains_key(nodes0[b]));
                            }
                        }
                        assert forall|c: int, k: int|
                            0 <= c < bk2.len() && 0 <= k < bk2[c].len() implies (
                        #[trigger] bk2[c][k]) < lists.len() && has_node(
                            lists[bk2[c][k] as int],
                            nodes[c],
                        ) by {
                            if c == fresh {
                                assert(bk2[c][k] == i);
                                assert(lists[i as int][j as int] == nodes[c]);
                            } else {
                                assert(bk2[c][k] == bk[c][k]);
                                assert(nodes[c] == nodes0[c]);
                            }
                        }
                        assert forall|s: int, t: int|
                            0 <= s < lists.len() && 0 <= t < lists[s].len() && (s < i || (s == i
                                && t < j + 1)) implies idx2.contains_key(#[trigger] lists[s][t])
                            && member(bk2[idx2[lists[s][t]] as int], s) by {
                            if s == i && t == j {
                            } else {
                                assert(idx.contains_key(lists[s][t]));
                                assert(member(bk[idx[lists[s][t]] as int], s));
                                assert(bk2[idx[lists[s][t]] as int] == bk[idx[lists[s][t]] as int]);
                            }
                        }
                    }
                },
            }
            j += 1;
        }
        i += 1;
    }
    proof {
        let bk = buckets.deep_view();
        let idx = index@;
        assert forall|s: int, t: int|
            0 <= s < lists.len() && 0 <= t < lists[s].len() implies #[trigger] is_bucketed(
            lists,
            bk,
            nodes,
            s,
            t,
        ) by {
            let b: int = idx[lists[s][t]] as int;
            assert(idx.contains_key(lists[s][t]));
            assert(nodes[b] == lists[s][t] && member(bk[b], s));
        }
        assert forall|b1: int, b2: int|
            0 <= b1 < nodes.len() && 0 <= b2 < nodes.len() && #[trigger] nodes[b1]
                == #[trigger] nodes[b2] implies b1 == b2 by {
            assert(idx[nodes[b1]] == b1);
            assert(idx[nodes[b2]] == b2);
        }
        assert(is_node_index(lists, bk, nodes));
    }
    (buckets, Ghost(nodes))
}

/// Whether one bucket lists `a` and `c` at two different places.
spec fn linked(buckets: Seq<Seq<usize>>, a: int, c: int) -> bool {
    exists|b: int, x: int, y: int|
        #![trigger buckets[b][x], buckets[b][y]]
        0 <= b < buckets.len() && 0 <= x < buckets[b].len() && 0 <= y < buckets[b].len() && x != y
            && buckets[b][x] == a && buckets[b][y] == c
}

/// Whether the pair of places `(x1, y1)` of bucket `b1` comes before the pair
/// `(x, y)` of bucket `b` in the order in which the pairs are linked.
spec fn pair_before(b1: int, x1: int, y1: int, b: int, x: int, y: int) -> bool {
    b1 < b || (b1 == b && (x1 < x || (x1 == x && y1 < y)))
}

/// What holds of the adjacency lists when all pairs before `(x, y)` of
/// bucket `b` have been linked.
spec fn link_inv(buckets: Seq<Seq<usize>>, g: Seq<Seq<usize>>, b: int, x: int, y: int) -> bool {
    &&& forall|a: int, k: int|
        0 <= a < g.len() && 0 <= k < g[a].len() ==> (#[trigger] g[a][k]) < g.len()
    &&& forall|a: int, c: int| #[trigger] edge(g, a, c) ==> linked(buckets, a, c)
    &&& forall|b1: int, x1: int, y1: int|
        #![trigger buckets[b1][x1], buckets[b1][y1]]
        0 <= b1 < buckets.len() && 0 <= x1 < y1 < buckets[b1].len() && pair_before(
            b1,
            x1,
            y1,
            b,
            x,
            y,
        ) ==> edge(g, buckets[b1][x1] as int, buckets[b1][y1] as int) && edge(
            g,
            buckets[b1][y1] as int,
            buckets[b1][x1] as int,
        )
}

/// Links every two segments that one bucket lists at different places.
fn link_buckets(n: usize, buckets: &Vec<Vec<usize>>) -> (adj: Vec<Vec<usize>>)
    requires
        forall|b: int, k: int|
            0 <= b < buckets.deep_view().len() && 0 <= k < buckets.deep_view()[b].len() ==> (
            #[trigger] buckets.deep_view()[b][k]) < n,
    ensures
        adj.len() == n,
        is_undirected_graph(adj.deep_view()),
        forall|a: int, c: int|
            #![trigger edge(adj.deep_view(), a, c)]
            #![trigger linked(buckets.deep_view(), a, c)]
            edge(adj.deep_view(), a, c) <==> linked(buckets.deep_view(), a, c),
{
    let ghost bk = buckets.deep_view();
    let mut adj: Vec<Vec<usize>> = empty_rows(n);
    proof {
        lemma_rows(buckets);
        assert forall|a: int, c: int| !edge(adj.deep_view(), a, c) by {}
    }
    let mut b: usize = 0;
    while b < buckets.len()
        invariant
            bk == buckets.deep_view(),
            bk.len() == buckets.len(),
            forall|r: int| 0 <= r < buckets.len() ==> #[trigger] bk[r] == buckets@[r]@,
            forall|r: int, k: int| 0 <= r < bk.len() && 0 <= k < bk[r].len() ==> (#[trigger] bk[r][k]) < n,
            b <= buckets.len(),
            adj.len() == n,
            adj.deep_view().len() == n,
            link_inv(bk, adj.deep_view(), b as int, 0, 0),
        decreases buckets.len() - b,
    {
        let bucket: &Vec<usize> = &buckets[b];
        let mut x: usize = 0;
        while x < bucket.len()
            invariant
                bk.len() == buckets.len(),
                forall|r: int, k: int| 0 <= r < bk.len() && 0 <= k < bk[r].len() ==> (#[trigger] bk[r][k]) < n,
                b < buckets.len(),
                bucket@ == bk[b as int],
                x <= bucket.len(),
                adj.len() == n,
                adj.deep_view().len() == n,
                link_inv(bk, adj.deep_view(), b as int, x as int, 0),
            decreases bucket.len() - x,
        {
            let mut y: usize = x + 1;
            while y < bucket.len()
                invariant
                    bk.len() == buckets.len(),
                    forall|r: int, k: int| 0 <= r < bk.len() && 0 <= k < bk[r].len() ==> (#[trigger] bk[r][k]) < n,
                    b < buckets.len(),
                    bucket@ == bk[b as int],
                    x < bucket.len(),
                    x < y <= bucket.len(),
                    adj.len() == n,
                    adj.deep_view().len() == n,
                    link_inv(bk, adj.deep_view(), b as int, x as int, y as int),
                decreases bucket.len() - y,
            {
                let ghost g0 = adj.deep_view();
                let idx_x: usize = bucket[x];
                let idx_y: usize = bucket[y];
                assert(bk[b as int][x as int] == idx_x && bk[b as int][y as int] == idx_y);
                add_edge(&mut adj, idx_x, idx_y);
                proof {
                    let g = adj.deep_view();
                    assert(linked(bk, idx_x as int, idx_y as int));
                    assert(linked(bk, idx_y as int, idx_x as int));
                    assert forall|a: int, c: int| #[trigger] edge(g, a, c) implies linked(
                        bk,
                        a,
                        c,
                    ) by {
                        if edge(g0, a, c) {
                        }
                    }
                    assert forall|b1: int, x1: int, y1: int|
                        #![trigger bk[b1][x1], bk[b1][y1]]
                        0 <= b1 < bk.len() && 0 <= x1 < y1 < bk[b1].len() && pair_before(
                            b1,
                            x1,
                            y1,
                            b as int,
                            x as int,
                            y + 1,
                        ) implies edge(g, bk[b1][x1] as int, bk[b1][y1] as int) && edge(
                        g,
                        bk[b1][y1] as int,
                        bk[b1][x1] as int,
                    ) by {
                        if b1 == b && x1 == x && y1 == y {
                        } else {
                            assert(pair_before(b1, x1, y1, b as int, x as int, y as int));
                            assert(edge(g0, bk[b1][x1] as int, bk[b1][y1] as int));
                            assert(edge(g0, bk[b1][y1] as int, bk[b1][x1] as int));
                        }
                    }
                }
                y += 1;
            }
            proof {
                let g = adj.deep_view();
                assert forall|b1: int, x1: int, y1: int|
                    #![trigger bk[b1][x1], bk[b1][y1]]
                    0 <= b1 < bk.len() && 0 <= x1 < y1 < bk[b1].len() && pair_before(
                        b1,
                        x1,
                        y1,
                        b as int,
                        x + 1,
                        0,
                    ) implies edge(g, bk[b1][x1] as int, bk[b1][y1] as int) && edge(
                    g,
                    bk[b1][y1] as int,
                    bk[b1][x1] as int,
                ) by {
                    assert(pair_before(b1, x1, y1, b as int, x as int, y as int));
                }
            }
            x += 1;
        }
        proof {
            let g = adj.deep_view();
            assert forall|b1: int, x1: int, y1: int|
                #![trigger bk[b1][x1], bk[b1][y1]]
                0 <= b1 < bk.len() && 0 <= x1 < y1 < bk[b1].len() && pair_before(
                    b1,
                    x1,
                    y1,
                    b + 1,
                    0,
                    0,
                ) implies edge(g, bk[b1][x1] as int, bk[b1][y1] as int) && edge(
                g,
                bk[b1][y1] as int,
                bk[b1][x1] as int,
            ) by {
                assert(pair_before(b1, x1, y1, b as int, x as int, 0));
            }
        }
        b += 1;
    }
    proof {
        let g = adj.deep_view();
        assert forall|a: int, c: int| linked(bk, a, c) implies edge(g, a, c) by {
            let (b1, x1, y1): (int, int, int) = choose|b1: int, x1: int, y1: int|
                #![trigger bk[b1][x1], bk[b1][y1]]
                0 <= b1 < bk.len() && 0 <= x1 < bk[b1].len() && 0 <= y1 < bk[b1].len() && x1 != y1
                    && bk[b1][x1] == a && bk[b1][y1] == c;
            if x1 < y1 {
                assert(pair_before(b1, x1, y1, bk.len() as int, 0, 0));
                assert(edge(g, bk[b1][x1] as int, bk[b1][y1] as int));
            } else {
                assert(pair_before(b1, y1, x1, bk.len() as int, 0, 0));
                assert(edge(g, bk[b1][x1] as int, bk[b1][y1] as int));
            }
        }
        assert forall|a: int, c: int| #[trigger] edge(g, a, c) implies edge(g, c, a) by {
            assert(linked(bk, a, c));
            let (b1, x1, y1): (int, int, int) = choose|b1: int, x1: int, y1: int|
                #![trigger bk[b1][x1], bk[b1][y1]]
                0 <= b1 < bk.len() && 0 <= x1 < bk[b1].len() && 0 <= y1 < bk[b1].len() && x1 != y1
                    && bk[b1][x1] == a && bk[b1][y1] == c;
            assert(bk[b1][y1] == c && bk[b1][x1] == a);
            assert(linked(bk, c, a));
        }
    }
    adj
}

/// Two segments linked through a bucket share the node of that bucket, and
/// two different segments that share a node are linked.
proof fn lemma_linked_iff_shares(
    lists: Seq<Seq<i64>>,
    buckets: Seq<Seq<usize>>,
    nodes: Seq<i64>,
    a: int,
    c: int,
)
    requires
        is_node_index(lists, buckets, nodes),
        0 <= a < lists.len(),
        0 <= c < lists.len(),
    ensures
        linked(buckets, a, c) ==> shares_node(lists[a], lists[c]),
        shares_node(lists[a], lists[c]) && a != c ==> linked(buckets, a, c),
{
    if linked(buckets, a, c) {
        let (b, x, y): (int, int, int) = choose|b: int, x: int, y: int|
            #![trigger buckets[b][x], buckets[b][y]]
            0 <= b < buckets.len() && 0 <= x < buckets[b].len() && 0 <= y < buckets[b].len() && x
                != y && buckets[b][x] == a && buckets[b][y] == c;
        assert(has_node(lists[buckets[b][x] as int], nodes[b]));
        assert(has_node(lists[buckets[b][y] as int], nodes[b]));
        let p: int = choose|p: int| 0 <= p < lists[a].len() && lists[a][p] == nodes[b];
        let q: int = choose|q: int| 0 <= q < lists[c].len() && lists[c][q] == nodes[b];
        assert(lists[a][p] == lists[c][q]);
    }
    if shares_node(lists[a], lists[c]) && a != c {
        let (p, q): (int, int) = choose|p: int, q: int|
            #![trigger lists[a][p], lists[c][q]]
            0 <= p < lists[a].len() && 0 <= q < lists[c].len() && lists[a][p] == lists[c][q];
        assert(is_bucketed(lists, buckets, nodes, a, p));
        assert(is_bucketed(lists, buckets, nodes, c, q));
        let b1: int = choose|b: int|
            #![trigger nodes[b]]
            0 <= b < buckets.len() && nodes[b] == lists[a][p] && member(buckets[b], a);
        let b2: int = choose|b: int|
            #![trigger nodes[b]]
            0 <= b < buckets.len() && nodes[b] == lists[c][q] && member(buckets[b], c);
        assert(nodes[b1] == nodes[b2]);
        assert(b1 == b2);
        let x: int = choose|x: int| 0 <= x < buckets[b1].len() && buckets[b1][x] == a;
        let y: int = choose|y: int| 0 <= y < buckets[b1].len() && buckets[b1][y] == c;
        assert(buckets[b1][x] == a && buckets[b1][y] == c && x != y);
    }
}

/// Groups the segments into connected components by the nodes they share.
/// Each component lists the places of its segments, starting with the least;
/// the components come in the order of their least places.
pub fn find_connected_components(segments: &Vec<StreetSegment>) -> (components: Vec<Vec<usize>>)
    ensures
        is_components(
            components.deep_view(),
            shares_node_rel(node_lists(segments.deep_view())),
            segments.len() as int,
        ),
{
    let n: usize = segments.len();
    let ghost lists = node_lists(segments.deep_view());
    let (buckets, Ghost(nodes)) = build_node_index(segments);
    let adj = link_buckets(n, &buckets);
    let components = connected_components(&adj);
    proof {
        let bk = buckets.deep_view();
        let g = adj.deep_view();
        let groups = components.deep_view();
        let by_edge = edge_rel(g);
        let by_node = shares_node_rel(lists);
        assert forall|x: int, y: int| 0 <= x < n && 0 <= y < n && #[trigger] by_edge(
            x,
            y,
        ) implies reachable(by_node, n as int, x, y) by {
            assert(edge(g, x, y));
            lemma_linked_iff_shares(lists, bk, nodes, x, y);
            assert(by_node(x, y));
            lemma_reachable_refl(by_node, n as int, x);
            lemma_reachable_step(by_node, n as int, x, x, y);
        }
        assert forall|x: int, y: int| 0 <= x < n && 0 <= y < n && #[trigger] by_node(
            x,
            y,
        ) implies reachable(by_edge, n as int, x, y) by {
            lemma_reachable_refl(by_edge, n as int, x);
            if x != y {
                lemma_linked_iff_shares(lists, bk, nodes, x, y);
                assert(edge(g, x, y));
                assert(by_edge(x, y));
                lemma_reachable_step(by_edge, n as int, x, x, y);
            }
        }
        assert forall|a: int, b: int| 0 <= a < n && 0 <= b < n implies (#[trigger] same_group(
            groups,
            a,
            b,
        ) <==> reachable(by_node, n as int, a, b)) by {
            if reachable(by_edge, n as int, a, b) {
                lemma_reachable_lift(by_edge, by_node, n as int, a, b);
            }
            if reachable(by_node, n as int, a, b) {
                lemma_reachable_lift(by_node, by_edge, n as int, a, b);
            }
        }
    }
    components
}

} // verus!
