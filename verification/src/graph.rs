//! Undirected graphs on the vertices `0..n`: paths, reachability, partitions
//! of the vertex set, and tables of adjacency lists.

use vstd::prelude::*;

verus! {

/// Whether the number `v` occurs in `s`.
pub open spec fn member(s: Seq<usize>, v: int) -> bool {
    exists|k: int| 0 <= k < s.len() && #[trigger] s[k] == v
}

/// A non-empty walk through the vertices `0..n` in which every step is
/// related by `rel`.
pub open spec fn is_path(rel: spec_fn(int, int) -> bool, n: int, p: Seq<int>) -> bool {
    &&& p.len() >= 1
    &&& forall|k: int| 0 <= k < p.len() ==> 0 <= #[trigger] p[k] < n
    &&& forall|k: int| 0 <= k < p.len() - 1 ==> rel(#[trigger] p[k], p[k + 1])
}

/// Whether `b` can be reached from `a` by zero or more steps of `rel`,
/// visiting only vertices in `0..n`.
pub open spec fn reachable(rel: spec_fn(int, int) -> bool, n: int, a: int, b: int) -> bool {
    exists|p: Seq<int>| #[trigger] is_path(rel, n, p) && p[0] == a && p[p.len() - 1] == b
}

/// Whether `rel` relates vertices of `0..n` in both directions or not at all.
pub open spec fn is_symmetric(rel: spec_fn(int, int) -> bool, n: int) -> bool {
    forall|x: int, y: int| 0 <= x < n && 0 <= y < n && #[trigger] rel(x, y) ==> rel(y, x)
}

/// Whether vertex `v` is listed in group number `c`.
pub open spec fn in_group(groups: Seq<Seq<usize>>, c: int, v: int) -> bool {
    0 <= c < groups.len() && member(groups[c], v)
}

/// Whether some group lists vertex `v`.
pub open spec fn in_some_group(groups: Seq<Seq<usize>>, v: int) -> bool {
    exists|c: int| in_group(groups, c, v)
}

/// Whether one group lists both `a` and `b`.
pub open spec fn same_group(groups: Seq<Seq<usize>>, a: int, b: int) -> bool {
    exists|c: int| in_group(groups, c, a) && in_group(groups, c, b)
}

/// The groups are non-empty, list only vertices of `0..n`, and every vertex
/// of `0..n` is listed exactly once overall.
pub open spec fn is_partition(groups: Seq<Seq<usize>>, n: int) -> bool {
    &&& forall|c: int| 0 <= c < groups.len() ==> (#[trigger] groups[c]).len() > 0
    &&& forall|c: int, k: int|
        0 <= c < groups.len() && 0 <= k < groups[c].len() ==> (#[trigger] groups[c][k]) < n
    &&& forall|c: int| 0 <= c < groups.len() ==> (#[trigger] groups[c]).no_duplicates()
    &&& forall|c1: int, c2: int, v: int|
        #[trigger] in_group(groups, c1, v) && #[trigger] in_group(groups, c2, v) ==> c1 == c2
    &&& forall|v: int| 0 <= v < n ==> #[trigger] in_some_group(groups, v)
}

/// Every group starts with its least vertex, and the groups are ordered by
/// that vertex.
pub open spec fn least_first(groups: Seq<Seq<usize>>) -> bool {
    &&& forall|c: int, k: int|
        0 <= c < groups.len() && 0 <= k < groups[c].len() ==> groups[c][0] <= #[trigger] groups[c][k]
    &&& forall|c1: int, c2: int|
        0 <= c1 < c2 < groups.len() ==> (#[trigger] groups[c1])[0] < (#[trigger] groups[c2])[0]
}

/// The groups are exactly the classes of mutual reachability under `rel`.
pub open spec fn is_components(
    groups: Seq<Seq<usize>>,
    rel: spec_fn(int, int) -> bool,
    n: int,
) -> bool {
    &&& is_partition(groups, n)
    &&& least_first(groups)
    &&& forall|a: int, b: int|
        0 <= a < n && 0 <= b < n ==> (#[trigger] same_group(groups, a, b) <==> reachable(
            rel,
            n,
            a,
            b,
        ))
}

/// Whether the adjacency lists give `b` as a neighbour of `a`.
pub open spec fn edge(adj: Seq<Seq<usize>>, a: int, b: int) -> bool {
    0 <= a < adj.len() && member(adj[a], b)
}

/// The neighbour relation of the adjacency lists.
pub open spec fn edge_rel(adj: Seq<Seq<usize>>) -> spec_fn(int, int) -> bool {
    |a: int, b: int| edge(adj, a, b)
}

/// Adjacency lists of an undirected graph: every neighbour is a vertex, and
/// every edge is listed from both ends.
pub open spec fn is_undirected_graph(adj: Seq<Seq<usize>>) -> bool {
    &&& forall|a: int, k: int|
        0 <= a < adj.len() && 0 <= k < adj[a].len() ==> (#[trigger] adj[a][k]) < adj.len()
    &&& forall|a: int, b: int| #[trigger] edge(adj, a, b) ==> edge(adj, b, a)
}

/// What occurs in a list with one more entry occurs in the list or is the
/// entry.
pub proof fn lemma_member_push(s: Seq<usize>, x: usize, v: int)
    ensures
        member(s.push(x), v) <==> (member(s, v) || v == x),
{
    let t = s.push(x);
    if member(s, v) {
        let k: int = choose|k: int| 0 <= k < s.len() && s[k] == v;
        assert(t[k] == v);
    }
    if v == x {
        assert(t[s.len() as int] == v);
    }
    if member(t, v) {
        let k: int = choose|k: int| 0 <= k < t.len() && t[k] == v;
        if k < s.len() {
            assert(s[k] == v);
        }
    }
}

/// What occurs in a list occurs before its last entry or is the last entry.
pub proof fn lemma_member_drop_last(s: Seq<usize>, v: int)
    requires
        s.len() > 0,
    ensures
        member(s, v) <==> (member(s.drop_last(), v) || v == s.last()),
{
    let t = s.drop_last();
    if member(t, v) {
        let k: int = choose|k: int| 0 <= k < t.len() && t[k] == v;
        assert(s[k] == v);
    }
    if v == s.last() {
        assert(s[s.len() - 1] == v);
    }
    if member(s, v) {
        let k: int = choose|k: int| 0 <= k < s.len() && s[k] == v;
        if k < t.len() {
            assert(t[k] == v);
        }
    }
}

/// A list without repetitions stays so when an entry is added that does not
/// occur in it.
pub proof fn lemma_nodup_push(s: Seq<usize>, x: usize)
    requires
        s.no_duplicates(),
        !member(s, x as int),
    ensures
        s.push(x).no_duplicates(),
{
    let t = s.push(x);
    assert forall|i: int, j: int| 0 <= i < t.len() && 0 <= j < t.len() && i != j implies t[i]
        != t[j] by {
        if i < s.len() && j < s.len() {
            assert(s[i] != s[j]);
        } else if i < s.len() {
            assert(s[i] != x);
        } else {
            assert(s[j] != x);
        }
    }
}

/// A list without repetitions whose entries are all below `n` has at most
/// `n` entries.
pub proof fn lemma_nodup_len_bound(s: Seq<usize>, n: nat)
    requires
        s.no_duplicates(),
        forall|k: int| 0 <= k < s.len() ==> (#[trigger] s[k]) < n,
    ensures
        s.len() <= n,
    decreases n,
{
    if s.len() > 0 {
        if n == 0 {
            assert(s[0] < 0);
        } else {
            let m: nat = (n - 1) as nat;
            if exists|i: int| 0 <= i < s.len() && #[trigger] s[i] == m {
                let i: int = choose|i: int| 0 <= i < s.len() && #[trigger] s[i] == m;
                let t = s.remove(i);
                assert forall|k: int| 0 <= k < t.len() implies (#[trigger] t[k]) < m by {
                    if k < i {
                        assert(t[k] == s[k]);
                        assert(s[k] != s[i]);
                    } else {
                        assert(t[k] == s[k + 1]);
                        assert(s[k + 1] != s[i]);
                    }
                }
                assert forall|a: int, b: int|
                    0 <= a < t.len() && 0 <= b < t.len() && a != b implies t[a] != t[b] by {
                    let a2: int = if a < i { a } else { a + 1 };
                    let b2: int = if b < i { b } else { b + 1 };
                    assert(t[a] == s[a2]);
                    assert(t[b] == s[b2]);
                    assert(s[a2] != s[b2]);
                }
                lemma_nodup_len_bound(t, m);
            } else {
                assert forall|k: int| 0 <= k < s.len() implies (#[trigger] s[k]) < m by {
                    assert(s[k] != m);
                }
                lemma_nodup_len_bound(s, m);
            }
        }
    }
}

/// Every vertex reaches itself.
pub proof fn lemma_reachable_refl(rel: spec_fn(int, int) -> bool, n: int, a: int)
    requires
        0 <= a < n,
    ensures
        reachable(rel, n, a, a),
{
    let p = seq![a];
    assert(is_path(rel, n, p));
    assert(p[0] == a && p[p.len() - 1] == a);
}

/// A path may be extended by one more step.
pub proof fn lemma_reachable_step(rel: spec_fn(int, int) -> bool, n: int, a: int, b: int, c: int)
    requires
        reachable(rel, n, a, b),
        0 <= c < n,
        rel(b, c),
    ensures
        reachable(rel, n, a, c),
{
    let p = choose|p: Seq<int>| #[trigger] is_path(rel, n, p) && p[0] == a && p[p.len() - 1] == b;
    let q = p.push(c);
    assert forall|k: int| 0 <= k < q.len() - 1 implies rel(#[trigger] q[k], q[k + 1]) by {
        if k < p.len() - 1 {
            assert(q[k] == p[k] && q[k + 1] == p[k + 1]);
        } else {
            assert(q[k] == b && q[k + 1] == c);
        }
    }
    assert(is_path(rel, n, q));
    assert(q[0] == a && q[q.len() - 1] == c);
}

/// What reaches the start of a path reaches every vertex on it.
proof fn lemma_reachable_along(
    rel: spec_fn(int, int) -> bool,
    n: int,
    a: int,
    q: Seq<int>,
    i: int,
)
    requires
        is_path(rel, n, q),
        reachable(rel, n, a, q[0]),
        0 <= i < q.len(),
    ensures
        reachable(rel, n, a, q[i]),
    decreases i,
{
    if i > 0 {
        lemma_reachable_along(rel, n, a, q, i - 1);
        assert(rel(q[i - 1], q[i - 1 + 1]));
        lemma_reachable_step(rel, n, a, q[i - 1], q[i]);
    }
}

/// Reachability is transitive.
pub proof fn lemma_reachable_trans(rel: spec_fn(int, int) -> bool, n: int, a: int, b: int, c: int)
    requires
        reachable(rel, n, a, b),
        reachable(rel, n, b, c),
    ensures
        reachable(rel, n, a, c),
{
    let q = choose|q: Seq<int>| #[trigger] is_path(rel, n, q) && q[0] == b && q[q.len() - 1] == c;
    lemma_reachable_along(rel, n, a, q, q.len() - 1);
}

/// Under a symmetric relation every vertex on a path reaches its start.
proof fn lemma_reachable_back(rel: spec_fn(int, int) -> bool, n: int, p: Seq<int>, i: int)
    requires
        is_symmetric(rel, n),
        is_path(rel, n, p),
        0 <= i < p.len(),
    ensures
        reachable(rel, n, p[i], p[0]),
    decreases i,
{
    if i == 0 {
        lemma_reachable_refl(rel, n, p[0]);
    } else {
        lemma_reachable_back(rel, n, p, i - 1);
        assert(rel(p[i - 1], p[i - 1 + 1]));
        assert(rel(p[i], p[i - 1]));
        lemma_reachable_refl(rel, n, p[i]);
        lemma_reachable_step(rel, n, p[i], p[i], p[i - 1]);
        lemma_reachable_trans(rel, n, p[i], p[i - 1], p[0]);
    }
}

/// Under a symmetric relation reachability is symmetric.
pub proof fn lemma_reachable_sym(rel: spec_fn(int, int) -> bool, n: int, a: int, b: int)
    requires
        is_symmetric(rel, n),
        reachable(rel, n, a, b),
    ensures
        reachable(rel, n, b, a),
{
    let p = choose|p: Seq<int>| #[trigger] is_path(rel, n, p) && p[0] == a && p[p.len() - 1] == b;
    lemma_reachable_back(rel, n, p, p.len() - 1);
}

/// A closed set that contains the start of a path contains every vertex on
/// it.
proof fn lemma_closed_along(
    rel: spec_fn(int, int) -> bool,
    n: int,
    s: Set<int>,
    p: Seq<int>,
    i: int,
)
    requires
        is_path(rel, n, p),
        s.contains(p[0]),
        forall|x: int, y: int|
            0 <= x < n && 0 <= y < n && s.contains(x) && #[trigger] rel(x, y) ==> s.contains(y),
        0 <= i < p.len(),
    ensures
        s.contains(p[i]),
    decreases i,
{
    if i > 0 {
        lemma_closed_along(rel, n, s, p, i - 1);
        assert(rel(p[i - 1], p[i - 1 + 1]));
    }
}

/// A set that is closed under `rel` contains whatever is reachable from one
/// of its members.
pub proof fn lemma_reachable_closed(
    rel: spec_fn(int, int) -> bool,
    n: int,
    s: Set<int>,
    a: int,
    b: int,
)
    requires
        s.contains(a),
        forall|x: int, y: int|
            0 <= x < n && 0 <= y < n && s.contains(x) && #[trigger] rel(x, y) ==> s.contains(y),
        reachable(rel, n, a, b),
    ensures
        s.contains(b),
{
    let p = choose|p: Seq<int>| #[trigger] is_path(rel, n, p) && p[0] == a && p[p.len() - 1] == b;
    lemma_closed_along(rel, n, s, p, p.len() - 1);
}

/// The start of a path of the one relation reaches every vertex on it by
/// the other.
proof fn lemma_lift_along(
    rel1: spec_fn(int, int) -> bool,
    rel2: spec_fn(int, int) -> bool,
    n: int,
    p: Seq<int>,
    i: int,
)
    requires
        is_path(rel1, n, p),
        forall|x: int, y: int|
            0 <= x < n && 0 <= y < n && #[trigger] rel1(x, y) ==> reachable(rel2, n, x, y),
        0 <= i < p.len(),
    ensures
        reachable(rel2, n, p[0], p[i]),
    decreases i,
{
    if i == 0 {
        lemma_reachable_refl(rel2, n, p[0]);
    } else {
        lemma_lift_along(rel1, rel2, n, p, i - 1);
        assert(rel1(p[i - 1], p[i - 1 + 1]));
        lemma_reachable_trans(rel2, n, p[0], p[i - 1], p[i]);
    }
}

/// If every step of `rel1` can be walked in steps of `rel2`, then so can
/// every path of `rel1`.
pub proof fn lemma_reachable_lift(
    rel1: spec_fn(int, int) -> bool,
    rel2: spec_fn(int, int) -> bool,
    n: int,
    a: int,
    b: int,
)
    requires
        forall|x: int, y: int|
            0 <= x < n && 0 <= y < n && #[trigger] rel1(x, y) ==> reachable(rel2, n, x, y),
        reachable(rel1, n, a, b),
    ensures
        reachable(rel2, n, a, b),
{
    let p = choose|p: Seq<int>| #[trigger] is_path(rel1, n, p) && p[0] == a && p[p.len() - 1] == b;
    lemma_lift_along(rel1, rel2, n, p, p.len() - 1);
}

/// A single step is a path.
pub proof fn lemma_reachable_one(rel: spec_fn(int, int) -> bool, n: int, a: int, b: int)
    requires
        0 <= a < n,
        0 <= b < n,
        rel(a, b),
    ensures
        reachable(rel, n, a, b),
{
    lemma_reachable_refl(rel, n, a);
    lemma_reachable_step(rel, n, a, a, b);
}

/// Relations that agree on `0..n` give the same reachability.
pub proof fn lemma_reachable_same(
    rel1: spec_fn(int, int) -> bool,
    rel2: spec_fn(int, int) -> bool,
    n: int,
    a: int,
    b: int,
)
    requires
        forall|x: int, y: int| 0 <= x < n && 0 <= y < n ==> #[trigger] rel1(x, y) == rel2(x, y),
    ensures
        reachable(rel1, n, a, b) == reachable(rel2, n, a, b),
{
    assert forall|x: int, y: int| 0 <= x < n && 0 <= y < n && #[trigger] rel1(x, y) implies reachable(
        rel2,
        n,
        x,
        y,
    ) by {
        lemma_reachable_one(rel2, n, x, y);
    }
    assert forall|x: int, y: int| 0 <= x < n && 0 <= y < n && #[trigger] rel2(x, y) implies reachable(
        rel1,
        n,
        x,
        y,
    ) by {
        assert(rel1(x, y) == rel2(x, y));
        lemma_reachable_one(rel1, n, x, y);
    }
    if reachable(rel1, n, a, b) {
        lemma_reachable_lift(rel1, rel2, n, a, b);
    }
    if reachable(rel2, n, a, b) {
        lemma_reachable_lift(rel2, rel1, n, a, b);
    }
}

/// The rows of a table, each seen as a sequence.
pub open spec fn rows(table: Seq<Vec<usize>>) -> Seq<Seq<usize>> {
    Seq::new(table.len(), |i: int| table[i]@)
}

/// The deep view of a table is the sequence of its rows.
pub proof fn lemma_rows(v: &Vec<Vec<usize>>)
    ensures
        v.deep_view() == rows(v@),
        v.deep_view().len() == v@.len(),
        forall|i: int| 0 <= i < v@.len() ==> #[trigger] v.deep_view()[i] == v@[i]@,
{
    assert forall|i: int| 0 <= i < v@.len() implies #[trigger] v.deep_view()[i] == v@[i]@ by {
        assert(v.deep_view()[i] =~= v@[i]@);
    }
    assert(v.deep_view() =~= rows(v@));
}

/// A table of `n` empty rows.
pub fn empty_rows(n: usize) -> (table: Vec<Vec<usize>>)
    ensures
        table.len() == n,
        table.deep_view().len() == n,
        forall|i: int| 0 <= i < n ==> (#[trigger] table.deep_view()[i]).len() == 0,
{
    let mut table: Vec<Vec<usize>> = Vec::new();
    let mut i: usize = 0;
    while i < n
        invariant
            i <= n,
            table.len() == i,
            forall|k: int| 0 <= k < i ==> (#[trigger] table@[k])@.len() == 0,
        decreases n - i,
    {
        table.push(Vec::new());
        i += 1;
    }
    proof {
        lemma_rows(&table);
    }
    table
}

/// Appends `value` to row `r` of the table.
pub fn push_to_row(table: &mut Vec<Vec<usize>>, r: usize, value: usize)
    requires
        r < old(table).len(),
    ensures
        final(table).len() == old(table).len(),
        final(table).deep_view() == old(table).deep_view().update(
            r as int,
            old(table).deep_view()[r as int].push(value),
        ),
{
    let ghost before = table.deep_view();
    proof {
        lemma_rows(table);
    }
    table[r].push(value);
    proof {
        lemma_rows(table);
        assert(table.deep_view() =~= before.update(r as int, before[r as int].push(value)));
    }
}

/// Appends a row to the table.
pub fn push_row(table: &mut Vec<Vec<usize>>, row: Vec<usize>)
    ensures
        final(table).len() == old(table).len() + 1,
        final(table).deep_view() == old(table).deep_view().push(row@),
{
    let ghost before = table.deep_view();
    let ghost r = row@;
    proof {
        lemma_rows(table);
    }
    table.push(row);
    proof {
        lemma_rows(table);
        assert(table.deep_view() =~= before.push(r));
    }
}

/// Adds the edge between `a` and `c`, in both directions.
pub fn add_edge(adj: &mut Vec<Vec<usize>>, a: usize, c: usize)
    requires
        a < old(adj).len(),
        c < old(adj).len(),
        forall|u: int, k: int|
            0 <= u < old(adj).deep_view().len() && 0 <= k < old(adj).deep_view()[u].len() ==> (
            #[trigger] old(adj).deep_view()[u][k]) < old(adj).len(),
    ensures
        final(adj).len() == old(adj).len(),
        final(adj).deep_view().len() == old(adj).len(),
        forall|u: int, k: int|
            0 <= u < final(adj).deep_view().len() && 0 <= k < final(adj).deep_view()[u].len() ==> (
            #[trigger] final(adj).deep_view()[u][k]) < old(adj).len(),
        forall|u: int, v: int|
            #![trigger edge(final(adj).deep_view(), u, v)]
            #![trigger edge(old(adj).deep_view(), u, v)]
            edge(final(adj).deep_view(), u, v) <==> (edge(old(adj).deep_view(), u, v) || (u == a
                && v == c) || (u == c && v == a)),
{
    let ghost g0 = adj.deep_view();
    proof {
        lemma_rows(adj);
    }
    push_to_row(adj, a, c);
    let ghost g1 = adj.deep_view();
    push_to_row(adj, c, a);
    let ghost g2 = adj.deep_view();
    proof {
        assert forall|u: int, v: int|
            #![trigger edge(g2, u, v)]
            #![trigger edge(g0, u, v)]
            edge(g2, u, v) <==> (edge(g0, u, v) || (u == a && v == c) || (u == c && v == a)) by {
            if 0 <= u < g0.len() {
                lemma_member_push(g0[u], c, v);
                lemma_member_push(g1[u], a, v);
            }
        }
        assert forall|u: int, k: int| 0 <= u < g2.len() && 0 <= k < g2[u].len() implies (
        #[trigger] g2[u][k]) < g0.len() by {
            if u == c && k == g1[u].len() {
            } else {
                assert(g2[u][k] == g1[u][k]);
                if u == a && k == g0[u].len() {
                } else {
                    assert(g1[u][k] == g0[u][k]);
                }
            }
        }
    }
}

} // verus!
