use vstd::prelude::*;

verus! {

/// Largest edge cost and heuristic value the search accepts. Together with
/// `NODE_LIMIT` it keeps every accumulated cost and priority inside `u64`.
pub const COST_LIMIT: u64 = 0xFFFF_FFFF;

/// Largest number of nodes the search accepts.
pub const NODE_LIMIT: usize = 0x4000_0000;

/// The adjacency lists of a graph as one sequence of sequences: entry `j` of
/// `g[u]` is the pair (neighbor, edge cost) of the `j`-th edge out of `u`.
pub open spec fn adj_view(adj: &Vec<Vec<(usize, u64)>>) -> Seq<Seq<(usize, u64)>> {
    adj@.map_values(|row: Vec<(usize, u64)>| row@)
}

/// Every edge points at a node of the graph, and every edge cost and every
/// heuristic value is at most `COST_LIMIT`.
pub open spec fn graph_wf(g: Seq<Seq<(usize, u64)>>) -> bool {
    forall|u: int, j: int|
        0 <= u < g.len() && 0 <= j < g[u].len() ==> (#[trigger] g[u][j]).0 < g.len() && g[u][j].1
            <= COST_LIMIT
}

/// There is an edge from `u` to `v` of cost `w`.
pub open spec fn has_edge(g: Seq<Seq<(usize, u64)>>, u: int, v: int, w: int) -> bool {
    &&& 0 <= u < g.len()
    &&& exists|j: int| 0 <= j < g[u].len() && (#[trigger] g[u][j]).0 == v && g[u][j].1 == w
}

/// `p` is a walk through the graph whose edge costs add up to `c`.
pub open spec fn is_walk(g: Seq<Seq<(usize, u64)>>, p: Seq<usize>, c: int) -> bool
    decreases p.len(),
{
    if p.len() == 0 {
        false
    } else if p.len() == 1 {
        p[0] < g.len() && c == 0
    } else {
        exists|w: int|
            0 <= w && #[trigger] has_edge(g, p[p.len() - 2] as int, p.last() as int, w) && is_walk(
                g,
                p.drop_last(),
                c - w,
            )
    }
}

/// Some walk leads from `s` to `v` at total cost `c`.
pub open spec fn reachable(g: Seq<Seq<(usize, u64)>>, s: int, v: int, c: int) -> bool {
    exists|p: Seq<usize>|
        #[trigger] is_walk(g, p, c) && p.first() as int == s && p.last() as int == v
}

/// The one-node walk sits at its node for free.
pub proof fn lemma_walk_single(g: Seq<Seq<(usize, u64)>>, s: usize)
    requires
        (s as int) < g.len(),
    ensures
        reachable(g, s as int, s as int, 0),
{
    let p = seq![s];
    assert(is_walk(g, p, 0));
}

/// A walk to `u` extends along an edge from `u` to `v`.
pub proof fn lemma_reachable_step(g: Seq<Seq<(usize, u64)>>, s: int, u: int, v: usize, c: int, w: int)
    requires
        reachable(g, s, u, c),
        has_edge(g, u, v as int, w),
        0 <= w,
    ensures
        reachable(g, s, v as int, c + w),
{
    let p = choose|p: Seq<usize>|
        #[trigger] is_walk(g, p, c) && p.first() as int == s && p.last() as int == u;
    let q = p.push(v);
    assert(q.drop_last() =~= p);
    assert(is_walk(g, q.drop_last(), (c + w) - w));
    assert(q[q.len() - 2] == p.last());
    assert(has_edge(g, q[q.len() - 2] as int, q.last() as int, w));
    assert(is_walk(g, q, c + w));
    assert(q.first() as int == s && q.last() as int == v);
}

/// A node is in the cost table.
pub open spec fn tabled(table: Seq<Option<u64>>, v: int) -> bool {
    0 <= v < table.len() && table[v] is Some
}

/// If the table contains the start of a walk and is closed under the graph's
/// edges, it contains the end of the walk too.
proof fn lemma_walks_stay_tabled(
    g: Seq<Seq<(usize, u64)>>,
    table: Seq<Option<u64>>,
    p: Seq<usize>,
    c: int,
)
    requires
        table.len() == g.len(),
        is_walk(g, p, c),
        tabled(table, p.first() as int),
        forall|u: int, j: int|
            tabled(table, u) && 0 <= j < g[u].len() ==> tabled(
                table,
                (#[trigger] g[u][j]).0 as int,
            ),
    ensures
        tabled(table, p.last() as int),
    decreases p.len(),
{
    if p.len() > 1 {
        let q = p.drop_last();
        assert(q.first() == p.first());
        let w = choose|w: int|
            0 <= w && #[trigger] has_edge(g, p[p.len() - 2] as int, p.last() as int, w) && is_walk(
                g,
                q,
                c - w,
            );
        lemma_walks_stay_tabled(g, table, q, c - w);
        let u = p[p.len() - 2] as int;
        assert(q.last() == p[p.len() - 2]);
        let j = choose|j: int|
            0 <= j < g[u].len() && (#[trigger] g[u][j]).0 == p.last() as int && g[u][j].1 == w;
        assert(tabled(table, g[u][j].0 as int));
    }
}

/// How many entries of the table are filled.
pub open spec fn count_some(s: Seq<Option<u64>>) -> int
    decreases s.len(),
{
    if s.len() == 0 {
        0
    } else {
        count_some(s.drop_last()) + if s.last() is Some {
            1int
        } else {
            0int
        }
    }
}

proof fn lemma_count_some_bounds(s: Seq<Option<u64>>)
    ensures
        0 <= count_some(s) <= s.len(),
    decreases s.len(),
{
    if s.len() > 0 {
        lemma_count_some_bounds(s.drop_last());
    }
}

proof fn lemma_count_some_update(s: Seq<Option<u64>>, i: int, v: u64)
    requires
        0 <= i < s.len(),
    ensures
        count_some(s.update(i, Some(v))) == count_some(s) + if s[i] is Some {
            0int
        } else {
            1int
        },
    decreases s.len(),
{
    let t = s.update(i, Some(v));
    if i == s.len() - 1 {
        assert(t.drop_last() =~= s.drop_last());
    } else {
        assert(t.drop_last() =~= s.drop_last().update(i, Some(v)));
        lemma_count_some_update(s.drop_last(), i, v);
    }
}

/// The potential of one table entry: its cost when filled, else `big`.
pub open spec fn pot(e: Option<u64>, big: int) -> int {
    match e {
        Some(c) => c as int,
        None => big,
    }
}

/// The sum of the potentials of all table entries: the termination measure of
/// the search, together with the frontier length.
pub open spec fn sum_pot(s: Seq<Option<u64>>, big: int) -> int
    decreases s.len(),
{
    if s.len() == 0 {
        0
    } else {
        sum_pot(s.drop_last(), big) + pot(s.last(), big)
    }
}

proof fn lemma_sum_pot_nonneg(s: Seq<Option<u64>>, big: int)
    requires
        0 <= big,
    ensures
        0 <= sum_pot(s, big),
    decreases s.len(),
{
    if s.len() > 0 {
        lemma_sum_pot_nonneg(s.drop_last(), big);
    }
}

proof fn lemma_sum_pot_update(s: Seq<Option<u64>>, big: int, i: int, v: u64)
    requires
        0 <= i < s.len(),
    ensures
        sum_pot(s.update(i, Some(v)), big) == sum_pot(s, big) - pot(s[i], big) + v,
    decreases s.len(),
{
    let t = s.update(i, Some(v));
    if i == s.len() - 1 {
        assert(t.drop_last() =~= s.drop_last());
    } else {
        assert(t.drop_last() =~= s.drop_last().update(i, Some(v)));
        lemma_sum_pot_update(s.drop_last(), big, i, v);
    }
}

/// Some entry of the frontier carries node `v`.
pub open spec fn in_queue(q: Seq<(u64, usize)>, v: int) -> bool {
    exists|qi: int| 0 <= qi < q.len() && (#[trigger] q[qi]).1 == v
}

proof fn lemma_in_queue_after_remove(q: Seq<(u64, usize)>, i: int, v: int)
    requires
        0 <= i < q.len(),
        in_queue(q, v),
        q[i].1 != v,
    ensures
        in_queue(q.remove(i), v),
{
    let qi = choose|qi: int| 0 <= qi < q.len() && (#[trigger] q[qi]).1 == v;
    if qi < i {
        assert(q.remove(i)[qi].1 == v);
    } else {
        assert(q.remove(i)[qi - 1].1 == v);
    }
}

/// A copy of a vector of node indices.
fn copy_nodes(v: &Vec<usize>) -> (r: Vec<usize>)
    ensures
        r@ == v@,
{
    let mut r: Vec<usize> = Vec::new();
    let mut i: usize = 0;
    while i < v.len()
        invariant
            i <= v@.len(),
            r@ == v@.subrange(0, i as int),
        decreases v@.len() - i,
    {
        r.push(v[i]);
        i = i + 1;
    }
    proof {
        assert(r@ =~= v@);
    }
    r
}

/// Whether the vector holds the node `x`.
fn contains_node(v: &Vec<usize>, x: usize) -> (r: bool)
    ensures
        r == v@.contains(x),
{
    let mut i: usize = 0;
    while i < v.len()
        invariant
            i <= v@.len(),
            forall|k: int| 0 <= k < i ==> v@[k] != x,
        decreases v@.len() - i,
    {
        if v[i] == x {
            return true;
        }
        i = i + 1;
    }
    proof {
        assert(!v@.contains(x));
    }
    false
}

/// A vector of `n` empty entries.
fn vec_no_entries<T>(n: usize) -> (r: Vec<Option<T>>)
    ensures
        r@.len() == n,
        forall|i: int| 0 <= i < n ==> r@[i] is None,
{
    let mut v: Vec<Option<T>> = Vec::new();
    let mut i: usize = 0;
    while i < n
        invariant
            i <= n,
            v@.len() == i,
            forall|j: int| 0 <= j < i ==> v@[j] is None,
        decreases n - i,
    {
        v.push(None);
        i = i + 1;
    }
    v
}

/// Folds one newly found way of reaching `nei` at cost `next_cost` from
/// `node` into the predecessor table: a strictly cheaper way replaces the
/// entry, an equally cheap way joins it, and a dearer way leaves it alone.
/// The recorded cost never increases.
fn record_prev(
    prev: &mut Vec<Option<(u64, Vec<usize>)>>,
    nei: usize,
    next_cost: u64,
    node: usize,
)
    requires
        (nei as int) < old(prev)@.len(),
    ensures
        final(prev)@.len() == old(prev)@.len(),
        forall|v: int|
            0 <= v < old(prev)@.len() && v != nei ==> final(prev)@[v] == old(prev)@[v],
        final(prev)@[nei as int] matches Some(e2) && e2.0 <= next_cost && (match old(
            prev,
        )@[nei as int] {
            Option::Some(o2) => e2.0 <= o2.0,
            Option::None => true,
        }),
        final(prev)@[nei as int] matches Some(e) && (match old(prev)@[nei as int] {
            Option::None => e.0 == next_cost && e.1@ =~= seq![node],
            Option::Some(o) => {
                if o.0 == next_cost {
                    &&& e.0 == o.0
                    &&& if o.1@.contains(node) {
                        e.1@ == o.1@
                    } else {
                        e.1@ == o.1@.push(node)
                    }
                } else if o.0 > next_cost {
                    e.0 == next_cost && e.1@ =~= seq![node]
                } else {
                    e.0 == o.0 && e.1@ == o.1@
                }
            },
        }),
{
    let new_entry: (u64, Vec<usize>) = match &prev[nei] {
        Option::None => {
            let mut ps: Vec<usize> = Vec::new();
            ps.push(node);
            proof {
                assert(ps@ =~= seq![node]);
            }
            (next_cost, ps)
        },
        Option::Some(o) => {
            if o.0 == next_cost {
                let mut ps = copy_nodes(&o.1);
                if !contains_node(&ps, node) {
                    ps.push(node);
                }
                (o.0, ps)
            } else if o.0 > next_cost {
                let mut ps: Vec<usize> = Vec::new();
                ps.push(node);
                proof {
                    assert(ps@ =~= seq![node]);
                }
                (next_cost, ps)
            } else {
                (o.0, copy_nodes(&o.1))
            }
        },
    };
    prev.set(nei, Some(new_entry));
}

/// A heuristic is admissible for this graph and target set when no value of
/// it overestimates the cost of any walk from its node to any target.
pub open spec fn admissible_spec(g: Seq<Seq<(usize, u64)>>, targets: Seq<bool>, h: Seq<u64>) -> bool {
    forall|v: int, t: int, c: int|
        0 <= v < g.len() && 0 <= t < g.len() && targets[t] && #[trigger] reachable(g, v, t, c)
            ==> h[v] <= c
}

/// Whether a cost is within the pruning bound; there is no bound while no
/// target cost has been recorded.
pub open spec fn below_bound(lowest: Option<u64>, c: int) -> bool {
    match lowest {
        Option::None => true,
        Option::Some(lc) => c <= lc,
    }
}

/// Walk costs never go negative.
pub proof fn lemma_walk_nonneg(g: Seq<Seq<(usize, u64)>>, p: Seq<usize>, c: int)
    requires
        is_walk(g, p, c),
    ensures
        c >= 0,
    decreases p.len(),
{
    if p.len() > 1 {
        let w = choose|w: int|
            0 <= w && #[trigger] has_edge(g, p[p.len() - 2] as int, p.last() as int, w) && is_walk(
                g,
                p.drop_last(),
                c - w,
            );
        lemma_walk_nonneg(g, p.drop_last(), c - w);
    }
}

/// The settled set holds only popped, in-table nodes of the graph.
pub open spec fn settled_wf(
    g: Seq<Seq<(usize, u64)>>,
    table: Seq<Option<u64>>,
    popped: Set<int>,
    settled: Set<int>,
) -> bool {
    forall|z: int|
        #[trigger] settled.contains(z) ==> 0 <= z < g.len() && popped.contains(z) && tabled(
            table,
            z,
        )
}

/// Every settled node has been relaxed at its current cost: each of its
/// edges whose relaxed cost is within the pruning bound leads to a table
/// node at no more than that cost.
pub open spec fn settled_closed(
    g: Seq<Seq<(usize, u64)>>,
    table: Seq<Option<u64>>,
    settled: Set<int>,
    lowest: Option<u64>,
) -> bool {
    forall|z: int, j: int|
        settled.contains(z) && 0 <= z < g.len() && 0 <= j < g[z].len() ==> {
            let e = #[trigger] g[z][j];
            below_bound(lowest, table[z]->Some_0 + e.1) ==> tabled(table, e.0 as int)
                && table[e.0 as int]->Some_0 <= table[z]->Some_0 + e.1
        }
}

/// What the frontier keeps true of the table: the start costs zero, no
/// frontier key undercuts its node's table cost plus heuristic, and every
/// unsettled table node still has an entry carrying exactly that sum.
pub open spec fn frontier_inv(
    g: Seq<Seq<(usize, u64)>>,
    h: Seq<u64>,
    start: int,
    queue: Seq<(u64, usize)>,
    table: Seq<Option<u64>>,
    settled: Set<int>,
) -> bool {
    &&& table[start] == Some(0u64)
    &&& forall|qi: int|
        0 <= qi < queue.len() ==> {
            let e = #[trigger] queue[qi];
            tabled(table, e.1 as int) && table[e.1 as int]->Some_0 + h[e.1 as int] <= e.0
        }
    &&& forall|v: int|
        0 <= v < g.len() && #[trigger] tabled(table, v) && !settled.contains(v) ==> exists|qi: int|
            0 <= qi < queue.len() && (#[trigger] queue[qi]).1 == v && queue[qi].0 == table[v]->Some_0 + h[v]
}

/// Every tight settled edge is recorded: when a settled node's cost plus one
/// of its edge costs lands exactly on the head's cost, within the pruning
/// bound, the settled node stands in the head's predecessor set.
pub open spec fn preds_recorded(
    g: Seq<Seq<(usize, u64)>>,
    table: Seq<Option<u64>>,
    prev: Seq<Option<(u64, Vec<usize>)>>,
    settled: Set<int>,
    lowest: Option<u64>,
) -> bool {
    forall|z: int, j: int|
        settled.contains(z) && 0 <= z < g.len() && 0 <= j < g[z].len() ==> {
            let e = #[trigger] g[z][j];
            (below_bound(lowest, table[z]->Some_0 + e.1) && tabled(table, e.0 as int) && table[e.0 as int]->Some_0 == table[z]->Some_0 + e.1) ==> (prev[e.0 as int] matches Some(pe)
                && pe.1@.contains(z as usize))
        }
}

/// Along any walk from the start whose cost is within the pruning bound,
/// either its end is already in the table at no more than the walk's cost,
/// or the walk passes an unsettled table node splitting it into a prefix the
/// table undercuts and a remaining walk to the end.
proof fn lemma_walk_frontier(
    g: Seq<Seq<(usize, u64)>>,
    table: Seq<Option<u64>>,
    settled: Set<int>,
    lowest: Option<u64>,
    start: int,
    p: Seq<usize>,
    c: int,
)
    requires
        table.len() == g.len(),
        is_walk(g, p, c),
        p.first() as int == start,
        0 <= start < g.len(),
        table[start] == Some(0u64),
        settled_closed(g, table, settled, lowest),
        below_bound(lowest, c),
    ensures
        (tabled(table, p.last() as int) && table[p.last() as int]->Some_0 <= c) || exists|
            w: int,
            c2: int,
        |
            #![trigger reachable(g, w, p.last() as int, c2)]
            {
                &&& 0 <= w < g.len()
                &&& tabled(table, w)
                &&& !settled.contains(w)
                &&& 0 <= c2 <= c
                &&& table[w]->Some_0 <= c - c2
                &&& reachable(g, w, p.last() as int, c2)
            },
    decreases p.len(),
{
    if p.len() == 1 {
        assert(tabled(table, start) && table[start]->Some_0 <= c);
    } else {
        let q = p.drop_last();
        assert(q.first() == p.first());
        let wt = choose|w: int|
            0 <= w && #[trigger] has_edge(g, p[p.len() - 2] as int, p.last() as int, w) && is_walk(
                g,
                q,
                c - w,
            );
        lemma_walk_nonneg(g, q, c - wt);
        lemma_walk_frontier(g, table, settled, lowest, start, q, c - wt);
        let u = p[p.len() - 2];
        assert(q.last() == p[p.len() - 2]);
        if tabled(table, u as int) && table[u as int]->Some_0 <= c - wt {
            if settled.contains(u as int) {
                let j = choose|j: int|
                    0 <= j < g[u as int].len() && (#[trigger] g[u as int][j]).0 == p.last() as int
                        && g[u as int][j].1 == wt;
                assert(below_bound(lowest, table[u as int]->Some_0 + g[u as int][j].1));
                assert(tabled(table, g[u as int][j].0 as int) && table[g[u as int][j].0 as int]->Some_0
                    <= table[u as int]->Some_0 + g[u as int][j].1);
            } else {
                lemma_walk_single(g, u);
                lemma_reachable_step(g, u as int, u as int, p.last(), 0, wt);
                assert(reachable(g, u as int, p.last() as int, wt));
            }
        } else {
            let (w, c2) = choose|w: int, c2: int|
                #![trigger reachable(g, w, q.last() as int, c2)]
                {
                    &&& 0 <= w < g.len()
                    &&& tabled(table, w)
                    &&& !settled.contains(w)
                    &&& 0 <= c2 <= c - wt
                    &&& table[w]->Some_0 <= (c - wt) - c2
                    &&& reachable(g, w, q.last() as int, c2)
                };
            lemma_reachable_step(g, w, q.last() as int, p.last(), c2, wt);
            assert(reachable(g, w, p.last() as int, c2 + wt));
        }
    }
}

/// When the least-key frontier entry pops before any target was recorded,
/// and the heuristic is admissible, that node's table cost is a lower bound
/// on the cost of every walk from the start to any target.
proof fn lemma_target_pop_minimal(
    g: Seq<Seq<(usize, u64)>>,
    h: Seq<u64>,
    targets: Seq<bool>,
    start: int,
    q0: Seq<(u64, usize)>,
    table: Seq<Option<u64>>,
    settled: Set<int>,
    mi: int,
)
    requires
        table.len() == g.len(),
        targets.len() == g.len(),
        h.len() == g.len(),
        0 <= start < g.len(),
        0 <= mi < q0.len(),
        forall|j: int| 0 <= j < q0.len() ==> q0[mi].0 <= (#[trigger] q0[j]).0,
        frontier_inv(g, h, start, q0, table, settled),
        settled_closed(g, table, settled, Option::None),
        admissible_spec(g, targets, h),
        forall|z: int| #[trigger] settled.contains(z) ==> 0 <= z < g.len() && !targets[z],
    ensures
        forall|t: int, c: int|
            0 <= t < g.len() && targets[t] && #[trigger] reachable(g, start, t, c) ==> table[q0[mi].1 as int]->Some_0 <= c,
{
    let node = q0[mi].1 as int;
    assert(tabled(table, node));
    assert forall|t: int, c: int|
        0 <= t < g.len() && targets[t] && #[trigger] reachable(g, start, t, c) implies table[
        node]->Some_0 <= c by {
        let p = choose|p: Seq<usize>|
            #[trigger] is_walk(g, p, c) && p.first() as int == start && p.last() as int == t;
        lemma_walk_nonneg(g, p, c);
        lemma_walk_frontier(g, table, settled, Option::None, start, p, c);
        if tabled(table, t) && table[t]->Some_0 <= c {
            assert(!settled.contains(t));
            let qi = choose|qi: int|
                0 <= qi < q0.len() && (#[trigger] q0[qi]).1 == t && q0[qi].0 == table[t]->Some_0
                    + h[t];
            lemma_walk_single(g, p.last());
            assert(reachable(g, t, t, 0));
            assert(h[t] <= 0);
            assert(q0[mi].0 <= q0[qi].0);
            assert(table[node]->Some_0 + h[node] <= q0[mi].0);
        } else {
            let (w, c2) = choose|w: int, c2: int|
                #![trigger reachable(g, w, p.last() as int, c2)]
                {
                    &&& 0 <= w < g.len()
                    &&& tabled(table, w)
                    &&& !settled.contains(w)
                    &&& 0 <= c2 <= c
                    &&& table[w]->Some_0 <= c - c2
                    &&& reachable(g, w, p.last() as int, c2)
                };
            let qi = choose|qi: int|
                0 <= qi < q0.len() && (#[trigger] q0[qi]).1 == w && q0[qi].0 == table[w]->Some_0
                    + h[w];
            assert(h[w] <= c2);
            assert(q0[mi].0 <= q0[qi].0);
            assert(table[node]->Some_0 + h[node] <= q0[mi].0);
        }
    }
}

proof fn lemma_in_queue_keyed_after_remove(q: Seq<(u64, usize)>, i: int, v: int, k: int)
    requires
        0 <= i < q.len(),
        exists|qi: int| 0 <= qi < q.len() && (#[trigger] q[qi]).1 == v && q[qi].0 == k,
        q[i].1 != v,
    ensures
        exists|qi: int|
            0 <= qi < q.remove(i).len() && (#[trigger] q.remove(i)[qi]).1 == v && q.remove(
                i,
            )[qi].0 == k,
{
    let qi = choose|qi: int| 0 <= qi < q.len() && (#[trigger] q[qi]).1 == v && q[qi].0 == k;
    if qi < i {
        assert((q.remove(i)[qi]).1 == v && q.remove(i)[qi].0 == k);
    } else {
        assert((q.remove(i)[qi - 1]).1 == v && q.remove(i)[qi - 1].0 == k);
    }
}

/// Every entry of the predecessor table agrees with the cost table, holds at
/// least one predecessor, and each recorded predecessor is a distinct node
/// with an edge into the entry's node whose cost, added to the cost of some
/// walk from the start to the predecessor, gives the entry's cost exactly.
pub open spec fn prev_inv(
    g: Seq<Seq<(usize, u64)>>,
    start: int,
    table: Seq<Option<u64>>,
    prev: Seq<Option<(u64, Vec<usize>)>>,
) -> bool {
    forall|v: int|
        0 <= v < g.len() ==> ((#[trigger] prev[v]) matches Some(e) ==> {
            &&& table[v] == Some(e.0)
            &&& e.1@.len() >= 1
            &&& forall|k: int|
                0 <= k < e.1@.len() ==> (#[trigger] e.1@[k]) < g.len() && (exists|
                    wk: int,
                    cp: int,
                |
                    #![trigger has_edge(g, e.1@[k] as int, v, wk), reachable(g, start, e.1@[k] as int, cp)]
                    {
                        &&& 0 <= wk
                        &&& 0 <= cp
                        &&& has_edge(g, e.1@[k] as int, v, wk)
                        &&& reachable(g, start, e.1@[k] as int, cp)
                        &&& cp + wk == e.0
                    })
            &&& forall|k1: int, k2: int| 0 <= k1 < k2 < e.1@.len() ==> e.1@[k1] != e.1@[k2]
        })
}

/// Folding one relaxation step into the predecessor table keeps `prev_inv`:
/// the caller updates the tables as `record_prev` describes, the new cost is
/// no more than the previously recorded one, and the recording node reaches
/// the recorded node through an edge completing a walk of exactly the new
/// cost.
proof fn lemma_prev_update(
    g: Seq<Seq<(usize, u64)>>,
    start: int,
    node_cost: int,
    w0: int,
    table0: Seq<Option<u64>>,
    prev0: Seq<Option<(u64, Vec<usize>)>>,
    table1: Seq<Option<u64>>,
    prev1: Seq<Option<(u64, Vec<usize>)>>,
    nei: int,
    next: u64,
    node: usize,
)
    requires
        table0.len() == g.len(),
        prev0.len() == g.len(),
        table1.len() == g.len(),
        prev1.len() == g.len(),
        prev_inv(g, start, table0, prev0),
        0 <= nei < g.len(),
        (node as int) < g.len(),
        0 <= w0,
        0 <= node_cost,
        has_edge(g, node as int, nei, w0),
        reachable(g, start, node as int, node_cost),
        node_cost + w0 == next as int,
        forall|v: int| 0 <= v < g.len() && v != nei ==> prev1[v] == prev0[v],
        forall|v: int| 0 <= v < g.len() && v != nei ==> table1[v] == table0[v],
        table1[nei] == Some(next),
        (match table0[nei] {
            Option::None => true,
            Option::Some(c) => c >= next,
        }),
        prev1[nei] matches Some(e) && (match prev0[nei] {
            Option::None => e.0 == next && e.1@ == seq![node],
            Option::Some(o) => {
                if o.0 == next {
                    &&& e.0 == o.0
                    &&& if o.1@.contains(node) {
                        e.1@ == o.1@
                    } else {
                        e.1@ == o.1@.push(node)
                    }
                } else if o.0 > next {
                    e.0 == next && e.1@ == seq![node]
                } else {
                    e.0 == o.0 && e.1@ == o.1@
                }
            },
        }),
    ensures
        prev_inv(g, start, table1, prev1),
{
    assert forall|v: int| 0 <= v < g.len() implies ((#[trigger] prev1[v]) matches Some(e) ==> {
        &&& table1[v] == Some(e.0)
        &&& e.1@.len() >= 1
        &&& forall|k: int|
            0 <= k < e.1@.len() ==> (#[trigger] e.1@[k]) < g.len() && (exists|wk: int, cp: int|
                #![trigger has_edge(g, e.1@[k] as int, v, wk), reachable(g, start, e.1@[k] as int, cp)]
                {
                    &&& 0 <= wk
                    &&& 0 <= cp
                    &&& has_edge(g, e.1@[k] as int, v, wk)
                    &&& reachable(g, start, e.1@[k] as int, cp)
                    &&& cp + wk == e.0
                })
        &&& forall|k1: int, k2: int| 0 <= k1 < k2 < e.1@.len() ==> e.1@[k1] != e.1@[k2]
    }) by {
        match prev1[v] {
            Option::Some(e) => {
                if v == nei {
                    match prev0[nei] {
                        Option::None => {
                            assert(e.1@ == seq![node]);
                            assert forall|k: int| 0 <= k < e.1@.len() implies (#[trigger] e.1@[k])
                                < g.len() && (exists|wk: int, cp: int|
                                #![trigger has_edge(g, e.1@[k] as int, v, wk), reachable(g, start, e.1@[k] as int, cp)]
                                {
                                    &&& 0 <= wk
                                    &&& 0 <= cp
                                    &&& has_edge(g, e.1@[k] as int, v, wk)
                                    &&& reachable(g, start, e.1@[k] as int, cp)
                                    &&& cp + wk == e.0
                                }) by {
                                assert(e.1@[k] == node);
                                assert(has_edge(g, node as int, nei, w0) && reachable(
                                    g,
                                    start,
                                    node as int,
                                    node_cost,
                                ));
                            }
                        },
                        Option::Some(o) => {
                            assert(table0[nei] == Some(o.0));
                            if o.0 == next {
                                if o.1@.contains(node) {
                                    assert(e.1@ == o.1@);
                                } else {
                                    assert(e.1@ == o.1@.push(node));
                                    assert forall|k: int| 0 <= k < e.1@.len() implies (
                                    #[trigger] e.1@[k]) < g.len() && (exists|wk: int, cp: int|
                                        #![trigger has_edge(g, e.1@[k] as int, v, wk), reachable(g, start, e.1@[k] as int, cp)]
                                        {
                                            &&& 0 <= wk
                                            &&& 0 <= cp
                                            &&& has_edge(g, e.1@[k] as int, v, wk)
                                            &&& reachable(g, start, e.1@[k] as int, cp)
                                            &&& cp + wk == e.0
                                        }) by {
                                        if k < o.1@.len() {
                                            assert(e.1@[k] == o.1@[k]);
                                        } else {
                                            assert(e.1@[k] == node);
                                            assert(has_edge(g, node as int, nei, w0) && reachable(
                                                g,
                                                start,
                                                node as int,
                                                node_cost,
                                            ));
                                        }
                                    }
                                    assert forall|k1: int, k2: int|
                                        0 <= k1 < k2 < e.1@.len() implies e.1@[k1] != e.1@[k2] by {
                                        if k2 == e.1@.len() - 1 {
                                            assert(e.1@[k1] == o.1@[k1]);
                                            assert(e.1@[k2] == node);
                                            assert(!o.1@.contains(node));
                                        }
                                    }
                                }
                            } else {
                                assert(o.0 > next);
                                assert(e.1@ == seq![node]);
                                assert forall|k: int| 0 <= k < e.1@.len() implies (
                                #[trigger] e.1@[k]) < g.len() && (exists|wk: int, cp: int|
                                    #![trigger has_edge(g, e.1@[k] as int, v, wk), reachable(g, start, e.1@[k] as int, cp)]
                                    {
                                        &&& 0 <= wk
                                        &&& 0 <= cp
                                        &&& has_edge(g, e.1@[k] as int, v, wk)
                                        &&& reachable(g, start, e.1@[k] as int, cp)
                                        &&& cp + wk == e.0
                                    }) by {
                                    assert(e.1@[k] == node);
                                    assert(has_edge(g, node as int, nei, w0) && reachable(
                                        g,
                                        start,
                                        node as int,
                                        node_cost,
                                    ));
                                }
                            }
                        },
                    }
                } else {
                    assert(prev0[v] == prev1[v]);
                    assert(table1[v] == table0[v]);
                }
            },
            Option::None => {},
        }
    }
}

/// Everything the search keeps true from one frontier pop to the next.
pub open spec fn search_inv(
    g: Seq<Seq<(usize, u64)>>,
    targets: Seq<bool>,
    start: int,
    exhaustive: bool,
    queue: Seq<(u64, usize)>,
    table: Seq<Option<u64>>,
    prev: Seq<Option<(u64, Vec<usize>)>>,
    lowest: Option<u64>,
    popped: Set<int>,
) -> bool {
    let n = g.len();
    &&& table.len() == n
    &&& prev.len() == n
    &&& tabled(table, start)
    &&& forall|qi: int|
        0 <= qi < queue.len() ==> (#[trigger] queue[qi]).1 < n && tabled(
            table,
            queue[qi].1 as int,
        )
    &&& forall|v: int|
        0 <= v < n ==> ((#[trigger] table[v]) matches Some(c) ==> reachable(g, start, v, c as int))
    &&& forall|v: int|
        0 <= v < n ==> ((#[trigger] table[v]) matches Some(c) ==> c as int <= count_some(table)
            * (COST_LIMIT as int))
    &&& forall|v: int| 0 <= v < n && tabled(table, v) ==> popped.contains(v) || in_queue(queue, v)
    &&& forall|v: int| #[trigger] popped.contains(v) ==> 0 <= v < n && tabled(table, v)
    &&& (lowest is None ==> forall|v: int| #[trigger] popped.contains(v) ==> !targets[v])
    &&& (!exhaustive ==> lowest is None)
    &&& (lowest matches Some(lc) ==> exists|t: int|
        0 <= t < n && targets[t] && reachable(g, start, t, lc as int))
    &&& forall|v: int|
        0 <= v < n && #[trigger] tabled(table, v) && v != start ==> prev[v] is Some
    &&& prev_inv(g, start, table, prev)
}

/// Best-first search over a graph given by adjacency lists. Starting from
/// `start`, it repeatedly pops the frontier entry with the least priority
/// (accumulated cost plus heuristic) and relaxes its outgoing edges.
///
/// In non-exhaustive mode it stops at the first target node popped and
/// returns that node's accumulated cost with the predecessor table built so
/// far. In exhaustive mode it records the first target's cost, keeps draining
/// the frontier to complete the predecessor table, prunes paths that already
/// cost more than the recorded target cost, and returns when the frontier is
/// empty.
///
/// A result `Some((c, prev))` means some target is reachable and `c` is the
/// cost of an actual walk from `start` to a target; `None` means no target
/// is reachable at any cost. With an admissible heuristic, `c` is moreover
/// the least cost of any walk from `start` to any target. Every entry of
/// `prev` carries the cost of an actual walk from `start` to its node, and
/// each of its predecessors completes such a walk of exactly that cost
/// through one of its edges. In exhaustive mode the table is furthermore
/// exact up to the returned cost: every node other than the start reachable
/// within `c` has an entry, entries within `c` carry the least cost of
/// reaching their node, and they list every predecessor lying at exact
/// shortest distance one edge before their node.
#[verifier::rlimit(100)]
pub fn a_star_ex(
    adj: &Vec<Vec<(usize, u64)>>,
    start: usize,
    targets: &Vec<bool>,
    heuristic: &Vec<u64>,
    exhaustive: bool,
) -> (r: Option<(u64, Vec<Option<(u64, Vec<usize>)>>)>)
    requires
        adj@.len() <= NODE_LIMIT,
        (start as int) < adj@.len(),
        targets@.len() == adj@.len(),
        heuristic@.len() == adj@.len(),
        graph_wf(adj_view(adj)),
        forall|i: int| 0 <= i < heuristic@.len() ==> heuristic@[i] <= COST_LIMIT,
    ensures
        admissible_spec(adj_view(adj), targets@, heuristic@) ==> (match r {
            Option::Some(pr) => forall|t: int, c: int|
                0 <= t < adj@.len() && targets@[t] && #[trigger] reachable(
                    adj_view(adj),
                    start as int,
                    t,
                    c,
                ) ==> (pr.0 as int) <= c,
            Option::None => true,
        }),
        exhaustive ==> (match r {
            Option::Some(pr) => {
                &&& forall|v: int, c: int|
                    0 <= v < adj@.len() && v != start as int && #[trigger] reachable(
                        adj_view(adj),
                        start as int,
                        v,
                        c,
                    ) && c <= pr.0 ==> pr.1@[v] is Some && ((pr.1@[v]->Some_0).0 as int) <= c
                &&& forall|v: int, c: int|
                    0 <= v < adj@.len() && pr.1@[v] is Some && (pr.1@[v]->Some_0).0 <= pr.0
                        && #[trigger] reachable(adj_view(adj), start as int, v, c) ==> ((pr.1@[
                    v]->Some_0).0 as int) <= c
                &&& forall|v: int, p: int, wk: int, dp: int|
                    #![trigger has_edge(adj_view(adj), p, v, wk), reachable(adj_view(adj), start as int, p, dp)]
                    (0 <= v < adj@.len() && pr.1@[v] is Some && (pr.1@[v]->Some_0).0 <= pr.0 && 0
                        <= p < adj@.len() && 0 <= wk && has_edge(adj_view(adj), p, v, wk)
                        && reachable(adj_view(adj), start as int, p, dp) && (forall|c2: int|
                        #[trigger] reachable(adj_view(adj), start as int, p, c2) ==> dp <= c2) && dp
                        + wk == (pr.1@[v]->Some_0).0) ==> (pr.1@[v]->Some_0).1@.contains(p as usize)
            },
            Option::None => true,
        }),
        match r {
            Option::Some(pr) => {
                &&& exists|t: int|
                    0 <= t < adj@.len() && targets@[t] && reachable(
                        adj_view(adj),
                        start as int,
                        t,
                        pr.0 as int,
                    )
                &&& pr.1@.len() == adj@.len()
                &&& forall|v: int|
                    0 <= v < adj@.len() ==> ((#[trigger] pr.1@[v]) matches Some(e) ==> {
                        &&& reachable(adj_view(adj), start as int, v, e.0 as int)
                        &&& e.1@.len() >= 1
                        &&& forall|k: int|
                            0 <= k < e.1@.len() ==> (#[trigger] e.1@[k]) < adj@.len() && (exists|
                                wk: int,
                                cp: int,
                            |
                                #![trigger has_edge(adj_view(adj), e.1@[k] as int, v, wk), reachable(adj_view(adj), start as int, e.1@[k] as int, cp)]
                                {
                                    &&& 0 <= wk
                                    &&& 0 <= cp
                                    &&& has_edge(adj_view(adj), e.1@[k] as int, v, wk)
                                    &&& reachable(adj_view(adj), start as int, e.1@[k] as int, cp)
                                    &&& cp + wk == e.0
                                })
                        &&& forall|k1: int, k2: int|
                            0 <= k1 < k2 < e.1@.len() ==> e.1@[k1] != e.1@[k2]
                    })
            },
            Option::None => forall|t: int, c: int|
                0 <= t < adj@.len() && targets@[t] ==> !reachable(
                    adj_view(adj),
                    start as int,
                    t,
                    c,
                ),
        },
{
    let n = adj.len();
    let ghost g = adj_view(adj);
    let ghost big: int = (n as int) * (COST_LIMIT as int) + 1;
    proof {
        assert(g.len() == n);
    }
    let mut queue: Vec<(u64, usize)> = Vec::new();
    let mut table: Vec<Option<u64>> = vec_no_entries(n);
    let mut prev: Vec<Option<(u64, Vec<usize>)>> = vec_no_entries(n);
    let mut lowest: Option<u64> = None;
    let ghost mut popped: Set<int> = Set::empty();
    let ghost mut settled: Set<int> = Set::empty();
    queue.push((heuristic[start], start));
    let ghost t_init = table@;
    table.set(start, Some(0));
    proof {
        lemma_walk_single(g, start);
        lemma_count_some_update(t_init, start as int, 0);
        lemma_count_some_bounds(table@);
        assert((queue@[0]).1 == start);
        assert(in_queue(queue@, start as int));
        assert(search_inv(g, targets@, start as int, exhaustive, queue@, table@, prev@, lowest, popped));
        assert forall|v: int|
            0 <= v < g.len() && #[trigger] tabled(table@, v) && !settled.contains(v) implies exists|
            qi: int,
        |
            0 <= qi < queue@.len() && (#[trigger] queue@[qi]).1 == v && queue@[qi].0 == table@[
            v]->Some_0 + heuristic@[v] by {
            assert(v == start);
            assert((queue@[0]).1 == v && (queue@[0]).0 == table@[v]->Some_0 + heuristic@[v]);
        }
        assert(frontier_inv(g, heuristic@, start as int, queue@, table@, settled));
    }
    while queue.len() > 0
        invariant
            g == adj_view(adj),
            g.len() == n,
            n <= NODE_LIMIT,
            (start as int) < n,
            targets@.len() == n,
            heuristic@.len() == n,
            graph_wf(g),
            forall|i: int| 0 <= i < n ==> heuristic@[i] <= COST_LIMIT,
            big == (n as int) * (COST_LIMIT as int) + 1,
            search_inv(g, targets@, start as int, exhaustive, queue@, table@, prev@, lowest, popped),
            settled_wf(g, table@, popped, settled),
            frontier_inv(g, heuristic@, start as int, queue@, table@, settled),
            settled_closed(g, table@, settled, lowest),
            exhaustive ==> preds_recorded(g, table@, prev@, settled, lowest),
            lowest is None ==> forall|z: int| #[trigger] settled.contains(z) ==> !targets@[z],
            admissible_spec(g, targets@, heuristic@) ==> (lowest matches Some(lc) ==> forall|
                t: int,
                c: int,
            |
                0 <= t < n && targets@[t] && #[trigger] reachable(g, start as int, t, c) ==> (
                lc as int) <= c),
        decreases queue@.len() + sum_pot(table@, big),
    {
        let ghost m0 = queue@.len() + sum_pot(table@, big);
        let mut mi: usize = 0;
        let mut qj: usize = 1;
        while qj < queue.len()
            invariant
                queue@.len() > 0,
                (mi as int) < queue@.len(),
                qj <= queue@.len(),
                forall|j2: int| 0 <= j2 < qj ==> queue@[mi as int].0 <= (#[trigger] queue@[j2]).0,
            decreases queue@.len() - qj,
        {
            if queue[qj].0 < queue[mi].0 {
                mi = qj;
            }
            qj = qj + 1;
        }
        let ghost q0 = queue@;
        let ghost popped0 = popped;
        let ghost settled0 = settled;
        let entry = queue.remove(mi);
        let node = entry.1;
        proof {
            popped = popped.insert(node as int);
            settled = settled.remove(node as int);
            assert forall|v: int| 0 <= v < n && tabled(table@, v) implies popped.contains(v)
                || in_queue(queue@, v) by {
                if v != node && !popped.contains(v) {
                    lemma_in_queue_after_remove(q0, mi as int, v);
                }
            }
            assert forall|v: int|
                0 <= v < g.len() && #[trigger] tabled(table@, v) && !settled.insert(
                    node as int,
                ).contains(v) implies exists|qi: int|
                0 <= qi < queue@.len() && (#[trigger] queue@[qi]).1 == v && queue@[qi].0 == table@[
                v]->Some_0 + heuristic@[v] by {
                lemma_in_queue_keyed_after_remove(
                    q0,
                    mi as int,
                    v,
                    table@[v]->Some_0 + heuristic@[v],
                );
            }
            assert forall|qi: int| 0 <= qi < queue@.len() implies {
                let e = #[trigger] queue@[qi];
                tabled(table@, e.1 as int) && table@[e.1 as int]->Some_0 + heuristic@[e.1 as int]
                    <= e.0
            } by {
                if qi < mi {
                    assert(queue@[qi] == q0[qi]);
                } else {
                    assert(queue@[qi] == q0[qi + 1]);
                }
            }
        }
        let total_cost = match table[node] {
            Option::Some(c) => c,
            Option::None => 0,
        };
        proof {
            lemma_count_some_bounds(table@);
            assert((total_cost as int) <= count_some(table@) * (COST_LIMIT as int));
            assert(count_some(table@) * (COST_LIMIT as int) <= (n as int) * (COST_LIMIT as int))
                by (nonlinear_arith)
                requires
                    count_some(table@) <= n,
                    0 <= count_some(table@),
            ;
            assert((n as int) * (COST_LIMIT as int) <= 0x4000_0000int * 0xFFFF_FFFFint)
                by (nonlinear_arith)
                requires
                    n <= 0x4000_0000,
                    0 <= n,
            ;
        }
        if targets[node] {
            proof {
                if admissible_spec(g, targets@, heuristic@) && lowest is None {
                    assert forall|z: int| #[trigger] settled0.contains(z) implies 0 <= z < g.len()
                        && !targets@[z] by {
                        assert(popped0.contains(z));
                    }
                    lemma_target_pop_minimal(
                        g,
                        heuristic@,
                        targets@,
                        start as int,
                        q0,
                        table@,
                        settled0,
                        mi as int,
                    );
                    assert(total_cost == table@[node as int]->Some_0);
                }
            }
            if !exhaustive {
                proof {
                    assert(targets@[node as int] && reachable(
                        g,
                        start as int,
                        node as int,
                        total_cost as int,
                    ));
                }
                return Some((total_cost, prev));
            }
            if lowest.is_none() {
                lowest = Some(total_cost);
                proof {
                    assert(settled_closed(g, table@, settled, lowest));
                    assert(preds_recorded(g, table@, prev@, settled, lowest));
                }
            }
        }
        let deg = adj[node].len();
        proof {
            assert(g[node as int] == adj@[node as int]@);
        }
        let mut j: usize = 0;
        while j < deg
            invariant
                g == adj_view(adj),
                g.len() == n,
                n <= NODE_LIMIT,
                (start as int) < n,
                targets@.len() == n,
                heuristic@.len() == n,
                graph_wf(g),
                forall|i: int| 0 <= i < n ==> heuristic@[i] <= COST_LIMIT,
                big == (n as int) * (COST_LIMIT as int) + 1,
                search_inv(g, targets@, start as int, exhaustive, queue@, table@, prev@, lowest, popped),
                settled_wf(g, table@, popped, settled),
                frontier_inv(
                    g,
                    heuristic@,
                    start as int,
                    queue@,
                    table@,
                    settled.insert(node as int),
                ),
                settled_closed(g, table@, settled, lowest),
                exhaustive ==> preds_recorded(g, table@, prev@, settled, lowest),
                lowest is None ==> forall|z: int| #[trigger] settled.contains(z) ==> !targets@[z],
                admissible_spec(g, targets@, heuristic@) ==> (lowest matches Some(lc) ==> forall|
                    t: int,
                    c: int,
                |
                    0 <= t < n && targets@[t] && #[trigger] reachable(g, start as int, t, c) ==> (
                    lc as int) <= c),
                (node as int) < n,
                popped.contains(node as int),
                !settled.contains(node as int),
                deg == g[node as int].len(),
                j <= deg,
                reachable(g, start as int, node as int, total_cost as int),
                table@[node as int] == Some(total_cost),
                (total_cost as int) <= count_some(table@) * (COST_LIMIT as int),
                forall|jj: int|
                    0 <= jj < j ==> {
                        let e = #[trigger] g[node as int][jj];
                        below_bound(lowest, total_cost + e.1) ==> tabled(table@, e.0 as int)
                            && table@[e.0 as int]->Some_0 <= total_cost + e.1
                    },
                exhaustive ==> forall|jj: int|
                    0 <= jj < j ==> {
                        let e = #[trigger] g[node as int][jj];
                        (below_bound(lowest, total_cost + e.1) && tabled(table@, e.0 as int)
                            && table@[e.0 as int]->Some_0 == total_cost + e.1) ==> (prev@[
                        e.0 as int] matches Some(pe) && pe.1@.contains(node))
                    },
                queue@.len() + sum_pot(table@, big) <= m0 - 1,
            decreases deg - j,
        {
            let edge = adj[node][j];
            let nei = edge.0;
            let cost = edge.1;
            proof {
                assert(g[node as int][j as int] == edge);
                assert((nei as int) < n && cost <= COST_LIMIT);
                lemma_count_some_bounds(table@);
                assert(count_some(table@) * (COST_LIMIT as int) <= (n as int) * (
                COST_LIMIT as int)) by (nonlinear_arith)
                    requires
                        count_some(table@) <= n,
                        0 <= count_some(table@),
                ;
                assert((n as int) * (COST_LIMIT as int) <= 0x4000_0000int * 0xFFFF_FFFFint)
                    by (nonlinear_arith)
                    requires
                        n <= 0x4000_0000,
                        0 <= n,
                ;
            }
            let next_cost = total_cost + cost;
            let mut skip = false;
            match lowest {
                Option::Some(lc) => {
                    if next_cost > lc {
                        skip = true;
                    }
                },
                Option::None => {},
            }
            if !skip {
                let cur = table[nei];
                let improves = match cur {
                    Option::None => true,
                    Option::Some(c) => c > next_cost,
                };
                proof {
                    assert(has_edge(g, node as int, nei as int, cost as int));
                    assert(below_bound(lowest, next_cost as int));
                }
                if improves {
                    proof {
                        assert(nei as int != node as int) by {
                            if nei as int == node as int {
                                assert(cur == Some(total_cost));
                            }
                        }
                        assert(nei as int != start as int) by {
                            if nei as int == start as int {
                                assert(cur == Some(0u64));
                            }
                        }
                        settled = settled.remove(nei as int);
                    }
                    let ghost p0 = prev@;
                    record_prev(&mut prev, nei, next_cost, node);
                    let pri = next_cost + heuristic[nei];
                    let ghost q1 = queue@;
                    queue.push((pri, nei));
                    let ghost t0 = table@;
                    table.set(nei, Some(next_cost));
                    proof {
                        lemma_count_some_update(t0, nei as int, next_cost);
                        lemma_count_some_bounds(table@);
                        lemma_sum_pot_update(t0, big, nei as int, next_cost);
                        lemma_reachable_step(
                            g,
                            start as int,
                            node as int,
                            nei,
                            total_cost as int,
                            cost as int,
                        );
                        assert((next_cost as int) <= (count_some(t0) + 1) * (COST_LIMIT as int))
                            by (nonlinear_arith)
                            requires
                                next_cost == total_cost + cost,
                                (total_cost as int) <= count_some(t0) * (COST_LIMIT as int),
                                0 <= (cost as int) <= (COST_LIMIT as int),
                        ;
                        assert(count_some(t0) * (COST_LIMIT as int) <= count_some(table@) * (
                        COST_LIMIT as int) && (count_some(t0) + 1) * (COST_LIMIT as int) <= (
                        count_some(table@) + 1) * (COST_LIMIT as int) && count_some(table@) * (
                        COST_LIMIT as int) <= (n as int) * (COST_LIMIT as int))
                            by (nonlinear_arith)
                            requires
                                count_some(t0) <= count_some(table@),
                                count_some(table@) <= n,
                                0 <= count_some(t0),
                        ;
                        if t0[nei as int] is Some {
                            assert(count_some(table@) == count_some(t0));
                            assert((next_cost as int) < pot(t0[nei as int], big));
                        } else {
                            assert(count_some(table@) == count_some(t0) + 1);
                            assert((next_cost as int) <= count_some(table@) * (COST_LIMIT as int));
                            assert(count_some(table@) * (COST_LIMIT as int) < big)
                                by (nonlinear_arith)
                                requires
                                    count_some(table@) <= n,
                                    0 <= count_some(table@),
                                    big == (n as int) * (COST_LIMIT as int) + 1,
                            ;
                        }
                        assert(sum_pot(table@, big) <= sum_pot(t0, big) - 1);
                        assert forall|v: int| 0 <= v < n && tabled(table@, v) implies popped.contains(
                            v,
                        ) || in_queue(queue@, v) by {
                            if tabled(t0, v) {
                                if !popped.contains(v) {
                                    let qi = choose|qi: int|
                                        0 <= qi < q1.len() && (#[trigger] q1[qi]).1 == v;
                                    assert((queue@[qi]).1 == v);
                                }
                            } else {
                                assert(v == nei as int);
                                assert((queue@[queue@.len() - 1]).1 == v);
                            }
                        }
                        assert forall|v: int| 0 <= v < n implies ((#[trigger] table@[v]) matches
                        Some(c) ==> (c as int) <= count_some(table@) * (COST_LIMIT as int)) by {
                            if v != nei as int {
                                assert(t0[v] == table@[v]);
                            }
                        }
                        lemma_prev_update(
                            g,
                            start as int,
                            total_cost as int,
                            cost as int,
                            t0,
                            p0,
                            table@,
                            prev@,
                            nei as int,
                            next_cost,
                            node,
                        );
                        assert(pri == next_cost + heuristic@[nei as int]);
                        assert forall|v: int|
                            0 <= v < g.len() && #[trigger] tabled(table@, v) && !settled.insert(
                                node as int,
                            ).contains(v) implies exists|qi: int|
                            0 <= qi < queue@.len() && (#[trigger] queue@[qi]).1 == v && queue@[
                            qi].0 == table@[v]->Some_0 + heuristic@[v] by {
                            if v == nei as int {
                                assert((queue@[queue@.len() - 1]).1 == v && (queue@[queue@.len()
                                    - 1]).0 == table@[v]->Some_0 + heuristic@[v]);
                            } else {
                                if tabled(t0, v) {
                                    let qi = choose|qi: int|
                                        0 <= qi < q1.len() && (#[trigger] q1[qi]).1 == v && q1[
                                        qi].0 == t0[v]->Some_0 + heuristic@[v];
                                    assert((queue@[qi]).1 == v && (queue@[qi]).0 == table@[
                                    v]->Some_0 + heuristic@[v]);
                                }
                            }
                        }
                        assert forall|qi: int| 0 <= qi < queue@.len() implies {
                            let e = #[trigger] queue@[qi];
                            tabled(table@, e.1 as int) && table@[e.1 as int]->Some_0 + heuristic@[
                            e.1 as int] <= e.0
                        } by {
                            if qi < q1.len() {
                                assert(queue@[qi] == q1[qi]);
                                if (q1[qi].1 as int) == nei as int {
                                    assert(tabled(t0, nei as int));
                                    assert(t0[nei as int]->Some_0 > next_cost);
                                    assert(table@[nei as int]->Some_0 <= t0[nei as int]->Some_0);
                                } else {
                                    assert(table@[q1[qi].1 as int] == t0[q1[qi].1 as int]);
                                }
                            } else {
                                assert(queue@[qi] == (pri, nei));
                            }
                        }
                        assert forall|z: int, j2: int|
                            settled.contains(z) && 0 <= z < g.len() && 0 <= j2 < g[z].len() implies {
                            let e = #[trigger] g[z][j2];
                            below_bound(lowest, table@[z]->Some_0 + e.1) ==> tabled(
                                table@,
                                e.0 as int,
                            ) && table@[e.0 as int]->Some_0 <= table@[z]->Some_0 + e.1
                        } by {
                            assert(z != nei as int);
                            assert(table@[z] == t0[z]);
                            let e2 = g[z][j2];
                            if (e2.0 as int) == nei as int {
                                if below_bound(lowest, t0[z]->Some_0 + e2.1) {
                                    assert(tabled(t0, nei as int) && t0[nei as int]->Some_0 <= t0[
                                    z]->Some_0 + e2.1);
                                    assert(table@[nei as int]->Some_0 == next_cost < t0[
                                    nei as int]->Some_0);
                                }
                            } else {
                                assert(table@[e2.0 as int] == t0[e2.0 as int]);
                            }
                        }
                        if exhaustive {
                            assert forall|z: int, j2: int|
                                settled.contains(z) && 0 <= z < g.len() && 0 <= j2 < g[
                                z].len() implies {
                                let e = #[trigger] g[z][j2];
                                (below_bound(lowest, table@[z]->Some_0 + e.1) && tabled(
                                    table@,
                                    e.0 as int,
                                ) && table@[e.0 as int]->Some_0 == table@[z]->Some_0 + e.1) ==> (
                                prev@[e.0 as int] matches Some(pe) && pe.1@.contains(z as usize))
                            } by {
                                assert(z != nei as int);
                                assert(table@[z] == t0[z]);
                                let e2 = g[z][j2];
                                if (e2.0 as int) == nei as int {
                                    if below_bound(lowest, t0[z]->Some_0 + e2.1) && tabled(
                                        t0,
                                        nei as int,
                                    ) {
                                        assert(t0[nei as int]->Some_0 <= t0[z]->Some_0 + e2.1);
                                        assert(table@[nei as int]->Some_0 == next_cost);
                                        assert(next_cost < t0[nei as int]->Some_0);
                                    }
                                } else {
                                    assert(table@[e2.0 as int] == t0[e2.0 as int]);
                                    assert(prev@[e2.0 as int] == p0[e2.0 as int]);
                                }
                            }
                            assert forall|jj: int| 0 <= jj < j + 1 implies {
                                let e = #[trigger] g[node as int][jj];
                                (below_bound(lowest, total_cost + e.1) && tabled(table@, e.0 as int)
                                    && table@[e.0 as int]->Some_0 == total_cost + e.1) ==> (prev@[
                                e.0 as int] matches Some(pe) && pe.1@.contains(node))
                            } by {
                                let e = g[node as int][jj];
                                if jj == j {
                                    assert(e == edge);
                                    assert(table@[nei as int] == Some(next_cost));
                                    match p0[nei as int] {
                                        Option::Some(o) => {
                                            assert(t0[nei as int] == Some(o.0));
                                            assert(o.0 > next_cost);
                                            assert((prev@[nei as int]->Some_0).1@ == seq![node]);
                                        },
                                        Option::None => {
                                            assert((prev@[nei as int]->Some_0).1@ == seq![node]);
                                        },
                                    }
                                    assert((prev@[nei as int]->Some_0).1@[0] == node);
                                    assert((prev@[nei as int]->Some_0).1@.contains(node));
                                } else {
                                    if (e.0 as int) == nei as int {
                                        if below_bound(lowest, total_cost + e.1) && table@[
                                            nei as int]->Some_0 == total_cost + e.1 {
                                            assert(next_cost == total_cost + e.1);
                                            match p0[nei as int] {
                                                Option::Some(o) => {
                                                    assert(t0[nei as int] == Some(o.0));
                                                    assert(o.0 > next_cost);
                                                    assert((prev@[nei as int]->Some_0).1@ == seq![
                                                        node,
                                                    ]);
                                                },
                                                Option::None => {
                                                    assert((prev@[nei as int]->Some_0).1@ == seq![
                                                        node,
                                                    ]);
                                                },
                                            }
                                            assert((prev@[nei as int]->Some_0).1@[0] == node);
                                            assert((prev@[nei as int]->Some_0).1@.contains(node));
                                        }
                                    } else {
                                        assert(table@[e.0 as int] == t0[e.0 as int]);
                                        assert(prev@[e.0 as int] == p0[e.0 as int]);
                                    }
                                }
                            }
                        }
                        assert forall|jj: int| 0 <= jj < j + 1 implies {
                            let e = #[trigger] g[node as int][jj];
                            below_bound(lowest, total_cost + e.1) ==> tabled(table@, e.0 as int)
                                && table@[e.0 as int]->Some_0 <= total_cost + e.1
                        } by {
                            let e = g[node as int][jj];
                            if jj == j {
                                assert(e == edge);
                                assert(table@[nei as int] == Some(next_cost));
                            } else {
                                if (e.0 as int) == nei as int {
                                    if below_bound(lowest, total_cost + e.1) {
                                        assert(tabled(t0, nei as int) && t0[nei as int]->Some_0
                                            <= total_cost + e.1);
                                        assert(table@[nei as int]->Some_0 == next_cost < t0[
                                        nei as int]->Some_0);
                                    }
                                } else {
                                    assert(table@[e.0 as int] == t0[e.0 as int]);
                                }
                            }
                        }
                        assert forall|v: int|
                            0 <= v < n && #[trigger] tabled(table@, v) && v != start
                                as int implies prev@[v] is Some by {
                            if v != nei as int {
                                assert(tabled(t0, v));
                                assert(prev@[v] == p0[v]);
                            }
                        }
                    }
                } else {
                    if exhaustive {
                        let equal_cost = match cur {
                            Option::Some(c) => c == next_cost,
                            Option::None => false,
                        };
                        if equal_cost {
                            let ghost p0 = prev@;
                            let ghost t0 = table@;
                            record_prev(&mut prev, nei, next_cost, node);
                            proof {
                                lemma_reachable_step(
                                    g,
                                    start as int,
                                    node as int,
                                    nei,
                                    total_cost as int,
                                    cost as int,
                                );
                                lemma_prev_update(
                                    g,
                                    start as int,
                                    total_cost as int,
                                    cost as int,
                                    t0,
                                    p0,
                                    table@,
                                    prev@,
                                    nei as int,
                                    next_cost,
                                    node,
                                );
                                assert((prev@[nei as int]->Some_0).1@.contains(node)) by {
                                    match p0[nei as int] {
                                        Option::Some(o) => {
                                            assert(t0[nei as int] == Some(o.0));
                                            assert(o.0 == next_cost);
                                            if o.1@.contains(node) {
                                                assert((prev@[nei as int]->Some_0).1@ == o.1@);
                                            } else {
                                                assert((prev@[nei as int]->Some_0).1@ == o.1@.push(
                                                    node,
                                                ));
                                                assert((prev@[nei as int]->Some_0).1@[(prev@[
                                                nei as int]->Some_0).1@.len() - 1] == node);
                                            }
                                        },
                                        Option::None => {
                                            assert((prev@[nei as int]->Some_0).1@ == seq![node]);
                                            assert((prev@[nei as int]->Some_0).1@[0] == node);
                                        },
                                    }
                                }
                                assert forall|z: int, j2: int|
                                    settled.contains(z) && 0 <= z < g.len() && 0 <= j2 < g[
                                    z].len() implies {
                                    let e = #[trigger] g[z][j2];
                                    (below_bound(lowest, table@[z]->Some_0 + e.1) && tabled(
                                        table@,
                                        e.0 as int,
                                    ) && table@[e.0 as int]->Some_0 == table@[z]->Some_0 + e.1)
                                        ==> (prev@[e.0 as int] matches Some(pe) && pe.1@.contains(
                                        z as usize,
                                    ))
                                } by {
                                    let e2 = g[z][j2];
                                    if (e2.0 as int) == nei as int {
                                        match p0[nei as int] {
                                            Option::Some(o) => {
                                                assert((prev@[nei as int]->Some_0).1@ == o.1@ || (
                                                prev@[nei as int]->Some_0).1@ == o.1@.push(node));
                                                if o.1@.contains(z as usize) {
                                                    let ki = choose|ki: int|
                                                        0 <= ki < o.1@.len() && o.1@[ki] == (
                                                        z as usize);
                                                    assert((prev@[nei as int]->Some_0).1@[ki] == (
                                                    z as usize));
                                                }
                                            },
                                            Option::None => {},
                                        }
                                    } else {
                                        assert(prev@[e2.0 as int] == p0[e2.0 as int]);
                                    }
                                }
                                assert forall|jj: int| 0 <= jj < j + 1 implies {
                                    let e = #[trigger] g[node as int][jj];
                                    (below_bound(lowest, total_cost + e.1) && tabled(
                                        table@,
                                        e.0 as int,
                                    ) && table@[e.0 as int]->Some_0 == total_cost + e.1) ==> (prev@[
                                    e.0 as int] matches Some(pe) && pe.1@.contains(node))
                                } by {
                                    let e = g[node as int][jj];
                                    if jj < j && (e.0 as int) != nei as int {
                                        assert(prev@[e.0 as int] == p0[e.0 as int]);
                                    } else if jj < j && (e.0 as int) == nei as int {
                                        match p0[nei as int] {
                                            Option::Some(o) => {
                                                if o.1@.contains(node) {
                                                    let ki = choose|ki: int|
                                                        0 <= ki < o.1@.len() && o.1@[ki] == node;
                                                    assert((prev@[nei as int]->Some_0).1@.len()
                                                        >= o.1@.len());
                                                    assert((prev@[nei as int]->Some_0).1@[ki]
                                                        == node);
                                                }
                                            },
                                            Option::None => {},
                                        }
                                    }
                                }
                                assert forall|v: int|
                                    0 <= v < n && #[trigger] tabled(table@, v) && v != start
                                        as int implies prev@[v] is Some by {
                                    if v != nei as int {
                                        assert(prev@[v] == p0[v]);
                                    }
                                }
                            }
                        }
                    }
                    proof {
                        assert(tabled(table@, nei as int));
                        assert(table@[nei as int]->Some_0 <= next_cost as int);
                        assert forall|jj: int| 0 <= jj < j + 1 implies {
                            let e = #[trigger] g[node as int][jj];
                            below_bound(lowest, total_cost + e.1) ==> tabled(table@, e.0 as int)
                                && table@[e.0 as int]->Some_0 <= total_cost + e.1
                        } by {
                            if jj == j {
                                assert(g[node as int][jj] == edge);
                            }
                        }
                        if exhaustive {
                            assert forall|jj: int| 0 <= jj < j + 1 implies {
                                let e = #[trigger] g[node as int][jj];
                                (below_bound(lowest, total_cost + e.1) && tabled(table@, e.0 as int)
                                    && table@[e.0 as int]->Some_0 == total_cost + e.1) ==> (prev@[
                                e.0 as int] matches Some(pe) && pe.1@.contains(node))
                            } by {
                                let e = g[node as int][jj];
                                if jj == j {
                                    assert(e == edge);
                                }
                            }
                        }
                    }
                }
            } else {
                proof {
                    assert(!below_bound(lowest, next_cost as int));
                    assert forall|jj: int| 0 <= jj < j + 1 implies {
                        let e = #[trigger] g[node as int][jj];
                        below_bound(lowest, total_cost + e.1) ==> tabled(table@, e.0 as int)
                            && table@[e.0 as int]->Some_0 <= total_cost + e.1
                    } by {
                        if jj == j {
                            assert(g[node as int][jj] == edge);
                        }
                    }
                    if exhaustive {
                        assert forall|jj: int| 0 <= jj < j + 1 implies {
                            let e = #[trigger] g[node as int][jj];
                            (below_bound(lowest, total_cost + e.1) && tabled(table@, e.0 as int)
                                && table@[e.0 as int]->Some_0 == total_cost + e.1) ==> (prev@[
                            e.0 as int] matches Some(pe) && pe.1@.contains(node))
                        } by {
                            let e = g[node as int][jj];
                            if jj == j {
                                assert(e == edge);
                            }
                        }
                    }
                }
            }
            j = j + 1;
        }
        proof {
            settled = settled.insert(node as int);
            assert forall|z: int, j2: int|
                settled.contains(z) && 0 <= z < g.len() && 0 <= j2 < g[z].len() implies {
                let e = #[trigger] g[z][j2];
                below_bound(lowest, table@[z]->Some_0 + e.1) ==> tabled(table@, e.0 as int)
                    && table@[e.0 as int]->Some_0 <= table@[z]->Some_0 + e.1
            } by {
                if z == node as int {
                    assert(table@[z] == Some(total_cost));
                }
            }
            if exhaustive {
                assert forall|z: int, j2: int|
                    settled.contains(z) && 0 <= z < g.len() && 0 <= j2 < g[z].len() implies {
                    let e = #[trigger] g[z][j2];
                    (below_bound(lowest, table@[z]->Some_0 + e.1) && tabled(table@, e.0 as int)
                        && table@[e.0 as int]->Some_0 == table@[z]->Some_0 + e.1) ==> (prev@[
                    e.0 as int] matches Some(pe) && pe.1@.contains(z as usize))
                } by {
                    if z == node as int {
                        assert(table@[z] == Some(total_cost));
                        assert(z as usize == node);
                    }
                }
            }
            lemma_sum_pot_nonneg(table@, big);
        }
    }
    match lowest {
        Option::Some(lc) => {
            proof {
                if exhaustive {
                    assert forall|v: int|
                        0 <= v < n && #[trigger] tabled(table@, v) implies settled.contains(v) by {
                        if !settled.contains(v) {
                            let qi = choose|qi: int|
                                0 <= qi < queue@.len() && (#[trigger] queue@[qi]).1 == v && queue@[
                                qi].0 == table@[v]->Some_0 + heuristic@[v];
                        }
                    }
                    assert forall|v: int, c: int|
                        0 <= v < n && #[trigger] reachable(g, start as int, v, c) && c
                            <= lc implies tabled(table@, v) && table@[v]->Some_0 <= c by {
                        let p = choose|p: Seq<usize>|
                            #[trigger] is_walk(g, p, c) && p.first() as int == start as int
                                && p.last() as int == v;
                        lemma_walk_frontier(
                            g,
                            table@,
                            settled,
                            lowest,
                            start as int,
                            p,
                            c,
                        );
                        if !(tabled(table@, v) && table@[v]->Some_0 <= c) {
                            let (w, c2) = choose|w: int, c2: int|
                                #![trigger reachable(g, w, p.last() as int, c2)]
                                {
                                    &&& 0 <= w < g.len()
                                    &&& tabled(table@, w)
                                    &&& !settled.contains(w)
                                    &&& 0 <= c2 <= c
                                    &&& table@[w]->Some_0 <= c - c2
                                    &&& reachable(g, w, p.last() as int, c2)
                                };
                        }
                    }
                    assert forall|v: int, c: int|
                        0 <= v < n && v != start as int && #[trigger] reachable(
                            g,
                            start as int,
                            v,
                            c,
                        ) && c <= lc implies prev@[v] is Some && ((prev@[v]->Some_0).0 as int)
                        <= c by {
                        assert(tabled(table@, v) && table@[v]->Some_0 <= c);
                    }
                    assert forall|v: int, c: int|
                        0 <= v < n && prev@[v] is Some && (prev@[v]->Some_0).0 <= lc
                            && #[trigger] reachable(g, start as int, v, c) implies ((prev@[
                    v]->Some_0).0 as int) <= c by {
                        if c <= lc {
                            assert(tabled(table@, v) && table@[v]->Some_0 <= c);
                        }
                    }
                    assert forall|v: int, p2: int, wk: int, dp: int|
                        #![trigger has_edge(g, p2, v, wk), reachable(g, start as int, p2, dp)]
                        (0 <= v < n && prev@[v] is Some && (prev@[v]->Some_0).0 <= lc && 0 <= p2
                            < n && 0 <= wk && has_edge(g, p2, v, wk) && reachable(
                            g,
                            start as int,
                            p2,
                            dp,
                        ) && (forall|c2: int|
                            #[trigger] reachable(g, start as int, p2, c2) ==> dp <= c2) && dp + wk
                            == (prev@[v]->Some_0).0) implies (prev@[v]->Some_0).1@.contains(
                        p2 as usize) by {
                        let e0 = (prev@[v]->Some_0).0;
                        assert(table@[v] == Some(e0));
                        assert(dp >= 0) by {
                            let pw = choose|pw: Seq<usize>|
                                #[trigger] is_walk(g, pw, dp) && pw.first() as int == start as int
                                    && pw.last() as int == p2;
                            lemma_walk_nonneg(g, pw, dp);
                        }
                        assert(dp <= lc);
                        if p2 == start as int {
                            lemma_walk_single(g, start);
                            assert(reachable(g, start as int, start as int, 0));
                            assert(dp <= 0);
                            assert(table@[p2] == Some(0u64));
                        } else {
                            assert(tabled(table@, p2) && table@[p2]->Some_0 <= dp);
                        }
                        assert(reachable(g, start as int, p2, table@[p2]->Some_0 as int));
                        assert(dp <= table@[p2]->Some_0);
                        assert(table@[p2]->Some_0 == dp);
                        assert(settled.contains(p2));
                        let j2 = choose|j2: int|
                            0 <= j2 < g[p2].len() && (#[trigger] g[p2][j2]).0 == v && g[p2][j2].1
                                == wk;
                        assert(below_bound(lowest, table@[p2]->Some_0 + g[p2][j2].1));
                        assert(table@[g[p2][j2].0 as int]->Some_0 == table@[p2]->Some_0 + g[p2][j2].1);
                        assert(prev@[g[p2][j2].0 as int] matches Some(pe) && pe.1@.contains(
                            p2 as usize,
                        ));
                    }
                }
            }
            return Some((lc, prev));
        },
        Option::None => {
            proof {
                assert forall|t: int, c: int| 0 <= t < n && targets@[t] implies !reachable(
                    g,
                    start as int,
                    t,
                    c,
                ) by {
                    if reachable(g, start as int, t, c) {
                        let p = choose|p: Seq<usize>|
                            #[trigger] is_walk(g, p, c) && p.first() as int == start as int
                                && p.last() as int == t;
                        assert forall|v: int|
                            0 <= v < n && #[trigger] tabled(table@, v) implies settled.contains(
                            v,
                        ) by {
                            if !settled.contains(v) {
                                let qi = choose|qi: int|
                                    0 <= qi < queue@.len() && (#[trigger] queue@[qi]).1 == v
                                        && queue@[qi].0 == table@[v]->Some_0 + heuristic@[v];
                            }
                        }
                        assert forall|u: int, jj: int|
                            tabled(table@, u) && 0 <= jj < g[u].len() implies tabled(
                            table@,
                            (#[trigger] g[u][jj]).0 as int,
                        ) by {
                            assert(settled.contains(u));
                            assert(below_bound(lowest, table@[u]->Some_0 + g[u][jj].1));
                        }
                        lemma_walks_stay_tabled(g, table@, p, c);
                        assert(tabled(table@, t));
                        assert(popped.contains(t));
                        assert(!targets@[t]);
                    }
                }
            }
            return None;
        },
    }
}

/// The all-zero heuristic, which turns the search into plain best-first
/// search on accumulated cost.
fn zero_heuristic(n: usize) -> (r: Vec<u64>)
    ensures
        r@.len() == n,
        forall|i: int| 0 <= i < n ==> r@[i] == 0,
{
    let mut v: Vec<u64> = Vec::new();
    let mut i: usize = 0;
    while i < n
        invariant
            i <= n,
            v@.len() == i,
            forall|j: int| 0 <= j < i ==> v@[j] == 0,
        decreases n - i,
    {
        v.push(0);
        i = i + 1;
    }
    v
}

/// A* search returning only the cost of the first target found: `Some(c)`
/// with `c` the cost of an actual walk from `start` to a target if one is
/// reachable — the least such cost when the heuristic is admissible — and
/// `None` if none is.
pub fn a_star(
    adj: &Vec<Vec<(usize, u64)>>,
    start: usize,
    targets: &Vec<bool>,
    heuristic: &Vec<u64>,
) -> (r: Option<u64>)
    requires
        adj@.len() <= NODE_LIMIT,
        (start as int) < adj@.len(),
        targets@.len() == adj@.len(),
        heuristic@.len() == adj@.len(),
        graph_wf(adj_view(adj)),
        forall|i: int| 0 <= i < heuristic@.len() ==> heuristic@[i] <= COST_LIMIT,
    ensures
        admissible_spec(adj_view(adj), targets@, heuristic@) ==> (match r {
            Option::Some(c) => forall|t: int, c2: int|
                0 <= t < adj@.len() && targets@[t] && #[trigger] reachable(
                    adj_view(adj),
                    start as int,
                    t,
                    c2,
                ) ==> (c as int) <= c2,
            Option::None => true,
        }),
        match r {
            Option::Some(c) => exists|t: int|
                0 <= t < adj@.len() && targets@[t] && reachable(
                    adj_view(adj),
                    start as int,
                    t,
                    c as int,
                ),
            Option::None => forall|t: int, c: int|
                0 <= t < adj@.len() && targets@[t] ==> !reachable(
                    adj_view(adj),
                    start as int,
                    t,
                    c,
                ),
        },
{
    match a_star_ex(adj, start, targets, heuristic, false) {
        Option::Some(p) => Some(p.0),
        Option::None => None,
    }
}

/// Dijkstra's algorithm: A* with the zero heuristic. `Some(c)` carries the
/// least cost of any walk from `start` to any target; `None` means no target
/// is reachable.
pub fn dijkstra(adj: &Vec<Vec<(usize, u64)>>, start: usize, targets: &Vec<bool>) -> (r: Option<
    u64,
>)
    requires
        adj@.len() <= NODE_LIMIT,
        (start as int) < adj@.len(),
        targets@.len() == adj@.len(),
        graph_wf(adj_view(adj)),
    ensures
        match r {
            Option::Some(c) => (exists|t: int|
                0 <= t < adj@.len() && targets@[t] && reachable(
                    adj_view(adj),
                    start as int,
                    t,
                    c as int,
                )) && (forall|t: int, c2: int|
                0 <= t < adj@.len() && targets@[t] && #[trigger] reachable(
                    adj_view(adj),
                    start as int,
                    t,
                    c2,
                ) ==> (c as int) <= c2),
            Option::None => forall|t: int, c: int|
                0 <= t < adj@.len() && targets@[t] ==> !reachable(
                    adj_view(adj),
                    start as int,
                    t,
                    c,
                ),
        },
{
    let h = zero_heuristic(adj.len());
    proof {
        lemma_zero_admissible(adj_view(adj), targets@, h@);
    }
    match a_star_ex(adj, start, targets, &h, false) {
        Option::Some(p) => Some(p.0),
        Option::None => None,
    }
}

/// The all-zero heuristic is admissible: walk costs are never negative.
pub proof fn lemma_zero_admissible(g: Seq<Seq<(usize, u64)>>, targets: Seq<bool>, h: Seq<u64>)
    requires
        forall|i: int| 0 <= i < h.len() ==> h[i] == 0,
        h.len() == g.len(),
    ensures
        admissible_spec(g, targets, h),
{
    assert forall|v: int, t: int, c: int|
        0 <= v < g.len() && 0 <= t < g.len() && targets[t] && #[trigger] reachable(
            g,
            v,
            t,
            c,
        ) implies h[v] <= c by {
        let p = choose|p: Seq<usize>|
            #[trigger] is_walk(g, p, c) && p.first() as int == v && p.last() as int == t;
        lemma_walk_nonneg(g, p, c);
    }
}

/// Dijkstra's algorithm with the full result of the general search: the
/// least cost of reaching any target together with the predecessor table,
/// with the exhaustive mode of `a_star_ex` available.
pub fn dijkstra_ex(
    adj: &Vec<Vec<(usize, u64)>>,
    start: usize,
    targets: &Vec<bool>,
    exhaustive: bool,
) -> (r: Option<(u64, Vec<Option<(u64, Vec<usize>)>>)>)
    requires
        adj@.len() <= NODE_LIMIT,
        (start as int) < adj@.len(),
        targets@.len() == adj@.len(),
        graph_wf(adj_view(adj)),
    ensures
        match r {
            Option::Some(pr) => forall|t: int, c: int|
                0 <= t < adj@.len() && targets@[t] && #[trigger] reachable(
                    adj_view(adj),
                    start as int,
                    t,
                    c,
                ) ==> (pr.0 as int) <= c,
            Option::None => true,
        },
        exhaustive ==> (match r {
            Option::Some(pr) => {
                &&& forall|v: int, c: int|
                    0 <= v < adj@.len() && v != start as int && #[trigger] reachable(
                        adj_view(adj),
                        start as int,
                        v,
                        c,
                    ) && c <= pr.0 ==> pr.1@[v] is Some && ((pr.1@[v]->Some_0).0 as int) <= c
                &&& forall|v: int, c: int|
                    0 <= v < adj@.len() && pr.1@[v] is Some && (pr.1@[v]->Some_0).0 <= pr.0
                        && #[trigger] reachable(adj_view(adj), start as int, v, c) ==> ((pr.1@[
                    v]->Some_0).0 as int) <= c
                &&& forall|v: int, p: int, wk: int, dp: int|
                    #![trigger has_edge(adj_view(adj), p, v, wk), reachable(adj_view(adj), start as int, p, dp)]
                    (0 <= v < adj@.len() && pr.1@[v] is Some && (pr.1@[v]->Some_0).0 <= pr.0 && 0
                        <= p < adj@.len() && 0 <= wk && has_edge(adj_view(adj), p, v, wk)
                        && reachable(adj_view(adj), start as int, p, dp) && (forall|c2: int|
                        #[trigger] reachable(adj_view(adj), start as int, p, c2) ==> dp <= c2) && dp
                        + wk == (pr.1@[v]->Some_0).0) ==> (pr.1@[v]->Some_0).1@.contains(p as usize)
            },
            Option::None => true,
        }),
        match r {
            Option::Some(pr) => {
                &&& exists|t: int|
                    0 <= t < adj@.len() && targets@[t] && reachable(
                        adj_view(adj),
                        start as int,
                        t,
                        pr.0 as int,
                    )
                &&& pr.1@.len() == adj@.len()
                &&& forall|v: int|
                    0 <= v < adj@.len() ==> ((#[trigger] pr.1@[v]) matches Some(e) ==> {
                        &&& reachable(adj_view(adj), start as int, v, e.0 as int)
                        &&& e.1@.len() >= 1
                        &&& forall|k: int|
                            0 <= k < e.1@.len() ==> (#[trigger] e.1@[k]) < adj@.len() && (exists|
                                wk: int,
                                cp: int,
                            |
                                #![trigger has_edge(adj_view(adj), e.1@[k] as int, v, wk), reachable(adj_view(adj), start as int, e.1@[k] as int, cp)]
                                {
                                    &&& 0 <= wk
                                    &&& 0 <= cp
                                    &&& has_edge(adj_view(adj), e.1@[k] as int, v, wk)
                                    &&& reachable(adj_view(adj), start as int, e.1@[k] as int, cp)
                                    &&& cp + wk == e.0
                                })
                        &&& forall|k1: int, k2: int|
                            0 <= k1 < k2 < e.1@.len() ==> e.1@[k1] != e.1@[k2]
                    })
            },
            Option::None => forall|t: int, c: int|
                0 <= t < adj@.len() && targets@[t] ==> !reachable(
                    adj_view(adj),
                    start as int,
                    t,
                    c,
                ),
        },
{
    let h = zero_heuristic(adj.len());
    proof {
        lemma_zero_admissible(adj_view(adj), targets@, h@);
    }
    a_star_ex(adj, start, targets, &h, exhaustive)
}

/// Any two searches whose results are pinned to the least target cost agree:
/// a cost that some walk to a target realizes, and that no walk to any target
/// undercuts, is unique. In particular `dijkstra` and `a_star` under any
/// admissible heuristic return the same cost on the same graph, start and
/// targets.
pub proof fn lemma_min_target_cost_unique(
    g: Seq<Seq<(usize, u64)>>,
    start: int,
    targets: Seq<bool>,
    c1: u64,
    c2: u64,
)
    requires
        exists|t: int| 0 <= t < g.len() && targets[t] && #[trigger] reachable(g, start, t, c1 as int),
        forall|t: int, c: int|
            0 <= t < g.len() && targets[t] && #[trigger] reachable(g, start, t, c) ==> (c1 as int)
                <= c,
        exists|t: int| 0 <= t < g.len() && targets[t] && #[trigger] reachable(g, start, t, c2 as int),
        forall|t: int, c: int|
            0 <= t < g.len() && targets[t] && #[trigger] reachable(g, start, t, c) ==> (c2 as int)
                <= c,
    ensures
        c1 == c2,
{
}

} // verus!
