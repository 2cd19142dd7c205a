use vstd::prelude::*;
use priority_queue::PriorityQueue;
use crate::graph::{Graph, is_walk, walk_end, walk_cost, is_least_cost, nonnegative, lemma_index_of};
use crate::queue::{queue_items, queue_new, queue_push, queue_pop};

verus! {

/// Per node: its predecessor and cost once it has been reached.
pub type Entry = Option<(Option<usize>, i64)>;

/// Largest weight an `i32` can carry.
pub const MAX_WEIGHT: i64 = 2147483647;

pub(crate) open spec fn reached(e: Seq<Entry>, v: int) -> bool {
    e[v].is_some()
}

pub(crate) open spec fn cost_at(e: Seq<Entry>, v: int) -> int {
    e[v].unwrap().1 as int
}

pub(crate) open spec fn pred_at(e: Seq<Entry>, v: int) -> Option<usize> {
    e[v].unwrap().0
}

/// Edge `j` of node `u` is relaxed: its far end is reached at no more than the
/// cost of going through `u`.
pub(crate) open spec fn edge_ok(g: &Graph, e: Seq<Entry>, u: int, j: int) -> bool {
    let (w, v) = g.adj@[u]@[j];
    reached(e, v as int) && cost_at(e, v as int) <= cost_at(e, u) + w
}

pub(crate) open spec fn relaxed(g: &Graph, e: Seq<Entry>, u: int) -> bool {
    forall|j: int| 0 <= j < g.adj@[u]@.len() ==> #[trigger] edge_ok(g, e, u, j)
}

/// Every reached node other than `skip` that is not queued has all its edges relaxed.
pub(crate) open spec fn settled(g: &Graph, e: Seq<Entry>, q: Map<usize, i64>, skip: int) -> bool {
    forall|u: int|
        0 <= u < e.len() && reached(e, u) && !q.contains_key(u as usize) && u != skip ==> #[trigger] relaxed(
            g,
            e,
            u,
        )
}

/// Every queued node is a reached node.
pub(crate) open spec fn queued_reached(e: Seq<Entry>, q: Map<usize, i64>) -> bool {
    forall|v: usize| #[trigger] q.contains_key(v) ==> v < e.len() && reached(e, v as int)
}

/// The predecessor links form a tree rooted at `s`, each link an edge whose weight
/// is the difference of the two costs, and ranks fall along every link.
pub(crate) open spec fn tree_ok(g: &Graph, s: int, e: Seq<Entry>, rank: Seq<int>) -> bool {
    &&& e.len() == g.names.len()
    &&& rank.len() == e.len()
    &&& 0 <= s < e.len()
    &&& e[s] == Some((None::<usize>, 0i64))
    &&& forall|v: int| 0 <= v < e.len() ==> 0 <= #[trigger] rank[v] <= e.len()
    &&& forall|v: int| 0 <= v < e.len() && #[trigger] reached(e, v) ==> link_ok(g, s, e, rank, v)
}

pub(crate) open spec fn link_ok(g: &Graph, s: int, e: Seq<Entry>, rank: Seq<int>, v: int) -> bool {
    match pred_at(e, v) {
        None => v == s,
        Some(u) => {
            &&& u < e.len()
            &&& reached(e, u as int)
            &&& rank[u as int] < rank[v]
            &&& exists|j: int|
                0 <= j < g.adj@[u as int]@.len() && (#[trigger] g.adj@[u as int]@[j]).1 == v && cost_at(e, v)
                    == cost_at(e, u as int) + g.adj@[u as int]@[j].0
        },
    }
}

pub(crate) open spec fn weights_ok(g: &Graph) -> bool {
    forall|u: int, j: int|
        0 <= u < g.adj.len() && 0 <= j < g.adj@[u]@.len() ==> 0 <= (#[trigger] g.adj@[u]@[j]).0
}

/// The node reached after the first `i` hops of a walk from `s` is queued, and its
/// cost is no more than those hops cost.
pub(crate) open spec fn queued_on(
    g: &Graph,
    s: int,
    e: Seq<Entry>,
    q: Map<usize, i64>,
    hops: Seq<(int, Seq<char>)>,
    i: int,
) -> bool {
    let x = g.index@[walk_end(g.name(s), hops.take(i))];
    q.contains_key(x) && reached(e, x as int) && cost_at(e, x as int) <= walk_cost(hops.take(i))
}

pub(crate) proof fn lemma_walk_end_key(g: &Graph, s: Seq<char>, hops: Seq<(int, Seq<char>)>)
    requires
        is_walk(g@, s, hops),
    ensures
        g@.contains_key(walk_end(s, hops)),
{
    if hops.len() > 0 {
        assert(g@.contains_key(hops.last().1));
    }
}

/// A hop listed under node `u` leads along one of `u`'s edges.
proof fn lemma_hop_edge(g: &Graph, u: int, h: (int, Seq<char>)) -> (j: int)
    requires
        g.wf(),
        0 <= u < g.names.len(),
        g@[g.name(u)].contains(h),
    ensures
        0 <= j < g.adj@[u]@.len(),
        g.adj@[u]@[j].0 as int == h.0,
        g.index@[h.1] == g.adj@[u]@[j].1,
        g.name(g.adj@[u]@[j].1 as int) == h.1,
{
    lemma_index_of(g, u);
    let j = choose|j: int| 0 <= j < g.row(u).len() && g.row(u)[j] == h;
    let v = g.adj@[u]@[j].1 as int;
    lemma_index_of(g, v);
    j
}

/// Costs along a walk do not fall when the weights are non-negative.
proof fn lemma_prefix_cost(g: &Graph, s: Seq<char>, hops: Seq<(int, Seq<char>)>, i: int)
    requires
        nonnegative(g@),
        is_walk(g@, s, hops),
        0 <= i <= hops.len(),
    ensures
        walk_cost(hops.take(i)) <= walk_cost(hops),
    decreases hops.len(),
{
    if i == hops.len() {
        assert(hops.take(i) =~= hops);
    } else {
        let prev = hops.drop_last();
        lemma_walk_end_key(g, s, prev);
        let k = walk_end(s, prev);
        let j = choose|j: int| 0 <= j < g@[k].len() && g@[k][j] == hops.last();
        assert(0 <= g@[k][j].0);
        lemma_prefix_cost(g, s, prev, i);
        assert(prev.take(i) =~= hops.take(i));
    }
}

/// Along any walk from `s`, either some node is queued at no more than the cost of
/// the hops up to it, or the walk ends at a reached, unqueued node whose cost is no
/// more than the walk's.
pub(crate) proof fn lemma_walk_bound(
    g: &Graph,
    s: int,
    e: Seq<Entry>,
    q: Map<usize, i64>,
    hops: Seq<(int, Seq<char>)>,
)
    requires
        g.wf(),
        0 <= s < g.names.len(),
        e.len() == g.names.len(),
        reached(e, s),
        cost_at(e, s) == 0,
        queued_reached(e, q),
        settled(g, e, q, -1),
        is_walk(g@, g.name(s), hops),
    ensures
        (exists|i: int| 0 <= i <= hops.len() && #[trigger] queued_on(g, s, e, q, hops, i)) || ({
            let t = g.index@[walk_end(g.name(s), hops)] as int;
            reached(e, t) && !q.contains_key(t as usize) && cost_at(e, t) <= walk_cost(hops)
        }),
    decreases hops.len(),
{
    lemma_index_of(g, s);
    if hops.len() == 0 {
        if q.contains_key(s as usize) {
            assert(hops.take(0) =~= hops);
            assert(queued_on(g, s, e, q, hops, 0));
        }
    } else {
        let prev = hops.drop_last();
        lemma_walk_bound(g, s, e, q, prev);
        if exists|i: int| 0 <= i <= prev.len() && #[trigger] queued_on(g, s, e, q, prev, i) {
            let i = choose|i: int| 0 <= i <= prev.len() && #[trigger] queued_on(g, s, e, q, prev, i);
            assert(prev.take(i) =~= hops.take(i));
            assert(queued_on(g, s, e, q, hops, i));
        } else {
            let k = walk_end(g.name(s), prev);
            lemma_walk_end_key(g, g.name(s), prev);
            let u = g.index@[k] as int;
            assert(g.name(u) == k);
            assert(relaxed(g, e, u));
            let j = lemma_hop_edge(g, u, hops.last());
            assert(edge_ok(g, e, u, j));
            let v = g.adj@[u]@[j].1;
            if q.contains_key(v) {
                assert(hops.take(hops.len() as int) =~= hops);
                assert(queued_on(g, s, e, q, hops, hops.len() as int));
            }
        }
    }
}

/// Following the predecessor links from a reached node gives a walk from `s` that
/// costs what the node's entry records.
pub(crate) proof fn lemma_tree_walk(g: &Graph, s: int, e: Seq<Entry>, rank: Seq<int>, v: int)
    requires
        g.wf(),
        tree_ok(g, s, e, rank),
        0 <= v < e.len(),
        reached(e, v),
    ensures
        exists|hops: Seq<(int, Seq<char>)>|
            #[trigger] is_walk(g@, g.name(s), hops) && walk_end(g.name(s), hops) == g.name(v) && walk_cost(
                hops,
            ) == cost_at(e, v),
    decreases rank[v],
{
    assert(link_ok(g, s, e, rank, v));
    lemma_index_of(g, s);
    match pred_at(e, v) {
        None => {
            let hops = Seq::<(int, Seq<char>)>::empty();
            assert(is_walk(g@, g.name(s), hops));
        },
        Some(u) => {
            let u = u as int;
            lemma_tree_walk(g, s, e, rank, u);
            let hu = choose|hops: Seq<(int, Seq<char>)>|
                #[trigger] is_walk(g@, g.name(s), hops) && walk_end(g.name(s), hops) == g.name(u)
                    && walk_cost(hops) == cost_at(e, u);
            let j = choose|j: int|
                0 <= j < g.adj@[u]@.len() && (#[trigger] g.adj@[u]@[j]).1 == v && cost_at(e, v) == cost_at(
                    e,
                    u,
                ) + g.adj@[u]@[j].0;
            let h = (g.adj@[u]@[j].0 as int, g.name(v));
            lemma_index_of(g, u);
            lemma_index_of(g, v);
            assert(g.row(u)[j] == h);
            let hops = hu.push(h);
            assert(hops.drop_last() =~= hu);
            assert(is_walk(g@, g.name(s), hops));
        },
    }
}

/// Search state shared by both loops of `search`.
#[verifier::opaque]
pub(crate) open spec fn search_ok(
    g: &Graph,
    s: int,
    e: Seq<Entry>,
    done: Seq<bool>,
    q: Map<usize, i64>,
    rank: Seq<int>,
    doneset: Set<int>,
    count: int,
    t: int,
) -> bool {
    &&& tree_ok(g, s, e, rank)
    &&& done.len() == e.len()
    &&& queued_reached(e, q)
    &&& forall|v: usize| #[trigger]
        q.contains_key(v) ==> !done[v as int] && q[v] == -cost_at(e, v as int) && t <= cost_at(e, v as int)
    &&& forall|u: int|
        0 <= u < e.len() ==> (#[trigger] done[u] ==> reached(e, u) && !q.contains_key(u as usize) && cost_at(e, u)
            <= t && rank[u] < count)
    &&& forall|u: int| 0 <= u < e.len() && !#[trigger] done[u] ==> rank[u] == e.len()
    &&& forall|u: int| 0 <= u < e.len() && #[trigger] reached(e, u) && !done[u] ==> q.contains_key(u as usize)
    &&& forall|v: int|
        0 <= v < e.len() && #[trigger] reached(e, v) && pred_at(e, v).is_some() ==> done[pred_at(
            e,
            v,
        ).unwrap() as int]
    &&& forall|v: int|
        0 <= v < e.len() && #[trigger] reached(e, v) ==> 0 <= cost_at(e, v) <= count * MAX_WEIGHT
    &&& forall|v: int| #[trigger] doneset.contains(v) <==> 0 <= v < e.len() && done[v]
    &&& doneset.finite()
    &&& doneset.len() == count
    &&& 0 <= count <= e.len()
    &&& 0 <= t
}

proof fn lemma_done_count(doneset: Set<int>, n: int, u: int)
    requires
        doneset.finite(),
        forall|v: int| #[trigger] doneset.contains(v) ==> 0 <= v < n,
        0 <= u < n,
        !doneset.contains(u),
    ensures
        doneset.len() + 1 <= n,
{
    let all = Set::new(|v: int| 0 <= v < n);
    assert(all =~= vstd::set_lib::set_int_range(0, n));
    vstd::set_lib::lemma_int_range(0, n);
    vstd::set_lib::lemma_len_subset(doneset.insert(u), all);
}

/// The first `j` edges of `u` are relaxed.
pub(crate) open spec fn relaxed_upto(g: &Graph, e: Seq<Entry>, u: int, j: int) -> bool {
    forall|jj: int| 0 <= jj < j ==> #[trigger] edge_ok(g, e, u, jj)
}

proof fn lemma_start(g: &Graph, s: int, e: Seq<Entry>, done: Seq<bool>, q: Map<usize, i64>, rank: Seq<int>)
    requires
        g.wf(),
        0 <= s < g.names.len(),
        e.len() == g.names.len(),
        done.len() == e.len(),
        rank.len() == e.len(),
        forall|v: int| 0 <= v < e.len() ==> #[trigger] rank[v] == e.len(),
        forall|v: int| 0 <= v < e.len() ==> !#[trigger] done[v],
        forall|v: int| 0 <= v < e.len() && v != s ==> (#[trigger] e[v]).is_none(),
        e[s] == Some((None::<usize>, 0i64)),
        q == Map::<usize, i64>::empty().insert(s as usize, 0),
    ensures
        search_ok(g, s, e, done, q, rank, Set::empty(), 0, 0),
        settled(g, e, q, -1),
{
    reveal(search_ok);
    assert forall|v: int| 0 <= v < e.len() && #[trigger] reached(e, v) implies link_ok(g, s, e, rank, v) by {
        assert(v == s);
    }
    assert forall|u: int|
        0 <= u < e.len() && reached(e, u) && !q.contains_key(u as usize) && u != -1 implies #[trigger] relaxed(
        g,
        e,
        u,
    ) by {
        assert(u == s);
    }
    assert forall|u: int| 0 <= u < e.len() && #[trigger] reached(e, u) && !done[u] implies q.contains_key(
        u as usize,
    ) by {
        assert(u == s);
    }
}

/// Taking the cheapest queued node `u` out of the queue and marking it done keeps
/// the search state, with `u` left to relax.
proof fn lemma_pop(
    g: &Graph,
    s: int,
    e: Seq<Entry>,
    done: Seq<bool>,
    q: Map<usize, i64>,
    rank: Seq<int>,
    doneset: Set<int>,
    count: int,
    t: int,
    u: usize,
)
    requires
        search_ok(g, s, e, done, q, rank, doneset, count, t),
        settled(g, e, q, -1),
        q.contains_key(u),
        forall|j: usize| #[trigger] q.contains_key(j) ==> q[j] <= q[u],
    ensures
        count + 1 <= e.len(),
        u < e.len(),
        reached(e, u as int),
        !done[u as int],
        q[u] == -cost_at(e, u as int),
        0 <= cost_at(e, u as int) <= count * MAX_WEIGHT,
        search_ok(
            g,
            s,
            e,
            done.update(u as int, true),
            q.remove(u),
            rank.update(u as int, count),
            doneset.insert(u as int),
            count + 1,
            cost_at(e, u as int),
        ),
        settled(g, e, q.remove(u), u as int),
{
    reveal(search_ok);
    lemma_done_count(doneset, e.len() as int, u as int);
    let done2 = done.update(u as int, true);
    let q2 = q.remove(u);
    let rank2 = rank.update(u as int, count);
    let ds2 = doneset.insert(u as int);
    let t2 = cost_at(e, u as int);
    assert forall|v: int| 0 <= v < e.len() && #[trigger] reached(e, v) implies link_ok(g, s, e, rank2, v) by {
        assert(link_ok(g, s, e, rank, v));
        if pred_at(e, v).is_some() {
            let y = pred_at(e, v).unwrap() as int;
            assert(done[y]);
            assert(y != u);
            if v != u {
                assert(rank2[v] == rank[v]);
            }
        }
    }
    assert forall|v: int| 0 <= v < e.len() implies 0 <= #[trigger] rank2[v] <= e.len() by {
        assert(0 <= rank[v] <= e.len());
    }
    assert(tree_ok(g, s, e, rank2));
    assert forall|v: usize| #[trigger] q2.contains_key(v) implies !done2[v as int] && q2[v] == -cost_at(
        e,
        v as int,
    ) && t2 <= cost_at(e, v as int) by {
        assert(q.contains_key(v));
        assert(q[v] <= q[u]);
    }
    assert forall|x: int| 0 <= x < e.len() implies (#[trigger] done2[x] ==> reached(e, x) && !q2.contains_key(
        x as usize,
    ) && cost_at(e, x) <= t2 && rank2[x] < count + 1) by {
        if x != u {
            if done[x] {
                assert(cost_at(e, x) <= t);
            }
        }
    }
    assert forall|x: int| 0 <= x < e.len() && #[trigger] reached(e, x) && !done2[x] implies q2.contains_key(
        x as usize,
    ) by {
        assert(q.contains_key(x as usize));
    }
    assert forall|v: int|
        0 <= v < e.len() && #[trigger] reached(e, v) ==> 0 <= cost_at(e, v) <= (count + 1) * MAX_WEIGHT by {
        if 0 <= v < e.len() && reached(e, v) {
            assert(count * MAX_WEIGHT <= (count + 1) * MAX_WEIGHT) by (nonlinear_arith)
                requires
                    count >= 0,
            ;
        }
    }
    assert forall|x: int| #[trigger] ds2.contains(x) <==> 0 <= x < e.len() && done2[x] by {
        if x != u {
            assert(doneset.contains(x) <==> 0 <= x < e.len() && done[x]);
        }
    }
    assert forall|z: int|
        0 <= z < e.len() && reached(e, z) && !q2.contains_key(z as usize) && z != u as int implies #[trigger] relaxed(
        g,
        e,
        z,
    ) by {
        assert(!q.contains_key(z as usize));
    }
}

/// Recording a cheaper cost for `v` through edge `j` of the done node `u`, and
/// queueing `v` at it, keeps the search state.
proof fn lemma_relax(
    g: &Graph,
    s: int,
    e: Seq<Entry>,
    done: Seq<bool>,
    q: Map<usize, i64>,
    rank: Seq<int>,
    doneset: Set<int>,
    count: int,
    t: int,
    u: usize,
    j: int,
    nc: i64,
)
    requires
        g.wf(),
        weights_ok(g),
        search_ok(g, s, e, done, q, rank, doneset, count, t),
        settled(g, e, q, u as int),
        u < e.len(),
        done[u as int],
        cost_at(e, u as int) == t,
        0 <= j < g.adj@[u as int]@.len(),
        relaxed_upto(g, e, u as int, j),
        nc == t + g.adj@[u as int]@[j].0,
        nc <= count * MAX_WEIGHT,
        ({
            let v = g.adj@[u as int]@[j].1 as int;
            !reached(e, v) || nc < cost_at(e, v)
        }),
    ensures
        ({
            let v = g.adj@[u as int]@[j].1;
            let e2 = e.update(v as int, Some((Some(u), nc)));
            let q2 = q.insert(v, (-nc) as i64);
            &&& v != u
            &&& search_ok(g, s, e2, done, q2, rank, doneset, count, t)
            &&& settled(g, e2, q2, u as int)
            &&& relaxed_upto(g, e2, u as int, j + 1)
            &&& reached(e2, u as int) && cost_at(e2, u as int) == t
        }),
{
    reveal(search_ok);
    let v = g.adj@[u as int]@[j].1;
    let e2 = e.update(v as int, Some((Some(u), nc)));
    let q2 = q.insert(v, (-nc) as i64);
    assert(0 <= g.adj@[u as int]@[j].0);
    assert(v < e.len());
    assert(v != u);
    assert(!done[v as int]) by {
        if done[v as int] {
            assert(cost_at(e, v as int) <= t);
        }
    }
    assert(v != s) by {
        if v as int == s {
            assert(reached(e, s));
        }
    }
    assert forall|x: int| 0 <= x < e2.len() && #[trigger] reached(e2, x) implies link_ok(g, s, e2, rank, x) by {
        if x == v {
            assert(g.adj@[u as int]@[j].1 == v);
            assert(rank[u as int] < count);
        } else {
            assert(reached(e, x));
            assert(link_ok(g, s, e, rank, x));
            if pred_at(e2, x).is_some() {
                let y = pred_at(e2, x).unwrap();
                assert(done[y as int]);
                assert(y != v);
                let jw = choose|jw: int|
                    0 <= jw < g.adj@[y as int]@.len() && (#[trigger] g.adj@[y as int]@[jw]).1 == x && cost_at(
                        e,
                        x,
                    ) == cost_at(e, y as int) + g.adj@[y as int]@[jw].0;
                assert(cost_at(e2, x) == cost_at(e2, y as int) + g.adj@[y as int]@[jw].0);
            }
        }
    }
    assert(tree_ok(g, s, e2, rank));
    assert forall|z: int|
        0 <= z < e2.len() && reached(e2, z) && !q2.contains_key(z as usize) && z != u as int implies #[trigger] relaxed(
        g,
        e2,
        z,
    ) by {
        assert(z != v);
        assert(relaxed(g, e, z));
        assert forall|k: int| 0 <= k < g.adj@[z]@.len() implies #[trigger] edge_ok(g, e2, z, k) by {
            assert(edge_ok(g, e, z, k));
        }
    }
    assert forall|jj: int| 0 <= jj < j + 1 implies #[trigger] edge_ok(g, e2, u as int, jj) by {
        if jj < j {
            assert(edge_ok(g, e, u as int, jj));
        }
    }
    assert forall|y: usize| #[trigger] q2.contains_key(y) implies !done[y as int] && q2[y] == -cost_at(
        e2,
        y as int,
    ) && t <= cost_at(e2, y as int) by {
        if y != v {
            assert(q.contains_key(y));
        }
    }
    assert forall|y: usize| #[trigger] q2.contains_key(y) implies y < e2.len() && reached(e2, y as int) by {
        if y != v {
            assert(q.contains_key(y));
        }
    }
    assert forall|x: int| 0 <= x < e2.len() implies (#[trigger] done[x] ==> reached(e2, x) && !q2.contains_key(
        x as usize,
    ) && cost_at(e2, x) <= t && rank[x] < count) by {
        if done[x] {
            assert(x != v);
        }
    }
    assert forall|x: int| 0 <= x < e2.len() && #[trigger] reached(e2, x) && !done[x] implies q2.contains_key(
        x as usize,
    ) by {
        if x != v {
            assert(reached(e, x));
        }
    }
    assert forall|x: int|
        0 <= x < e2.len() && #[trigger] reached(e2, x) && pred_at(e2, x).is_some() implies done[pred_at(
        e2,
        x,
    ).unwrap() as int] by {
        if x != v {
            assert(reached(e, x));
        }
    }
    assert forall|x: int| 0 <= x < e2.len() && #[trigger] reached(e2, x) implies 0 <= cost_at(e2, x) <= count
        * MAX_WEIGHT by {
        if x != v {
            assert(reached(e, x));
        }
    }
}

/// The least cost of a walk from `s` to the cheapest queued node is its recorded cost.
proof fn lemma_cheapest_is_least(
    g: &Graph,
    s: int,
    e: Seq<Entry>,
    done: Seq<bool>,
    q: Map<usize, i64>,
    rank: Seq<int>,
    doneset: Set<int>,
    count: int,
    t: int,
    u: usize,
)
    requires
        g.wf(),
        nonnegative(g@),
        search_ok(g, s, e, done, q, rank, doneset, count, t),
        settled(g, e, q, -1),
        q.contains_key(u),
        forall|j: usize| #[trigger] q.contains_key(j) ==> q[j] <= q[u],
    ensures
        u < e.len(),
        reached(e, u as int),
        is_least_cost(g@, g.name(s), g.name(u as int), cost_at(e, u as int)),
{
    reveal(search_ok);
    lemma_tree_walk(g, s, e, rank, u as int);
    lemma_index_of(g, u as int);
    assert forall|hops: Seq<(int, Seq<char>)>|
        #[trigger] is_walk(g@, g.name(s), hops) && walk_end(g.name(s), hops) == g.name(
            u as int,
        ) implies cost_at(e, u as int) <= walk_cost(hops) by {
        lemma_walk_bound(g, s, e, q, hops);
        if exists|i: int| 0 <= i <= hops.len() && #[trigger] queued_on(g, s, e, q, hops, i) {
            let i = choose|i: int| 0 <= i <= hops.len() && #[trigger] queued_on(g, s, e, q, hops, i);
            lemma_prefix_cost(g, g.name(s), hops, i);
            let x = g.index@[walk_end(g.name(s), hops.take(i))];
            assert(q[x] <= q[u]);
        }
    }
}

proof fn lemma_queued(
    g: &Graph,
    s: int,
    e: Seq<Entry>,
    done: Seq<bool>,
    q: Map<usize, i64>,
    rank: Seq<int>,
    doneset: Set<int>,
    count: int,
    t: int,
    u: usize,
)
    requires
        search_ok(g, s, e, done, q, rank, doneset, count, t),
        q.contains_key(u),
    ensures
        u < e.len(),
        reached(e, u as int),
        q[u] == -cost_at(e, u as int),
{
    reveal(search_ok);
}

proof fn lemma_tree_of(
    g: &Graph,
    s: int,
    e: Seq<Entry>,
    done: Seq<bool>,
    q: Map<usize, i64>,
    rank: Seq<int>,
    doneset: Set<int>,
    count: int,
    t: int,
)
    requires
        search_ok(g, s, e, done, q, rank, doneset, count, t),
    ensures
        tree_ok(g, s, e, rank),
{
    reveal(search_ok);
}

/// Least-cost search from node `s`. With a goal it stops once the goal leaves the
/// queue; then only the goal's cost is known to be least.
pub(crate) fn search(g: &Graph, s: usize, goal: Option<usize>) -> (res: (Vec<Entry>, Ghost<Seq<int>>))
    requires
        g.wf(),
        s < g.names.len(),
        g.names.len() <= u32::MAX,
        weights_ok(g),
        nonnegative(g@),
    ensures
        tree_ok(g, s as int, res.0@, res.1@),
        settled(g, res.0@, Map::empty(), -1) || (goal.is_some() && goal.unwrap() < g.names.len() && reached(
            res.0@,
            goal.unwrap() as int,
        ) && is_least_cost(g@, g.name(s as int), g.name(goal.unwrap() as int), cost_at(res.0@, goal.unwrap() as int))),
{
    let n = g.names.len();
    let mut entries: Vec<Entry> = Vec::new();
    let mut done: Vec<bool> = Vec::new();
    while entries.len() < n
        invariant
            entries.len() == done.len(),
            entries.len() <= n,
            forall|v: int| 0 <= v < entries.len() ==> (#[trigger] entries@[v]).is_none(),
            forall|v: int| 0 <= v < done.len() ==> !(#[trigger] done@[v]),
        decreases n - entries.len(),
    {
        entries.push(None);
        done.push(false);
    }
    entries.set(s, Some((None, 0)));
    let mut pq: PriorityQueue<usize, i64> = queue_new();
    queue_push(&mut pq, s, 0);
    let ghost mut rank: Seq<int> = Seq::new(n as nat, |v: int| n as int);
    let ghost mut doneset: Set<int> = Set::empty();
    let ghost mut count: int = 0;
    let ghost mut t: int = 0;
    let mut stopped = false;
    proof {
        assert(queue_items(pq) =~= Map::<usize, i64>::empty().insert(s, 0));
        lemma_start(g, s as int, entries@, done@, queue_items(pq), rank);
    }
    loop
        invariant_except_break
            !stopped,
            search_ok(g, s as int, entries@, done@, queue_items(pq), rank, doneset, count, t),
            settled(g, entries@, queue_items(pq), -1),
        invariant
            g.wf(),
            s < n,
            n == g.names.len(),
            n <= u32::MAX,
            weights_ok(g),
            nonnegative(g@),
            tree_ok(g, s as int, entries@, rank),
            entries.len() == n,
            done.len() == n,
        ensures
            !stopped ==> settled(g, entries@, Map::empty(), -1),
            stopped ==> goal.is_some() && goal.unwrap() < n && reached(entries@, goal.unwrap() as int)
                && is_least_cost(g@, g.name(s as int), g.name(goal.unwrap() as int), cost_at(entries@, goal.unwrap() as int)),
        decreases n - count,
    {
        let ghost q0 = queue_items(pq);
        let popped = queue_pop(&mut pq);
        match popped {
            None => {
                assert(queue_items(pq) =~= Map::empty());
                break;
            },
            Some((u, _)) => {
                proof {
                    lemma_queued(g, s as int, entries@, done@, q0, rank, doneset, count, t, u);
                }
                // the queue keeps one priority per node, always its recorded cost, so a
                // popped entry is never stale
                let du: i64 = entries[u].unwrap().1;
                if goal == Some(u) {
                    proof {
                        lemma_cheapest_is_least(g, s as int, entries@, done@, q0, rank, doneset, count, t, u);
                    }
                    stopped = true;
                    break;
                }
                proof {
                    lemma_pop(g, s as int, entries@, done@, q0, rank, doneset, count, t, u);
                }
                done.set(u, true);
                proof {
                    rank = rank.update(u as int, count);
                    doneset = doneset.insert(u as int);
                    count = count + 1;
                    t = du as int;
                }
                let row = &g.adj[u];
                let mut j: usize = 0;
                while j < row.len()
                    invariant
                        g.wf(),
                        s < n,
                        n == g.names.len(),
                        n <= u32::MAX,
                        weights_ok(g),
                        nonnegative(g@),
                        u < n,
                        entries.len() == n,
                        done.len() == n,
                        row == g.adj@[u as int],
                        j <= row.len(),
                        done@[u as int],
                        reached(entries@, u as int),
                        cost_at(entries@, u as int) == du,
                        du == t,
                        0 <= du <= (count - 1) * MAX_WEIGHT,
                        1 <= count <= n,
                        search_ok(g, s as int, entries@, done@, queue_items(pq), rank, doneset, count, t),
                        settled(g, entries@, queue_items(pq), u as int),
                        relaxed_upto(g, entries@, u as int, j as int),
                    decreases row.len() - j,
                {
                    let (w, v) = row[j];
                    proof {
                        assert(0 <= g.adj@[u as int]@[j as int].0);
                        assert(g.adj@[u as int]@[j as int].1 < n);
                        assert((count - 1) * MAX_WEIGHT + MAX_WEIGHT == count * MAX_WEIGHT) by (nonlinear_arith);
                        assert(count * MAX_WEIGHT <= (u32::MAX as int) * MAX_WEIGHT) by (nonlinear_arith)
                            requires
                                count <= u32::MAX,
                        ;
                    }
                    let nc: i64 = du + w as i64;
                    let better = match entries[v] {
                        None => true,
                        Some((_, dv)) => nc < dv,
                    };
                    if better {
                        proof {
                            lemma_relax(
                                g,
                                s as int,
                                entries@,
                                done@,
                                queue_items(pq),
                                rank,
                                doneset,
                                count,
                                t,
                                u,
                                j as int,
                                nc,
                            );
                        }
                        entries.set(v, Some((Some(u), nc)));
                        queue_push(&mut pq, v, -nc);
                    } else {
                        proof {
                            assert(edge_ok(g, entries@, u as int, j as int));
                        }
                    }
                    j = j + 1;
                }
                proof {
                    assert(relaxed(g, entries@, u as int));
                    lemma_tree_of(g, s as int, entries@, done@, queue_items(pq), rank, doneset, count, t);
                }
            },
        }
    }
    (entries, Ghost(rank))
}

} // verus!
