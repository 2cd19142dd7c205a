use vstd::prelude::*;

verus! {

/// Cost reported for a node that no walk reaches below it.
pub const INF: i32 = 1000000000;

/// Weight of every arc into node `v`: `m[v]`, and `INF` (no arc) for a node past
/// the end of `m`.
pub open spec fn arc(m: Seq<i32>, v: int) -> int {
    if 0 <= v < m.len() {
        m[v] as int
    } else {
        INF as int
    }
}

/// Where a walk from `s` through the nodes `p` ends.
pub open spec fn dense_end(s: int, p: Seq<int>) -> int {
    if p.len() == 0 {
        s
    } else {
        p.last()
    }
}

/// Every node of the walk is one of the `n` nodes.
pub open spec fn dense_walk(n: int, p: Seq<int>) -> bool {
    forall|i: int| 0 <= i < p.len() ==> 0 <= #[trigger] p[i] < n
}

/// Sum of the arc weights along the walk from `s` through `p`.
pub open spec fn dense_cost(n: int, m: Seq<i32>, s: int, p: Seq<int>) -> int
    decreases p.len(),
{
    if p.len() == 0 {
        0
    } else {
        dense_cost(n, m, s, p.drop_last()) + arc(m, p.last())
    }
}

/// `c` is the least walk cost from `s` to `v`, or `INF` when that is `INF` or more.
pub open spec fn capped_least(n: int, m: Seq<i32>, s: int, v: int, c: int) -> bool {
    &&& c <= INF
    &&& forall|p: Seq<int>| #[trigger] dense_walk(n, p) && dense_end(s, p) == v ==> c <= dense_cost(n, m, s, p)
    &&& c < INF ==> exists|p: Seq<int>|
        #[trigger] dense_walk(n, p) && dense_end(s, p) == v && dense_cost(n, m, s, p) == c
}

spec fn found(n: int, m: Seq<i32>, s: int, v: int, c: int) -> bool {
    exists|p: Seq<int>| #[trigger] dense_walk(n, p) && dense_end(s, p) == v && dense_cost(n, m, s, p) == c
}

proof fn lemma_extend(n: int, m: Seq<i32>, s: int, u: int, v: int, c: int)
    requires
        found(n, m, s, u, c),
        0 <= v < n,
    ensures
        found(n, m, s, v, c + arc(m, v)),
{
    let p = choose|p: Seq<int>| #[trigger] dense_walk(n, p) && dense_end(s, p) == u && dense_cost(n, m, s, p) == c;
    let q = p.push(v);
    assert(q.drop_last() =~= p);
    assert(dense_walk(n, q));
}

/// Once every node's edges are relaxed, no walk costs less than what its end holds.
proof fn lemma_lower(n: int, m: Seq<i32>, s: int, r: Seq<int>, p: Seq<int>)
    requires
        r.len() == n,
        0 <= s < n,
        r[s] == 0,
        forall|u: int, v: int| 0 <= u < n && 0 <= v < n ==> #[trigger] r[v] <= #[trigger] r[u] + arc(m, v),
        dense_walk(n, p),
    ensures
        r[dense_end(s, p)] <= dense_cost(n, m, s, p),
    decreases p.len(),
{
    if p.len() > 0 {
        let prev = p.drop_last();
        assert(dense_walk(n, prev)) by {
            assert forall|i: int| 0 <= i < prev.len() implies 0 <= #[trigger] prev[i] < n by {
                assert(prev[i] == p[i]);
            }
        }
        lemma_lower(n, m, s, r, prev);
        let u = dense_end(s, prev);
        assert(0 <= p.last() < n);
        assert(r[p.last()] <= r[u] + arc(m, p.last()));
    }
}

/// A walk costs at least the weight of its last arc, and nothing when it is empty.
proof fn lemma_cost_bounds(n: int, m: Seq<i32>, s: int, p: Seq<int>)
    requires
        forall|i: int| 0 <= i < m.len() ==> 0 <= #[trigger] m[i],
    ensures
        0 <= dense_cost(n, m, s, p),
        p.len() > 0 ==> arc(m, p.last()) <= dense_cost(n, m, s, p),
    decreases p.len(),
{
    if p.len() > 0 {
        lemma_cost_bounds(n, m, s, p.drop_last());
    }
}

proof fn lemma_unvisited_left(vis: Set<int>, n: int)
    requires
        vis.finite(),
        vis.len() < n,
        forall|v: int| #[trigger] vis.contains(v) ==> 0 <= v < n,
    ensures
        exists|v: int| 0 <= v < n && !vis.contains(v),
{
    if forall|v: int| 0 <= v < n ==> vis.contains(v) {
        let all = vstd::set_lib::set_int_range(0, n);
        vstd::set_lib::lemma_int_range(0, n);
        assert(all.subset_of(vis));
        vstd::set_lib::lemma_len_subset(all, vis);
    }
}

proof fn lemma_all_visited(vis: Set<int>, n: int)
    requires
        vis.finite(),
        vis.len() == n,
        n >= 0,
        forall|v: int| #[trigger] vis.contains(v) ==> 0 <= v < n,
    ensures
        forall|v: int| 0 <= v < n ==> vis.contains(v),
{
    let all = vstd::set_lib::set_int_range(0, n);
    vstd::set_lib::lemma_int_range(0, n);
    assert(vis.subset_of(all));
    if exists|v: int| 0 <= v < n && !vis.contains(v) {
        let v = choose|v: int| 0 <= v < n && !vis.contains(v);
        vstd::set_lib::lemma_len_subset(vis.insert(v), all);
    }
}

/// Least costs from `start` when every arc into node `j` weighs `dist[j]` and no arc
/// enters a node past the end of `dist`, found by repeatedly settling the cheapest
/// unsettled node. Each result is the least walk cost, or `INF` when that is `INF`
/// or more: the start costs 0, node `j` costs `dist[j]` (at most `INF`), and a node
/// past the end of `dist` keeps `INF`.
pub fn dijkstra_cost(n: usize, start: usize, dist: Vec<i32>) -> (result: Vec<i32>)
    requires
        start < n,
        dist@.len() <= n,
        forall|i: int| 0 <= i < dist@.len() ==> 0 <= #[trigger] dist@[i],
    ensures
        result@.len() == n,
        forall|v: int| 0 <= v < n ==> capped_least(n as int, dist@, start as int, v, #[trigger] result@[v] as int),
        result@[start as int] == 0,
        forall|i: int|
            0 <= i < n && i != start ==> #[trigger] result@[i] as int == (if i < dist@.len() {
                if dist@[i] < INF {
                    dist@[i] as int
                } else {
                    INF as int
                }
            } else {
                INF as int
            }),
{
    let ghost m = dist@;
    let ghost ni = n as int;
    let ghost s = start as int;
    let mut result: Vec<i32> = Vec::new();
    let mut visited: Vec<bool> = Vec::new();
    while result.len() < n
        invariant
            result.len() == visited.len(),
            result.len() <= n,
            forall|v: int| 0 <= v < result.len() ==> #[trigger] result@[v] == INF,
            forall|v: int| 0 <= v < visited.len() ==> !#[trigger] visited@[v],
        decreases n - result.len(),
    {
        result.push(INF);
        visited.push(false);
    }
    result.set(start, 0);
    let ghost mut vis: Set<int> = Set::empty();
    let ghost mut t: int = 0;
    proof {
        assert(found(ni, m, s, s, 0)) by {
            let p = Seq::<int>::empty();
            assert(dense_walk(ni, p));
        }
    }
    let mut round: usize = 0;
    while round < n
        invariant
            m == dist@,
            ni == n,
            s == start,
            start < n,
            dist@.len() <= n,
            forall|i: int| 0 <= i < dist@.len() ==> 0 <= #[trigger] dist@[i],
            result.len() == n,
            visited.len() == n,
            round <= n,
            result@[s] == 0,
            forall|v: int| 0 <= v < n ==> 0 <= #[trigger] result@[v] <= INF,
            forall|v: int| 0 <= v < n && #[trigger] result@[v] < INF ==> found(ni, m, s, v, result@[v] as int),
            vis.finite(),
            vis.len() == round,
            forall|v: int| #[trigger] vis.contains(v) <==> 0 <= v < n && visited@[v],
            0 <= t,
            forall|v: int| 0 <= v < n && #[trigger] visited@[v] ==> result@[v] <= t,
            forall|v: int| 0 <= v < n && !#[trigger] visited@[v] ==> t <= result@[v],
            forall|u: int, v: int|
                0 <= u < n && 0 <= v < n && #[trigger] visited@[u] ==> #[trigger] result@[v] <= result@[u] + arc(m, v),
        decreases n - round,
    {
        proof {
            lemma_unvisited_left(vis, ni);
        }
        let mut cur: usize = n;
        let mut j: usize = 0;
        while j < n
            invariant
                result.len() == n,
                visited.len() == n,
                j <= n,
                cur == n ==> forall|k: int| 0 <= k < j ==> #[trigger] visited@[k],
                cur < n ==> !visited@[cur as int] && forall|k: int|
                    0 <= k < j && !#[trigger] visited@[k] ==> result@[cur as int] <= result@[k],
                cur <= n,
            decreases n - j,
        {
            if !visited[j] && (cur == n || result[j] < result[cur]) {
                cur = j;
            }
            j = j + 1;
        }
        proof {
            if cur == n {
                let w = choose|v: int| 0 <= v < ni && !vis.contains(v);
                assert(visited@[w]);
            }
        }
        let ghost before = result@;
        visited.set(cur, true);
        proof {
            vis = vis.insert(cur as int);
            t = result@[cur as int] as int;
        }
        let ghost rc = result@[cur as int] as int;
        let mut v: usize = 0;
        while v < dist.len()
            invariant
                m == dist@,
                ni == n,
                s == start,
                dist@.len() <= n,
                forall|i: int| 0 <= i < dist@.len() ==> 0 <= #[trigger] dist@[i],
                result.len() == n,
                visited.len() == n,
                cur < n,
                visited@[cur as int],
                v <= dist.len(),
                rc == t,
                start < n,
                result@[cur as int] == rc,
                result@[s] == 0,
                forall|x: int| 0 <= x < n ==> 0 <= #[trigger] result@[x] <= INF,
                forall|x: int| 0 <= x < n && #[trigger] result@[x] < INF ==> found(ni, m, s, x, result@[x] as int),
                forall|x: int| 0 <= x < n && #[trigger] visited@[x] ==> result@[x] <= t,
                forall|x: int| 0 <= x < n && !#[trigger] visited@[x] ==> t <= result@[x],
                forall|u: int, x: int|
                    0 <= u < n && 0 <= x < n && #[trigger] visited@[u] && u != cur ==> #[trigger] result@[x]
                        <= result@[u] + arc(m, x),
                forall|x: int| 0 <= x < v ==> #[trigger] result@[x] <= rc + arc(m, x),
            decreases dist.len() - v,
        {
            let w = dist[v];
            proof {
                assert(0 <= dist@[v as int]);
                assert(w as int == arc(m, v as int));
            }
            let cand: i64 = result[cur] as i64 + w as i64;
            if cand < result[v] as i64 {
                proof {
                    lemma_extend(ni, m, s, cur as int, v as int, rc);
                }
                result.set(v, cand as i32);
            }
            v = v + 1;
        }
        proof {
            assert forall|x: int| 0 <= x < n implies #[trigger] result@[x] <= rc + arc(m, x) by {
                if x >= dist@.len() {
                    assert(result@[x] <= INF);
                }
            }
        }
        round = round + 1;
    }
    proof {
        lemma_all_visited(vis, ni);
        assert forall|v: int| 0 <= v < n implies capped_least(ni, m, s, v, #[trigger] result@[v] as int) by {
            let r = result@.map_values(|x: i32| x as int);
            assert forall|p: Seq<int>| #[trigger] dense_walk(ni, p) && dense_end(s, p) == v implies result@[v]
                <= dense_cost(ni, m, s, p) by {
                assert forall|a: int, b: int| 0 <= a < ni && 0 <= b < ni implies #[trigger] r[b] <= #[trigger] r[a] + arc(m, b) by {
                    assert(vis.contains(a));
                }
                lemma_lower(ni, m, s, r, p);
            }
        }
        assert forall|i: int| 0 <= i < n && i != start implies #[trigger] result@[i] as int == (if i
            < dist@.len() {
            if dist@[i] < INF {
                dist@[i] as int
            } else {
                INF as int
            }
        } else {
            INF as int
        }) by {
            assert(capped_least(ni, m, s, i, result@[i] as int));
            let one = seq![i];
            assert(one.drop_last() =~= Seq::<int>::empty());
            assert(dense_cost(ni, m, s, one.drop_last()) == 0);
            assert(one.last() == i);
            assert(dense_walk(ni, one));
            assert(dense_cost(ni, m, s, one) == arc(m, i));
            if result@[i] < INF {
                let p = choose|p: Seq<int>|
                    #[trigger] dense_walk(ni, p) && dense_end(s, p) == i && dense_cost(ni, m, s, p) == result@[i];
                lemma_cost_bounds(ni, m, s, p);
            }
        }
    }
    result
}

} // verus!
