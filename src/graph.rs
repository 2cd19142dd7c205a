use vstd::prelude::*;
use vstd::hash_map::{HashMapWithView, StringHashMap};
use crate::models::{City, Road};

verus! {

broadcast use vstd::std_specs::hash::group_hash_axioms;

/// The adjacency map: each node name maps to its `(weight, neighbour name)` pairs.
pub type Adjacency = Map<Seq<char>, Seq<(int, Seq<char>)>>;

/// Every node carries a storage identifier.
pub open spec fn ids_present(nodes: Seq<City>) -> bool {
    forall|i: int| 0 <= i < nodes.len() ==> (#[trigger] nodes[i]).id.is_some()
}

/// Identifier to name, a later node overriding an earlier one with the same identifier.
pub open spec fn id_names(nodes: Seq<City>) -> Map<i32, Seq<char>>
    decreases nodes.len(),
{
    if nodes.len() == 0 {
        Map::empty()
    } else {
        let c = nodes.last();
        id_names(nodes.drop_last()).insert(c.id.unwrap(), c.name@)
    }
}

/// Every edge endpoint is the identifier of some node.
pub open spec fn edges_resolve(nodes: Seq<City>, edges: Seq<Road>) -> bool {
    forall|j: int|
        0 <= j < edges.len() ==> id_names(nodes).contains_key((#[trigger] edges[j]).city_a)
            && id_names(nodes).contains_key(edges[j].city_b)
}

pub open spec fn is_node_name(nodes: Seq<City>, k: Seq<char>) -> bool {
    exists|i: int| 0 <= i < nodes.len() && (#[trigger] nodes[i]).name@ == k
}

/// The pairs that the edges contribute to the node named `k`, in edge order:
/// `(length, b)` when `k` is the first endpoint, then `(length, a)` when it is the second.
pub open spec fn incident(ids: Map<i32, Seq<char>>, edges: Seq<Road>, k: Seq<char>) -> Seq<(int, Seq<char>)>
    decreases edges.len(),
{
    if edges.len() == 0 {
        seq![]
    } else {
        let e = edges.last();
        let a = ids[e.city_a];
        let b = ids[e.city_b];
        incident(ids, edges.drop_last(), k)
            + (if a == k { seq![(e.length as int, b)] } else { seq![] })
            + (if b == k { seq![(e.length as int, a)] } else { seq![] })
    }
}

/// The adjacency map that the node and edge lists describe: one key per distinct
/// node name, and both directions of every edge.
pub open spec fn adjacency_of(nodes: Seq<City>, edges: Seq<Road>) -> Adjacency {
    Map::new(
        |k: Seq<char>| is_node_name(nodes, k),
        |k: Seq<char>| incident(id_names(nodes), edges, k),
    )
}

/// Where a walk that leaves `s` and takes `hops` ends.
pub open spec fn walk_end(s: Seq<char>, hops: Seq<(int, Seq<char>)>) -> Seq<char> {
    if hops.len() == 0 {
        s
    } else {
        hops.last().1
    }
}

/// `hops` is a walk from `s`: each hop is a `(weight, neighbour)` pair listed under
/// the node where the previous hop ended.
pub open spec fn is_walk(g: Adjacency, s: Seq<char>, hops: Seq<(int, Seq<char>)>) -> bool
    decreases hops.len(),
{
    if hops.len() == 0 {
        g.contains_key(s)
    } else {
        let prev = hops.drop_last();
        &&& is_walk(g, s, prev)
        &&& g[walk_end(s, prev)].contains(hops.last())
        &&& g.contains_key(hops.last().1)
    }
}

/// Sum of the weights along a walk.
pub open spec fn walk_cost(hops: Seq<(int, Seq<char>)>) -> int
    decreases hops.len(),
{
    if hops.len() == 0 {
        0
    } else {
        walk_cost(hops.drop_last()) + hops.last().0
    }
}

pub open spec fn reachable(g: Adjacency, s: Seq<char>, t: Seq<char>) -> bool {
    exists|hops: Seq<(int, Seq<char>)>| #[trigger] is_walk(g, s, hops) && walk_end(s, hops) == t
}

/// `c` is the least cost of a walk from `s` to `t`: some walk costs `c` and none costs less.
pub open spec fn is_least_cost(g: Adjacency, s: Seq<char>, t: Seq<char>, c: int) -> bool {
    &&& exists|hops: Seq<(int, Seq<char>)>|
        #[trigger] is_walk(g, s, hops) && walk_end(s, hops) == t && walk_cost(hops) == c
    &&& forall|hops: Seq<(int, Seq<char>)>|
        #[trigger] is_walk(g, s, hops) && walk_end(s, hops) == t ==> c <= walk_cost(hops)
}

/// No weight in the map is negative.
pub open spec fn nonnegative(g: Adjacency) -> bool {
    forall|k: Seq<char>, j: int|
        g.contains_key(k) && 0 <= j < g[k].len() ==> 0 <= (#[trigger] g[k][j]).0
}

/// No edge has a negative length.
pub open spec fn lengths_nonnegative(edges: Seq<Road>) -> bool {
    forall|j: int| 0 <= j < edges.len() ==> 0 <= (#[trigger] edges[j]).length
}

proof fn lemma_incident_weights(ids: Map<i32, Seq<char>>, edges: Seq<Road>, k: Seq<char>)
    requires
        lengths_nonnegative(edges),
    ensures
        forall|i: int| 0 <= i < incident(ids, edges, k).len() ==> 0 <= (#[trigger] incident(ids, edges, k)[i]).0,
    decreases edges.len(),
{
    if edges.len() > 0 {
        let prev = edges.drop_last();
        assert forall|j: int| 0 <= j < prev.len() implies 0 <= (#[trigger] prev[j]).length by {
            assert(prev[j] == edges[j]);
        }
        lemma_incident_weights(ids, prev, k);
        let e = edges.last();
        assert(0 <= e.length);
        let a = ids[e.city_a];
        let b = ids[e.city_b];
        let base = incident(ids, prev, k);
        let ea: Seq<(int, Seq<char>)> = if a == k { seq![(e.length as int, b)] } else { seq![] };
        let eb: Seq<(int, Seq<char>)> = if b == k { seq![(e.length as int, a)] } else { seq![] };
        let all = incident(ids, edges, k);
        assert(all == base + ea + eb);
        assert forall|i: int| 0 <= i < all.len() implies 0 <= (#[trigger] all[i]).0 by {
            if i < base.len() {
                assert(all[i] == base[i]);
            } else if i < base.len() + ea.len() {
                assert(all[i] == ea[i - base.len()]);
            } else {
                assert(all[i] == eb[i - base.len() - ea.len()]);
            }
        }
    }
}

/// A graph with nodes numbered densely in order of first appearance.
pub struct Graph {
    pub(crate) names: Vec<String>,
    pub(crate) adj: Vec<Vec<(i32, usize)>>,
    pub(crate) index: StringHashMap<usize>,
}

impl View for Graph {
    type V = Adjacency;

    open(crate) spec fn view(&self) -> Adjacency {
        Map::new(
            |k: Seq<char>| self.index@.contains_key(k),
            |k: Seq<char>| self.row(self.index@[k] as int),
        )
    }
}

impl Graph {
    pub open(crate) spec fn name(&self, i: int) -> Seq<char> {
        self.names@[i]@
    }

    /// The pairs of node `u`, with neighbours by name.
    pub open(crate) spec fn row(&self, u: int) -> Seq<(int, Seq<char>)> {
        self.adj@[u]@.map_values(|p: (i32, usize)| (p.0 as int, self.name(p.1 as int)))
    }

    /// Number of distinct node names.
    pub open(crate) spec fn node_count(&self) -> nat {
        self.names.len() as nat
    }

    pub open(crate) spec fn wf(&self) -> bool {
        &&& self.adj.len() == self.names.len()
        &&& forall|i: int, j: int|
            0 <= i < j < self.names.len() ==> #[trigger] self.name(i) != #[trigger] self.name(j)
        &&& forall|k: Seq<char>|
            #[trigger] self.index@.contains_key(k) ==> self.index@[k] < self.names.len()
                && self.name(self.index@[k] as int) == k
        &&& forall|i: int|
            0 <= i < self.names.len() ==> #[trigger] self.index@.contains_key(self.name(i))
        &&& forall|u: int, j: int|
            0 <= u < self.adj.len() && 0 <= j < self.adj@[u]@.len() ==> (#[trigger] self.adj@[u]@[j]).1
                < self.names.len()
    }

    /// The neighbours of `name`, or `None` for a name that is no node.
    pub fn neighbours(&self, name: &str) -> (r: Option<Vec<(i32, String)>>)
        requires
            self.wf(),
        ensures
            match r {
                None => !self@.contains_key(name@),
                Some(v) => self@.contains_key(name@) && v@.len() == self@[name@].len() && forall|j: int|
                    0 <= j < v@.len() ==> (#[trigger] v@[j]).0 as int == self@[name@][j].0 && v@[j].1@
                        == self@[name@][j].1,
            },
    {
        match self.index.get(name) {
            None => None,
            Some(u) => {
                let u = *u;
                let row = &self.adj[u];
                let mut out: Vec<(i32, String)> = Vec::new();
                let mut j: usize = 0;
                while j < row.len()
                    invariant
                        self.wf(),
                        u < self.names.len(),
                        row == self.adj@[u as int],
                        j <= row.len(),
                        out@.len() == j,
                        forall|t: int|
                            0 <= t < j ==> (#[trigger] out@[t]).0 == row@[t].0 && out@[t].1@ == self.name(
                                row@[t].1 as int,
                            ),
                    decreases row.len() - j,
                {
                    let (w, v) = row[j];
                    out.push((w, self.names[v].clone()));
                    j = j + 1;
                }
                Some(out)
            },
        }
    }
}

/// The index of a node's name is that node.
pub(crate) proof fn lemma_index_of(g: &Graph, i: int)
    requires
        g.wf(),
        0 <= i < g.names.len(),
    ensures
        g.index@.contains_key(g.name(i)),
        g.index@[g.name(i)] == i,
        g@.contains_key(g.name(i)),
        g@[g.name(i)] == g.row(i),
{
    let k = g.name(i);
    assert(g.index@.contains_key(k));
    let p = g.index@[k] as int;
    if p != i {
        if p < i {
            assert(g.name(p) != g.name(i));
        } else {
            assert(g.name(i) != g.name(p));
        }
    }
}

/// Builds the adjacency map: one entry per distinct node name, and for every edge
/// `(length, b)` appended under `a` and `(length, a)` under `b`, in edge order.
/// Two nodes with one name share one entry; a self-loop adds two pairs to its node.
pub fn build_graph(nodes: Vec<City>, edges: Vec<Road>) -> (g: Graph)
    requires
        ids_present(nodes@),
        edges_resolve(nodes@, edges@),
    ensures
        g.wf(),
        g@ == adjacency_of(nodes@, edges@),
        g.node_count() <= nodes@.len(),
        lengths_nonnegative(edges@) ==> nonnegative(g@),
{
    let mut names: Vec<String> = Vec::new();
    let mut index: StringHashMap<usize> = StringHashMap::new();
    let mut ids: HashMapWithView<i32, usize> = HashMapWithView::new();
    let mut i: usize = 0;
    while i < nodes.len()
        invariant
            ids_present(nodes@),
            i <= nodes.len(),
            names.len() <= i,
            forall|p: int, q: int| 0 <= p < q < names.len() ==> #[trigger] names@[p]@ != #[trigger] names@[q]@,
            forall|k: Seq<char>|
                #[trigger] index@.contains_key(k) ==> index@[k] < names.len() && names@[index@[k] as int]@ == k,
            forall|p: int| 0 <= p < names.len() ==> #[trigger] index@.contains_key(names@[p]@),
            forall|k: Seq<char>| #[trigger] index@.contains_key(k) <==> is_node_name(nodes@.take(i as int), k),
            forall|id: i32| #[trigger] ids@.contains_key(id) <==> id_names(nodes@.take(i as int)).contains_key(id),
            forall|id: i32|
                #[trigger] ids@.contains_key(id) ==> ids@[id] < names.len() && names@[ids@[id] as int]@
                    == id_names(nodes@.take(i as int))[id],
        decreases nodes.len() - i,
    {
        let c = &nodes[i];
        let id = c.id.unwrap();
        let at: usize = match index.get(c.name.as_str()) {
            Some(p) => *p,
            None => {
                let p = names.len();
                names.push(c.name.clone());
                index.insert(c.name.clone(), p);
                p
            },
        };
        ids.insert(id, at);
        proof {
            let pre = nodes@.take(i as int);
            let post = nodes@.take(i + 1);
            assert(post.drop_last() =~= pre);
            assert(post.last() == nodes@[i as int]);
            assert forall|k: Seq<char>| #[trigger] index@.contains_key(k) <==> is_node_name(post, k) by {
                if is_node_name(pre, k) {
                    let w = choose|t: int| 0 <= t < pre.len() && (#[trigger] pre[t]).name@ == k;
                    assert(post[w] == pre[w]);
                }
                if is_node_name(post, k) {
                    let w = choose|t: int| 0 <= t < post.len() && (#[trigger] post[t]).name@ == k;
                    if w < i {
                        assert(post[w] == pre[w]);
                    }
                }
                if k == c.name@ {
                    assert(post[i as int] == nodes@[i as int]);
                }
            }
        }
        i = i + 1;
    }
    assert(nodes@.take(nodes.len() as int) =~= nodes@);
    let ghost idn = id_names(nodes@);
    let n = names.len();
    let mut adj: Vec<Vec<(i32, usize)>> = Vec::new();
    while adj.len() < n
        invariant
            adj.len() <= n,
            forall|u: int| 0 <= u < adj.len() ==> (#[trigger] adj@[u])@.len() == 0,
        decreases n - adj.len(),
    {
        adj.push(Vec::new());
    }
    let mut j: usize = 0;
    while j < edges.len()
        invariant
            edges_resolve(nodes@, edges@),
            idn == id_names(nodes@),
            j <= edges.len(),
            n == names.len(),
            adj.len() == n,
            forall|p: int, q: int| 0 <= p < q < names.len() ==> #[trigger] names@[p]@ != #[trigger] names@[q]@,
            forall|id: i32| #[trigger] ids@.contains_key(id) <==> idn.contains_key(id),
            forall|id: i32| #[trigger] ids@.contains_key(id) ==> ids@[id] < n && names@[ids@[id] as int]@ == idn[id],
            forall|u: int, t: int| 0 <= u < n && 0 <= t < adj@[u]@.len() ==> (#[trigger] adj@[u]@[t]).1 < n,
            forall|u: int|
                0 <= u < n ==> (#[trigger] adj@[u])@.map_values(|p: (i32, usize)| (p.0 as int, names@[p.1 as int]@))
                    == incident(idn, edges@.take(j as int), names@[u]@),
        decreases edges.len() - j,
    {
        let e = &edges[j];
        let a = *ids.get(&e.city_a).unwrap();
        let b = *ids.get(&e.city_b).unwrap();
        let ghost before = adj@;
        adj[a].push((e.length, b));
        adj[b].push((e.length, a));
        proof {
            let pre = edges@.take(j as int);
            let post = edges@.take(j + 1);
            assert(post.drop_last() =~= pre);
            assert(post.last() == edges@[j as int]);
            assert forall|u: int|
                0 <= u < n implies (#[trigger] adj@[u])@.map_values(
                |p: (i32, usize)| (p.0 as int, names@[p.1 as int]@),
            ) == incident(idn, post, names@[u]@) by {
                let f = |p: (i32, usize)| (p.0 as int, names@[p.1 as int]@);
                let ea: Seq<(i32, usize)> = if a == u { seq![(e.length, b)] } else { seq![] };
                let eb: Seq<(i32, usize)> = if b == u { seq![(e.length, a)] } else { seq![] };
                assert(adj@[u]@ =~= before[u]@ + ea + eb);
                assert((a == u) == (names@[a as int]@ == names@[u]@));
                assert((b == u) == (names@[b as int]@ == names@[u]@));
                assert(adj@[u]@.map_values(f) =~= before[u]@.map_values(f) + ea.map_values(f) + eb.map_values(f));
            }
        }
        j = j + 1;
    }
    assert(edges@.take(edges.len() as int) =~= edges@);
    let g = Graph { names, adj, index };
    proof {
        assert forall|u: int, t: int|
            0 <= u < g.adj.len() && 0 <= t < g.adj@[u]@.len() implies (#[trigger] g.adj@[u]@[t]).1
            < g.names.len() by {}
        assert forall|k: Seq<char>| #[trigger] g.index@.contains_key(k) implies g.row(g.index@[k] as int)
            == incident(idn, edges@, k) by {
            let u = g.index@[k] as int;
            let f = |p: (i32, usize)| (p.0 as int, g.names@[p.1 as int]@);
            assert(g.adj@[u]@.map_values(f) == incident(idn, edges@, g.names@[u]@));
            assert(g.row(u) =~= g.adj@[u]@.map_values(f));
        }
        assert(g@ =~= adjacency_of(nodes@, edges@));
        if lengths_nonnegative(edges@) {
            assert forall|k: Seq<char>, j: int| g@.contains_key(k) && 0 <= j < g@[k].len() implies 0 <= (
            #[trigger] g@[k][j]).0 by {
                lemma_incident_weights(idn, edges@, k);
            }
        }
    }
    g
}

proof fn lemma_id_name_is_node(nodes: Seq<City>, id: i32)
    requires
        id_names(nodes).contains_key(id),
    ensures
        is_node_name(nodes, id_names(nodes)[id]),
    decreases nodes.len(),
{
    let c = nodes.last();
    if c.id.unwrap() != id {
        lemma_id_name_is_node(nodes.drop_last(), id);
        let i = choose|i: int|
            0 <= i < nodes.drop_last().len() && (#[trigger] nodes.drop_last()[i]).name@ == id_names(
                nodes.drop_last(),
            )[id];
        assert(nodes[i] == nodes.drop_last()[i]);
    } else {
        assert(nodes[nodes.len() - 1] == c);
    }
}

proof fn lemma_incident_grows(ids: Map<i32, Seq<char>>, edges: Seq<Road>, i: int, k: Seq<char>, x: (int, Seq<char>))
    requires
        0 <= i <= edges.len(),
        incident(ids, edges.take(i), k).contains(x),
    ensures
        incident(ids, edges, k).contains(x),
    decreases edges.len(),
{
    if i == edges.len() {
        assert(edges.take(i) =~= edges);
    } else {
        let prev = edges.drop_last();
        assert(prev.take(i) =~= edges.take(i));
        lemma_incident_grows(ids, prev, i, k, x);
        let w = choose|w: int| 0 <= w < incident(ids, prev, k).len() && incident(ids, prev, k)[w] == x;
        assert(incident(ids, edges, k)[w] == x);
    }
}

/// Every edge appears under both of its endpoints: `(w, b)` under `a` and `(w, a)`
/// under `b`, for an edge of weight `w` between the nodes named `a` and `b`.
pub proof fn lemma_edge_both_ways(nodes: Seq<City>, edges: Seq<Road>, j: int)
    requires
        ids_present(nodes),
        edges_resolve(nodes, edges),
        0 <= j < edges.len(),
    ensures
        ({
            let g = adjacency_of(nodes, edges);
            let e = edges[j];
            let a = id_names(nodes)[e.city_a];
            let b = id_names(nodes)[e.city_b];
            &&& g.contains_key(a)
            &&& g.contains_key(b)
            &&& g[a].contains((e.length as int, b))
            &&& g[b].contains((e.length as int, a))
        }),
{
    let ids = id_names(nodes);
    let e = edges[j];
    let a = ids[e.city_a];
    let b = ids[e.city_b];
    lemma_id_name_is_node(nodes, e.city_a);
    lemma_id_name_is_node(nodes, e.city_b);
    let pre = edges.take(j + 1);
    assert(pre.drop_last() =~= edges.take(j));
    assert(pre.last() == e);
    let ia = incident(ids, pre, a);
    let ib = incident(ids, pre, b);
    let ra = incident(ids, edges.take(j), a);
    let rb = incident(ids, edges.take(j), b);
    assert(ia[ra.len() as int] == (e.length as int, b));
    let extra: Seq<(int, Seq<char>)> = if a == b { seq![(e.length as int, b)] } else { seq![] };
    assert(ib =~= rb + extra + seq![(e.length as int, a)]);
    assert(ib[ib.len() - 1] == (e.length as int, a));
    lemma_incident_grows(ids, edges, j + 1, a, (e.length as int, b));
    lemma_incident_grows(ids, edges, j + 1, b, (e.length as int, a));
}

/// Building twice from the same node and edge lists gives the same adjacency map.
pub proof fn lemma_rebuild_same(nodes: Seq<City>, edges: Seq<Road>, first: Graph, second: Graph)
    requires
        first@ == adjacency_of(nodes, edges),
        second@ == adjacency_of(nodes, edges),
    ensures
        first@ == second@,
        forall|k: Seq<char>| #[trigger] first@.contains_key(k) ==> first@[k].to_multiset() == second@[k].to_multiset(),
{
}

/// Whether the lists meet what `build_graph` and the searches ask of them: every
/// node carries an identifier, every edge endpoint is one of them, and no length is
/// negative.
pub fn roads_usable(nodes: &Vec<City>, edges: &Vec<Road>) -> (r: bool)
    ensures
        r == (ids_present(nodes@) && edges_resolve(nodes@, edges@) && lengths_nonnegative(edges@)),
{
    let mut ids: HashMapWithView<i32, ()> = HashMapWithView::new();
    let mut i: usize = 0;
    while i < nodes.len()
        invariant
            i <= nodes.len(),
            forall|k: int| 0 <= k < i ==> (#[trigger] nodes@[k]).id.is_some(),
            forall|id: i32| #[trigger] ids@.contains_key(id) <==> id_names(nodes@.take(i as int)).contains_key(id),
        decreases nodes.len() - i,
    {
        match nodes[i].id {
            None => {
                return false;
            },
            Some(id) => {
                proof {
                    assert(nodes@.take(i + 1).drop_last() =~= nodes@.take(i as int));
                    assert(nodes@.take(i + 1).last() == nodes@[i as int]);
                }
                ids.insert(id, ());
            },
        }
        i = i + 1;
    }
    assert(nodes@.take(nodes.len() as int) =~= nodes@);
    let mut j: usize = 0;
    while j < edges.len()
        invariant
            j <= edges.len(),
            ids_present(nodes@),
            forall|id: i32| #[trigger] ids@.contains_key(id) <==> id_names(nodes@).contains_key(id),
            forall|k: int|
                0 <= k < j ==> id_names(nodes@).contains_key((#[trigger] edges@[k]).city_a) && id_names(
                    nodes@,
                ).contains_key(edges@[k].city_b) && 0 <= edges@[k].length,
        decreases edges.len() - j,
    {
        let e = &edges[j];
        if !ids.contains_key(&e.city_a) || !ids.contains_key(&e.city_b) || e.length < 0 {
            proof {
                assert(edges@[j as int] == *e);
            }
            return false;
        }
        j = j + 1;
    }
    true
}

} // verus!
