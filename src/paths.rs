use vstd::prelude::*;
use vstd::string::StringExecFns;
use crate::graph::{
    Adjacency, Graph, is_walk, walk_end, walk_cost, reachable, is_least_cost, nonnegative, lemma_index_of,
};
use crate::search::{
    Entry, reached, cost_at, pred_at, link_ok, tree_ok, settled, weights_ok, search, lemma_walk_end_key,
    lemma_walk_bound, lemma_tree_walk,
};

verus! {

/// The distance/predecessor map: each reached node name maps to the name of its
/// predecessor on a route from the start (none for the start itself) and the
/// route's cost.
pub type Routes = Map<Seq<char>, (Option<Seq<char>>, int)>;

/// Every recorded predecessor is the last hop of the recorded route: the start has
/// none, and any other node's predecessor is reached and lists it at the difference
/// of their costs.
pub open spec fn links_consistent(g: Adjacency, m: Routes, start: Seq<char>) -> bool {
    forall|k: Seq<char>| #[trigger] m.contains_key(k) ==> g.contains_key(k) && match m[k].0 {
        None => k == start,
        Some(p) => m.contains_key(p) && g[p].contains((m[k].1 - m[p].1, k)),
    }
}

/// Some walk from `s` to `t` costs exactly `c`.
pub open spec fn walk_of_cost(g: Adjacency, s: Seq<char>, t: Seq<char>, c: int) -> bool {
    exists|hops: Seq<(int, Seq<char>)>|
        #[trigger] is_walk(g, s, hops) && walk_end(s, hops) == t && walk_cost(hops) == c
}

/// `rt` runs from `start` to `end` along recorded predecessors.
pub open spec fn is_route(m: Routes, start: Seq<char>, end: Seq<char>, rt: Seq<Seq<char>>) -> bool {
    &&& rt.len() >= 1
    &&& rt[0] == start
    &&& rt.last() == end
    &&& forall|i: int| 0 <= i < rt.len() ==> m.contains_key(#[trigger] rt[i])
    &&& forall|i: int| 0 < i < rt.len() ==> m[#[trigger] rt[i]].0 == Some(rt[i - 1])
}

/// `---> name ` for each name in turn.
pub open spec fn arrows(names: Seq<Seq<char>>) -> Seq<char>
    decreases names.len(),
{
    if names.len() == 0 {
        Seq::empty()
    } else {
        arrows(names.drop_last()) + "---> "@ + names.last() + " "@
    }
}

/// The rendered route: a header line, then the start and an arrow to each later node.
pub open spec fn path_text(start: Seq<char>, end: Seq<char>, rt: Seq<Seq<char>>) -> Seq<char> {
    "Path from "@ + start + " to "@ + end + ": \n"@ + start + " "@ + arrows(rt.drop_first())
}

/// The distance/predecessor map of one search.
pub struct PathMap {
    pub(crate) graph: Graph,
    pub(crate) entries: Vec<Entry>,
    pub(crate) source: usize,
    pub(crate) rank: Ghost<Seq<int>>,
}

impl View for PathMap {
    type V = Routes;

    open(crate) spec fn view(&self) -> Routes {
        Map::new(
            |k: Seq<char>| self.graph.index@.contains_key(k) && reached(self.entries@, self.graph.index@[k] as int),
            |k: Seq<char>| self.entry_view(self.graph.index@[k] as int),
        )
    }
}

impl PathMap {
    pub(crate) open spec fn entry_view(&self, v: int) -> (Option<Seq<char>>, int) {
        (
            match pred_at(self.entries@, v) {
                Some(u) => Some(self.graph.name(u as int)),
                None => None,
            },
            cost_at(self.entries@, v),
        )
    }

    pub open(crate) spec fn wf(&self) -> bool {
        &&& self.graph.wf()
        &&& tree_ok(&self.graph, self.source as int, self.entries@, self.rank@)
    }

    /// The predecessor and cost recorded for `name`, if it was reached.
    pub fn get(&self, name: &str) -> (r: Option<(Option<String>, i64)>)
        requires
            self.wf(),
        ensures
            match r {
                None => !self@.contains_key(name@),
                Some((p, c)) => {
                    &&& self@.contains_key(name@)
                    &&& c as int == self@[name@].1
                    &&& match p {
                        None => self@[name@].0 == None::<Seq<char>>,
                        Some(ps) => self@[name@].0 == Some(ps@),
                    }
                },
            },
    {
        match self.graph.index.get(name) {
            None => None,
            Some(v) => {
                let v = *v;
                match self.entries[v] {
                    None => None,
                    Some((p, c)) => {
                        proof {
                            assert(reached(self.entries@, v as int));
                            assert(link_ok(&self.graph, self.source as int, self.entries@, self.rank@, v as int));
                        }
                        let pn = match p {
                            None => None,
                            Some(u) => Some(self.graph.names[u].clone()),
                        };
                        Some((pn, c))
                    },
                }
            },
        }
    }

    /// Whether `name` was reached.
    pub fn contains_key(&self, name: &str) -> (r: bool)
        requires
            self.wf(),
        ensures
            r == self@.contains_key(name@),
    {
        match self.graph.index.get(name) {
            None => false,
            Some(v) => self.entries[*v].is_some(),
        }
    }
}

proof fn lemma_weights(g: &Graph)
    requires
        g.wf(),
        nonnegative(g@),
    ensures
        weights_ok(g),
{
    assert forall|u: int, j: int| 0 <= u < g.adj.len() && 0 <= j < g.adj@[u]@.len() implies 0 <= (
    #[trigger] g.adj@[u]@[j]).0 by {
        lemma_index_of(g, u);
        assert(g@[g.name(u)][j] == g.row(u)[j]);
    }
}

/// What both searches promise of every entry.
proof fn lemma_entries(g: &Graph, s: int, e: Seq<Entry>, rank: Seq<int>, r: PathMap)
    requires
        g.wf(),
        tree_ok(g, s, e, rank),
        r.graph == *g,
        r.entries@ == e,
        r.source == s,
        r.rank@ == rank,
    ensures
        r.wf(),
        r@.contains_key(g.name(s)),
        r@[g.name(s)] == (None::<Seq<char>>, 0int),
        links_consistent(g@, r@, g.name(s)),
        forall|k: Seq<char>| #[trigger] r@.contains_key(k) ==> walk_of_cost(g@, g.name(s), k, r@[k].1),
{
    lemma_index_of(g, s);
    assert forall|k: Seq<char>| #[trigger] r@.contains_key(k) implies walk_of_cost(g@, g.name(s), k, r@[k].1)
        by {
        let v = g.index@[k] as int;
        lemma_tree_walk(g, s, e, rank, v);
    }
    assert forall|k: Seq<char>| #[trigger] r@.contains_key(k) implies g@.contains_key(k) && match r@[k].0 {
        None => k == g.name(s),
        Some(p) => r@.contains_key(p) && g@[p].contains((r@[k].1 - r@[p].1, k)),
    } by {
        let v = g.index@[k] as int;
        assert(link_ok(g, s, e, rank, v));
        match pred_at(e, v) {
            None => {},
            Some(u) => {
                let u = u as int;
                lemma_index_of(g, u);
                lemma_index_of(g, v);
                let j = choose|j: int|
                    0 <= j < g.adj@[u]@.len() && (#[trigger] g.adj@[u]@[j]).1 == v && cost_at(e, v) == cost_at(
                        e,
                        u,
                    ) + g.adj@[u]@[j].0;
                assert(g.row(u)[j] == (r@[k].1 - r@[g.name(u)].1, k));
            },
        }
    }
}

/// After a search that ran until the queue emptied, a node is reached exactly when
/// a walk leads to it, at its least cost.
proof fn lemma_complete(g: &Graph, s: int, e: Seq<Entry>, rank: Seq<int>, r: PathMap)
    requires
        g.wf(),
        tree_ok(g, s, e, rank),
        settled(g, e, Map::empty(), -1),
        r.graph == *g,
        r.entries@ == e,
        r.source == s,
        r.rank@ == rank,
    ensures
        forall|k: Seq<char>| #[trigger] r@.contains_key(k) <==> reachable(g@, g.name(s), k),
        forall|k: Seq<char>| #[trigger] r@.contains_key(k) ==> is_least_cost(g@, g.name(s), k, r@[k].1),
{
    lemma_entries(g, s, e, rank, r);
    let q = Map::<usize, i64>::empty();
    assert forall|k: Seq<char>| #[trigger] r@.contains_key(k) <==> reachable(g@, g.name(s), k) by {
        if r@.contains_key(k) {
            assert(walk_of_cost(g@, g.name(s), k, r@[k].1));
        }
        if reachable(g@, g.name(s), k) {
            let hops = choose|hops: Seq<(int, Seq<char>)>|
                #[trigger] is_walk(g@, g.name(s), hops) && walk_end(g.name(s), hops) == k;
            lemma_walk_bound(g, s, e, q, hops);
            lemma_walk_end_key(g, g.name(s), hops);
        }
    }
    assert forall|k: Seq<char>| #[trigger] r@.contains_key(k) implies is_least_cost(g@, g.name(s), k, r@[k].1)
        by {
        assert(walk_of_cost(g@, g.name(s), k, r@[k].1));
        assert forall|hops: Seq<(int, Seq<char>)>|
            #[trigger] is_walk(g@, g.name(s), hops) && walk_end(g.name(s), hops) == k implies r@[k].1
            <= walk_cost(hops) by {
            lemma_walk_bound(g, s, e, q, hops);
        }
    }
}

/// Least-cost routes from `start` to every node that a walk reaches; nodes that no
/// walk reaches get no entry. Weights must not be negative. Costs are summed as
/// `i64`, which holds any route over at most `u32::MAX` nodes.
pub fn shortest_paths(start: String, graph: Graph) -> (r: PathMap)
    requires
        graph.wf(),
        graph@.contains_key(start@),
        nonnegative(graph@),
        graph.node_count() <= u32::MAX,
    ensures
        r.wf(),
        r@.contains_key(start@),
        r@[start@] == (None::<Seq<char>>, 0int),
        links_consistent(graph@, r@, start@),
        forall|k: Seq<char>| #[trigger] r@.contains_key(k) <==> reachable(graph@, start@, k),
        forall|k: Seq<char>| #[trigger] r@.contains_key(k) ==> is_least_cost(graph@, start@, k, r@[k].1),
{
    let s = *graph.index.get(start.as_str()).unwrap();
    proof {
        lemma_weights(&graph);
    }
    let (entries, rank) = search(&graph, s, None);
    let ghost g = graph;
    let r = PathMap { graph, entries, source: s, rank };
    proof {
        lemma_entries(&g, s as int, r.entries@, rank@, r);
        lemma_complete(&g, s as int, r.entries@, rank@, r);
    }
    r
}

/// Least-cost search from `start` that stops once `goal` is settled. Every entry
/// records the cost of some walk; when `goal` is a node, it gets an entry exactly
/// when a walk reaches it, and then its cost is the least. A `goal` that names no
/// node lets the search run to the end. Whenever the search is not cut short by
/// reaching `goal`, the result is what `shortest_paths` gives. Weights must not be
/// negative.
pub fn dijkstra(start: String, goal: String, graph: Graph) -> (r: PathMap)
    requires
        graph.wf(),
        graph@.contains_key(start@),
        nonnegative(graph@),
        graph.node_count() <= u32::MAX,
    ensures
        r.wf(),
        r@.contains_key(start@),
        r@[start@] == (None::<Seq<char>>, 0int),
        links_consistent(graph@, r@, start@),
        forall|k: Seq<char>| #[trigger] r@.contains_key(k) ==> walk_of_cost(graph@, start@, k, r@[k].1),
        graph@.contains_key(goal@) ==> (r@.contains_key(goal@) <==> reachable(graph@, start@, goal@)),
        graph@.contains_key(goal@) && r@.contains_key(goal@) ==> is_least_cost(
            graph@,
            start@,
            goal@,
            r@[goal@].1,
        ),
        !(graph@.contains_key(goal@) && reachable(graph@, start@, goal@)) ==> (forall|k: Seq<char>|
            #[trigger] r@.contains_key(k) <==> reachable(graph@, start@, k)) && (forall|k: Seq<char>|
            #[trigger] r@.contains_key(k) ==> is_least_cost(graph@, start@, k, r@[k].1)),
{
    let s = *graph.index.get(start.as_str()).unwrap();
    let target: Option<usize> = match graph.index.get(goal.as_str()) {
        Some(x) => Some(*x),
        None => None,
    };
    proof {
        lemma_weights(&graph);
    }
    let (entries, rank) = search(&graph, s, target);
    let ghost g = graph;
    let r = PathMap { graph, entries, source: s, rank };
    proof {
        lemma_entries(&g, s as int, r.entries@, rank@, r);
        if settled(&g, r.entries@, Map::empty(), -1) {
            lemma_complete(&g, s as int, r.entries@, rank@, r);
        } else {
            let x = target.unwrap() as int;
            lemma_index_of(&g, x);
            assert(walk_of_cost(g@, start@, goal@, r@[goal@].1));
            assert(reachable(g@, start@, goal@));
        }
    }
    r
}

/// Renders the route to `end` recorded in `path`:
/// `Path from <start> to <end>: ` on one line, then `<start> ` followed by
/// `---> <node> ` for each later node of the route in order.
pub fn format_path(start: String, end: String, path: &PathMap) -> (r: String)
    requires
        path.wf(),
        path@.contains_key(start@),
        path@[start@].0 == None::<Seq<char>>,
        path@.contains_key(end@),
    ensures
        exists|rt: Seq<Seq<char>>|
            #[trigger] is_route(path@, start@, end@, rt) && r@ == path_text(start@, end@, rt),
{
    let ghost g = path.graph;
    let ghost e = path.entries@;
    let ghost m = path@;
    let ghost rank = path.rank@;
    let s = path.source;
    let mut cur: usize = *path.graph.index.get(end.as_str()).unwrap();
    let mut rev: Vec<usize> = Vec::new();
    let ghost mut rt: Seq<Seq<char>> = seq![end@];
    proof {
        lemma_index_of(&g, cur as int);
    }
    while cur != s
        invariant
            path.wf(),
            g == path.graph,
            e == path.entries@,
            m == path@,
            rank == path.rank@,
            s == path.source,
            cur < g.names.len(),
            reached(e, cur as int),
            rt.len() == rev.len() + 1,
            rt[0] == g.name(cur as int),
            rt.last() == end@,
            forall|i: int| 0 <= i < rt.len() ==> m.contains_key(#[trigger] rt[i]),
            forall|i: int| 0 < i < rt.len() ==> m[#[trigger] rt[i]].0 == Some(rt[i - 1]),
            forall|i: int|
                0 <= i < rev.len() ==> #[trigger] rev@[i] < g.names.len() && g.name(rev@[i] as int) == rt[rt.len()
                    - 1 - i],
        decreases rank[cur as int],
    {
        proof {
            assert(link_ok(&g, s as int, e, rank, cur as int));
            lemma_index_of(&g, cur as int);
        }
        let ghost old_rt = rt;
        let ghost old_cur = cur;
        rev.push(cur);
        cur = path.entries[cur].unwrap().0.unwrap();
        proof {
            lemma_index_of(&g, cur as int);
            rt = seq![g.name(cur as int)] + old_rt;
            assert(m[g.name(old_cur as int)].0 == Some(g.name(cur as int)));
            assert forall|i: int| 0 < i < rt.len() implies m[#[trigger] rt[i]].0 == Some(rt[i - 1]) by {
                if i > 1 {
                    assert(rt[i] == old_rt[i - 1]);
                    assert(rt[i - 1] == old_rt[i - 2]);
                }
            }
            assert forall|i: int| 0 <= i < rt.len() implies m.contains_key(#[trigger] rt[i]) by {
                if i > 0 {
                    assert(rt[i] == old_rt[i - 1]);
                }
            }
            assert forall|i: int| 0 <= i < rev.len() implies #[trigger] rev@[i] < g.names.len() && g.name(
                rev@[i] as int,
            ) == rt[rt.len() - 1 - i] by {
                if i < rev.len() - 1 {
                    assert(rt[rt.len() - 1 - i] == old_rt[old_rt.len() - 1 - i]);
                }
            }
        }
    }
    proof {
        let v = g.index@[start@] as int;
        assert(link_ok(&g, s as int, e, rank, v));
        lemma_index_of(&g, s as int);
    }
    let mut text = String::from_str("Path from ");
    text.append(start.as_str());
    text.append(" to ");
    text.append(end.as_str());
    text.append(": \n");
    text.append(start.as_str());
    text.append(" ");
    let ghost head = text@;
    let mut k = rev.len();
    while k > 0
        invariant
            g == path.graph,
            rt.len() == rev.len() + 1,
            k <= rev.len(),
            forall|i: int|
                0 <= i < rev.len() ==> #[trigger] rev@[i] < g.names.len() && g.name(rev@[i] as int) == rt[rt.len()
                    - 1 - i],
            text@ == head + arrows(rt.subrange(1, rev.len() - k + 1)),
        decreases k,
    {
        k = k - 1;
        let ghost before = text@;
        text.append("---> ");
        text.append(path.graph.names[rev[k]].as_str());
        text.append(" ");
        proof {
            let sub = rt.subrange(1, rev.len() - k + 1);
            assert(sub.drop_last() =~= rt.subrange(1, rev.len() - k));
            assert(sub.last() == rt[rt.len() - 1 - k]);
            assert(text@ =~= head + arrows(sub));
        }
    }
    proof {
        assert(rt.subrange(1, rt.len() as int) =~= rt.drop_first());
        assert(is_route(m, start@, end@, rt));
    }
    text
}

/// Predecessors fix the route: two routes from `start` to `end` are the same
/// sequence when the start has no predecessor.
pub proof fn lemma_route_unique(
    m: Routes,
    start: Seq<char>,
    end: Seq<char>,
    first: Seq<Seq<char>>,
    second: Seq<Seq<char>>,
)
    requires
        m.contains_key(start),
        m[start].0 == None::<Seq<char>>,
        is_route(m, start, end, first),
        is_route(m, start, end, second),
    ensures
        first == second,
    decreases first.len() + second.len(),
{
    if first.len() == 1 && second.len() == 1 {
        assert(first =~= second);
    } else if first.len() == 1 {
        assert(m[second[second.len() - 1]].0 == Some(second[second.len() - 2]));
    } else if second.len() == 1 {
        assert(m[first[first.len() - 1]].0 == Some(first[first.len() - 2]));
    } else {
        let p = first[first.len() - 2];
        assert(m[first[first.len() - 1]].0 == Some(first[first.len() - 2]));
        assert(m[second[second.len() - 1]].0 == Some(second[second.len() - 2]));
        let f = first.drop_last();
        let g = second.drop_last();
        assert forall|i: int| 0 <= i < f.len() implies m.contains_key(#[trigger] f[i]) by {
            assert(f[i] == first[i]);
        }
        assert forall|i: int| 0 < i < f.len() implies m[#[trigger] f[i]].0 == Some(f[i - 1]) by {
            assert(f[i] == first[i]);
        }
        assert forall|i: int| 0 <= i < g.len() implies m.contains_key(#[trigger] g[i]) by {
            assert(g[i] == second[i]);
        }
        assert forall|i: int| 0 < i < g.len() implies m[#[trigger] g[i]].0 == Some(g[i - 1]) by {
            assert(g[i] == second[i]);
        }
        lemma_route_unique(m, start, p, f, g);
        assert(first =~= f.push(end));
        assert(second =~= g.push(end));
    }
}

/// A recorded route is a walk of the graph: its hops visit the route's nodes after
/// the start, in order, and their weights add up to the cost recorded for its end.
pub proof fn lemma_route_is_walk(g: Adjacency, m: Routes, start: Seq<char>, end: Seq<char>, rt: Seq<Seq<char>>)
    requires
        links_consistent(g, m, start),
        m.contains_key(start),
        m[start] == (None::<Seq<char>>, 0int),
        is_route(m, start, end, rt),
    ensures
        exists|hops: Seq<(int, Seq<char>)>|
            #[trigger] is_walk(g, start, hops) && walk_end(start, hops) == end && walk_cost(hops) == m[end].1
                && hops.map_values(|h: (int, Seq<char>)| h.1) == rt.drop_first(),
    decreases rt.len(),
{
    if rt.len() == 1 {
        let hops = Seq::<(int, Seq<char>)>::empty();
        assert(hops.map_values(|h: (int, Seq<char>)| h.1) =~= rt.drop_first());
        assert(is_walk(g, start, hops));
    } else {
        let prev = rt.drop_last();
        let p = rt[rt.len() - 2];
        assert(m[rt[rt.len() - 1]].0 == Some(rt[rt.len() - 2]));
        assert forall|i: int| 0 <= i < prev.len() implies m.contains_key(#[trigger] prev[i]) by {
            assert(prev[i] == rt[i]);
        }
        assert forall|i: int| 0 < i < prev.len() implies m[#[trigger] prev[i]].0 == Some(prev[i - 1]) by {
            assert(prev[i] == rt[i]);
        }
        lemma_route_is_walk(g, m, start, p, prev);
        let hp = choose|hops: Seq<(int, Seq<char>)>|
            #[trigger] is_walk(g, start, hops) && walk_end(start, hops) == p && walk_cost(hops) == m[p].1
                && hops.map_values(|h: (int, Seq<char>)| h.1) == prev.drop_first();
        let h = (m[end].1 - m[p].1, end);
        let hops = hp.push(h);
        assert(hops.drop_last() =~= hp);
        assert(m.contains_key(end));
        assert(is_walk(g, start, hops));
        let names = hops.map_values(|h: (int, Seq<char>)| h.1);
        let before = hp.map_values(|h: (int, Seq<char>)| h.1);
        assert(before.len() == prev.len() - 1);
        assert(names.len() == rt.len() - 1);
        assert forall|i: int| 0 <= i < names.len() implies names[i] == rt.drop_first()[i] by {
            if i < names.len() - 1 {
                assert(names[i] == before[i]);
                assert(before[i] == prev.drop_first()[i]);
                assert(prev.drop_first()[i] == rt[i + 1]);
            } else {
                assert(names[i] == end);
                assert(rt.drop_first()[i] == rt[rt.len() - 1]);
            }
        }
        assert(names =~= rt.drop_first());
    }
}

} // verus!
