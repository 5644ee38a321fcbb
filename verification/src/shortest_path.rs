//! The shortest-path computation behind the example service built on the
//! runtime: a graph of nodes joined by weighted paths, searched by settling
//! the cheapest unsettled node until the target is reached.

use std::cmp::Ordering;

use vstd::prelude::*;

verus! {

/// One directed connection between two nodes; its cost is the sum of its
/// length and how busy it is.
#[derive(Clone, Copy, Debug, Hash, PartialEq, Eq, Structural)]
pub struct Path {
    pub from: usize,
    pub to: usize,
    pub length: usize,
    pub busyness: usize,
}

/// A path's travel cost; the sum saturates at the machine's limit.
pub open spec fn spec_time(p: Path) -> int {
    if p.length + p.busyness > usize::MAX {
        usize::MAX as int
    } else {
        p.length + p.busyness
    }
}

impl Path {
    pub fn new(from: usize, to: usize, length: usize, busyness: usize) -> (r: Path)
        ensures
            r == (Path { from, to, length, busyness }),
    {
        Path { from, to, length, busyness }
    }

    pub fn time(&self) -> (r: usize)
        ensures
            r == spec_time(*self),
    {
        self.length.saturating_add(self.busyness)
    }
}

impl PartialOrd for Path {
    fn partial_cmp(&self, other: &Path) -> (r: Option<Ordering>) {
        let t1 = self.time();
        let t2 = other.time();
        if t1 == t2 {
            Some(Ordering::Equal)
        } else if t1 < t2 {
            Some(Ordering::Less)
        } else {
            Some(Ordering::Greater)
        }
    }
}

impl vstd::std_specs::cmp::PartialOrdSpecImpl for Path {
    open spec fn obeys_partial_cmp_spec() -> bool {
        true
    }

    open spec fn partial_cmp_spec(&self, other: &Path) -> Option<Ordering> {
        if spec_time(*self) == spec_time(*other) {
            Some(Ordering::Equal)
        } else if spec_time(*self) < spec_time(*other) {
            Some(Ordering::Less)
        } else {
            Some(Ordering::Greater)
        }
    }
}

/// One graph node: its index in the graph together with its outgoing paths.
#[derive(Debug, PartialEq, Eq)]
pub struct Node {
    pub index: usize,
    pub path_set: Vec<Path>,
}

impl Node {
    pub fn new(index: usize) -> (r: Self)
        ensures
            r.index == index,
            r.path_set@ == Seq::<Path>::empty(),
    {
        Self { index, path_set: Vec::new() }
    }

    /// Records one outgoing path; it must leave from this node.  The paths
    /// form a set: adding a path already present changes nothing.
    pub fn add_path(&mut self, next: Path)
        requires
            next.from == old(self).index,
        ensures
            final(self).index == old(self).index,
            final(self).path_set@ == if old(self).path_set@.contains(next) {
                old(self).path_set@
            } else {
                old(self).path_set@.push(next)
            },
    {
        let mut i: usize = 0;
        while i < self.path_set.len()
            invariant
                i <= self.path_set@.len(),
                *self == *old(self),
                forall|j: int| 0 <= j < i ==> self.path_set@[j] != next,
            decreases self.path_set@.len() - i,
        {
            if self.path_set[i] == next {
                proof {
                    assert(old(self).path_set@[i as int] == next);
                    assert(old(self).path_set@.contains(next));
                }
                return ;
            }
            i = i + 1;
        }
        proof {
            assert(!old(self).path_set@.contains(next));
        }
        self.path_set.push(next);
    }

    /// The cheapest of this node's outgoing paths: a member of the set that
    /// no other member undercuts.
    pub fn get_shortest_patch(&self) -> (r: &Path)
        requires
            self.path_set@.len() > 0,
        ensures
            exists|i: int| 0 <= i < self.path_set@.len() && self.path_set@[i] == *r,
            forall|i: int|
                0 <= i < self.path_set@.len() ==> spec_time(*r) <= spec_time(
                    #[trigger] self.path_set@[i],
                ),
    {
        let mut best: usize = 0;
        let mut i: usize = 1;
        while i < self.path_set.len()
            invariant
                1 <= i <= self.path_set@.len(),
                best < i,
                forall|j: int|
                    0 <= j < i ==> spec_time(self.path_set@[best as int]) <= spec_time(
                        #[trigger] self.path_set@[j],
                    ),
            decreases self.path_set@.len() - i,
        {
            if self.path_set[i].time() < self.path_set[best].time() {
                best = i;
            }
            i = i + 1;
        }
        &self.path_set[best]
    }

    pub fn get_path_set(&self) -> (r: &Vec<Path>)
        ensures
            r@ == self.path_set@,
    {
        &self.path_set
    }
}

/// Cost addition as the search performs it: saturating at the machine's
/// limit.
pub open spec fn spec_add_time(a: int, b: int) -> int {
    if a + b > usize::MAX {
        usize::MAX as int
    } else {
        a + b
    }
}

/// The graph's path numbered `j` out of node `a` leads to node `b`, and
/// extends a walk of cost `t0` to one of cost `t`.
pub open spec fn spec_route_step(nodes: Seq<Node>, a: int, b: int, j: int, t0: int, t: int) -> bool {
    &&& 0 <= a < nodes.len()
    &&& 0 <= b < nodes.len()
    &&& 0 <= j < nodes[a].path_set@.len()
    &&& nodes[a].path_set@[j].to == b
    &&& t == spec_add_time(spec_time(nodes[a].path_set@[j]), t0)
}

/// `route` is a walk through the graph whose saturating cost is `t`: a
/// non-empty sequence of node indices, each consecutive pair joined by one
/// of the graph's paths.
pub open spec fn spec_route_costs(nodes: Seq<Node>, route: Seq<int>, t: int) -> bool
    decreases route.len(),
{
    if route.len() == 0 {
        false
    } else if route.len() == 1 {
        t == 0 && 0 <= route[0] < nodes.len()
    } else {
        exists|j: int, t0: int|
            {
                &&& #[trigger] spec_route_step(
                    nodes,
                    route[route.len() - 2],
                    route[route.len() - 1],
                    j,
                    t0,
                    t,
                )
                &&& spec_route_costs(nodes, route.drop_last(), t0)
            }
    }
}

/// Some walk from `from` to `target` costs exactly `t`.
pub open spec fn spec_reaches(nodes: Seq<Node>, from: int, target: int, t: int) -> bool {
    exists|route: Seq<int>|
        route.len() >= 1 && route[0] == from && route.last() == target
            && #[trigger] spec_route_costs(nodes, route, t)
}

proof fn lemma_route_extend(nodes: Seq<Node>, route: Seq<int>, t0: int, hop_from: int, j: int)
    requires
        spec_route_costs(nodes, route, t0),
        route.len() >= 1,
        route.last() == hop_from,
        0 <= hop_from < nodes.len(),
        0 <= j < nodes[hop_from].path_set@.len(),
        0 <= nodes[hop_from].path_set@[j].to < nodes.len(),
    ensures
        spec_route_costs(
            nodes,
            route.push(nodes[hop_from].path_set@[j].to as int),
            spec_add_time(spec_time(nodes[hop_from].path_set@[j]), t0),
        ),
{
    let hop_to = nodes[hop_from].path_set@[j].to as int;
    let extended = route.push(hop_to);
    let t = spec_add_time(spec_time(nodes[hop_from].path_set@[j]), t0);
    assert(extended.drop_last() =~= route);
    assert(extended[extended.len() - 2] == hop_from);
    assert(extended[extended.len() - 1] == hop_to);
    assert(spec_route_step(nodes, extended[extended.len() - 2], extended[extended.len() - 1], j, t0, t));
    assert(spec_route_costs(nodes, extended.drop_last(), t0));
}

/// Some path of the graph leaves node `u` for node `v`.
pub open spec fn spec_has_edge(nodes: Seq<Node>, u: int, v: int) -> bool
    recommends
        0 <= u < nodes.len(),
{
    exists|j: int| 0 <= j < nodes[u].path_set@.len() && (#[trigger] nodes[u].path_set@[j]).to == v
}

/// How many entries of a settled table are set.
pub open spec fn spec_count_true(s: Seq<bool>) -> int
    decreases s.len(),
{
    if s.len() == 0 {
        0
    } else if s.last() {
        spec_count_true(s.drop_last()) + 1
    } else {
        spec_count_true(s.drop_last())
    }
}

proof fn lemma_count_true_bounds(s: Seq<bool>)
    ensures
        0 <= spec_count_true(s) <= s.len(),
    decreases s.len(),
{
    if s.len() > 0 {
        lemma_count_true_bounds(s.drop_last());
    }
}

proof fn lemma_count_true_update(s: Seq<bool>, i: int)
    requires
        0 <= i < s.len(),
        !s[i],
    ensures
        spec_count_true(s.update(i, true)) == spec_count_true(s) + 1,
    decreases s.len(),
{
    let t = s.update(i, true);
    if i == s.len() - 1 {
        assert(t.drop_last() =~= s.drop_last());
        assert(t.last());
        assert(!s.last());
    } else {
        assert(t.drop_last() =~= s.drop_last().update(i, true));
        assert(t.last() == s.last());
        lemma_count_true_update(s.drop_last(), i);
    }
}

proof fn lemma_count_true_missing(s: Seq<bool>, i: int)
    requires
        0 <= i < s.len(),
        !s[i],
    ensures
        spec_count_true(s) < s.len(),
    decreases s.len(),
{
    if i == s.len() - 1 {
        lemma_count_true_bounds(s.drop_last());
    } else {
        lemma_count_true_missing(s.drop_last(), i);
    }
}

/// A walk's cost is never negative.
proof fn lemma_route_cost_nonneg(nodes: Seq<Node>, route: Seq<int>, t: int)
    requires
        spec_route_costs(nodes, route, t),
    ensures
        t >= 0,
    decreases route.len(),
{
    if route.len() > 1 {
        let (j, t0) = choose|j: int, t0: int|
            #[trigger] spec_route_step(
                nodes,
                route[route.len() - 2],
                route[route.len() - 1],
                j,
                t0,
                t,
            ) && spec_route_costs(nodes, route.drop_last(), t0);
        lemma_route_cost_nonneg(nodes, route.drop_last(), t0);
    }
}

/// Every prefix of a walk is a walk, at a cost no greater.
proof fn lemma_route_prefix(nodes: Seq<Node>, route: Seq<int>, t: int, k: int)
    requires
        spec_route_costs(nodes, route, t),
        0 <= k < route.len(),
    ensures
        exists|c: int|
            0 <= c <= t && #[trigger] spec_route_costs(nodes, route.take(k + 1), c),
    decreases route.len(),
{
    lemma_route_cost_nonneg(nodes, route, t);
    if k == route.len() - 1 {
        assert(route.take(k + 1) =~= route);
    } else {
        let (j, t0) = choose|j: int, t0: int|
            #[trigger] spec_route_step(
                nodes,
                route[route.len() - 2],
                route[route.len() - 1],
                j,
                t0,
                t,
            ) && spec_route_costs(nodes, route.drop_last(), t0);
        assert(t0 <= t);
        assert(route.drop_last().take(k + 1) =~= route.take(k + 1));
        lemma_route_prefix(nodes, route.drop_last(), t0, k);
    }
}

/// A walk that starts inside a region of the settled table and ends outside
/// it crosses the boundary somewhere.
proof fn lemma_first_crossing(settled: Seq<bool>, route: Seq<int>, n: int)
    requires
        settled.len() == n,
        forall|i: int| 0 <= i < route.len() ==> 0 <= #[trigger] route[i] < n,
        route.len() >= 1,
        settled[route[0]],
        !settled[route.last()],
    ensures
        exists|k: int|
            0 <= k < route.len() - 1 && settled[#[trigger] route[k]] && !settled[route[k + 1]],
    decreases route.len(),
{
    if settled[route[1]] {
        let tail = route.drop_first();
        lemma_first_crossing(settled, tail, n);
        let k2 = choose|k: int|
            0 <= k < tail.len() - 1 && settled[#[trigger] tail[k]] && !settled[tail[k + 1]];
        assert(route[k2 + 1] == tail[k2]);
        assert(route[k2 + 2] == tail[k2 + 1]);
        assert(settled[route[k2 + 1]] && !settled[route[k2 + 1 + 1]]);
    }
}

/// Every node of a walk lies in the graph.
proof fn lemma_route_in_bounds(nodes: Seq<Node>, route: Seq<int>, t: int)
    requires
        spec_route_costs(nodes, route, t),
    ensures
        forall|i: int| 0 <= i < route.len() ==> 0 <= #[trigger] route[i] < nodes.len(),
    decreases route.len(),
{
    if route.len() > 1 {
        let (j, t0) = choose|j: int, t0: int|
            #[trigger] spec_route_step(
                nodes,
                route[route.len() - 2],
                route[route.len() - 1],
                j,
                t0,
                t,
            ) && spec_route_costs(nodes, route.drop_last(), t0);
        lemma_route_in_bounds(nodes, route.drop_last(), t0);
        assert forall|i: int| 0 <= i < route.len() implies 0 <= #[trigger] route[i]
            < nodes.len() by {
            if i < route.len() - 1 {
                assert(route[i] == route.drop_last()[i]);
            }
        }
    }
}

/// The frontier bound.  While every settled node's distance undercuts every
/// walk to it, and every edge out of a settled node has been relaxed
/// against its current distance, any walk from the start that ends outside
/// the settled region pins some unsettled node's distance under the walk's
/// whole cost.
proof fn lemma_route_bounds_frontier(
    nodes: Seq<Node>,
    settled: Seq<bool>,
    times: Seq<Option<usize>>,
    route: Seq<int>,
    t: int,
    from: usize,
)
    requires
        settled.len() == nodes.len(),
        times.len() == nodes.len(),
        spec_route_costs(nodes, route, t),
        route[0] == from as int,
        settled[route[0]],
        !settled[route.last()],
        forall|rt: Seq<int>, c: int|
            rt.len() >= 1 && rt[0] == from as int && 0 <= rt.last() < nodes.len() && settled[rt.last()]
                && #[trigger] spec_route_costs(nodes, rt, c) ==> ((times[rt.last()]->Some_0) as int)
                <= c,
        forall|v: int| 0 <= v < nodes.len() && settled[v] ==> (#[trigger] times[v]) is Some,
        forall|u: int, j: int|
            0 <= u < nodes.len() && settled[u] && 0 <= j < nodes[u].path_set@.len() ==> (times[((
            #[trigger] nodes[u].path_set@[j]).to) as int] matches Some(dv) && dv as int
                <= spec_add_time(
                spec_time(nodes[u].path_set@[j]),
                (times[u]->Some_0) as int,
            )),
    ensures
        exists|w: int|
            0 <= w < nodes.len() && !settled[w] && ((#[trigger] times[w]) matches Some(dw) && dw
                as int <= t),
{
    let n = nodes.len() as int;
    lemma_route_in_bounds(nodes, route, t);
    lemma_first_crossing(settled, route, n);
    let k = choose|k: int|
        0 <= k < route.len() - 1 && settled[#[trigger] route[k]] && !settled[route[k + 1]];
    lemma_route_prefix(nodes, route, t, k + 1);
    let c = choose|c: int| 0 <= c <= t && #[trigger] spec_route_costs(nodes, route.take(k + 2), c);
    let prefix = route.take(k + 2);
    assert(prefix[prefix.len() - 2] == route[k]);
    assert(prefix[prefix.len() - 1] == route[k + 1]);
    let (j, t0) = choose|j: int, t0: int|
        #[trigger] spec_route_step(
            nodes,
            prefix[prefix.len() - 2],
            prefix[prefix.len() - 1],
            j,
            t0,
            c,
        ) && spec_route_costs(nodes, prefix.drop_last(), t0);
    let w = route[k + 1];
    assert(prefix.drop_last() =~= route.take(k + 1));
    assert(prefix.drop_last()[0] == route[0]);
    assert(prefix.drop_last().last() == route[k]);
    assert(((times[route[k]]->Some_0) as int) <= t0);
    assert((times[w] matches Some(dw) && dw as int <= spec_add_time(
        spec_time(nodes[route[k]].path_set@[j]),
        (times[route[k]]->Some_0) as int,
    )));
    assert(spec_add_time(spec_time(nodes[route[k]].path_set@[j]), (times[route[k]]->Some_0) as int)
        <= spec_add_time(spec_time(nodes[route[k]].path_set@[j]), t0));
    assert(spec_add_time(spec_time(nodes[route[k]].path_set@[j]), t0) == c);
}
/// A usable graph: each node knows its own position, and every path leads
/// to a node of the graph.
pub open spec fn spec_graph_wf(nodes: Seq<Node>) -> bool {
    &&& forall|i: int| 0 <= i < nodes.len() ==> (#[trigger] nodes[i]).index == i
    &&& forall|i: int, j: int|
        0 <= i < nodes.len() && 0 <= j < nodes[i].path_set@.len() ==> (
        #[trigger] nodes[i].path_set@[j]).to < nodes.len()
}

/// Walks the predecessor table back from the target and reverses the walk.
/// An empty result means the target was never reached; a non-empty result
/// runs from the start node to the target.
fn get_shortest_path(from: usize, to: usize, shortest_path: &Vec<Option<usize>>) -> (r: Vec<usize>)
    requires
        from < shortest_path@.len(),
        to < shortest_path@.len(),
        forall|i: int|
            0 <= i < shortest_path@.len() ==> ((#[trigger] shortest_path@[i]) matches Some(v)
                ==> v < shortest_path@.len()),
    ensures
        shortest_path@[to as int] is None ==> r@.len() == 0,
        r@.len() > 0 ==> r@[0] == from && r@[r@.len() - 1] == to,
        forall|i: int| 0 <= i < r@.len() ==> (#[trigger] r@[i]) < shortest_path@.len(),
        forall|i: int|
            0 <= i < r@.len() - 1 ==> shortest_path@[(#[trigger] r@[i + 1]) as int] == Some(
                r@[i],
            ),
{
    let mut result: Vec<usize> = Vec::new();
    let mut current: usize = match shortest_path[to] {
        Some(v) => v,
        None => {
            return Vec::new();
        },
    };
    result.push(to);
    // The predecessor chain of a completed search leads back to the start;
    // a bounded walk keeps a malformed table from walking for ever.  The
    // walk is recorded target-first; each recorded entry's predecessor is
    // the entry after it.
    let mut fuel: usize = shortest_path.len();
    loop
        invariant
            current < shortest_path@.len(),
            from < shortest_path@.len(),
            to < shortest_path@.len(),
            shortest_path@[to as int] is Some,
            result@.len() >= 1,
            result@[0] == to,
            forall|p: int| 0 <= p < result@.len() ==> (#[trigger] result@[p]) < shortest_path@.len(),
            forall|p: int|
                0 <= p < result@.len() - 1 ==> shortest_path@[(#[trigger] result@[p]) as int]
                    == Some(result@[p + 1]),
            shortest_path@[result@[result@.len() - 1] as int] == Some(current),
            forall|i: int|
                0 <= i < shortest_path@.len() ==> ((#[trigger] shortest_path@[i]) matches Some(v)
                    ==> v < shortest_path@.len()),
        decreases fuel,
    {
        if fuel == 0 {
            return Vec::new();
        }
        fuel = fuel - 1;
        result.push(current);
        current = match shortest_path[current] {
            Some(v) => v,
            None => {
                return Vec::new();
            },
        };
        if current == from {
            result.push(from);
            let ghost walk = result@;
            proof {
                assert(walk[walk.len() - 1] == from);
                assert(shortest_path@[walk[walk.len() - 2] as int] == Some(from));
            }
            let mut reversed: Vec<usize> = Vec::new();
            let mut k: usize = result.len();
            while k > 0
                invariant
                    k <= result@.len(),
                    result@ == walk,
                    reversed@.len() == walk.len() - k,
                    forall|idx: int|
                        0 <= idx < reversed@.len() ==> (#[trigger] reversed@[idx]) == walk[walk.len()
                            - 1 - idx],
                decreases k,
            {
                k = k - 1;
                reversed.push(result[k]);
            }
            proof {
                assert forall|i: int|
                    0 <= i < reversed@.len() - 1 implies shortest_path@[(
                #[trigger] reversed@[i + 1]) as int] == Some(reversed@[i]) by {
                    let p = walk.len() - 2 - i;
                    assert(reversed@[i + 1] == walk[p]);
                    assert(reversed@[i] == walk[p + 1]);
                }
            }
            return reversed;
        }
    }
}

/// The search itself: settles the cheapest unsettled reachable node until
/// the target is settled or nothing reachable remains, then reads the
/// target's cost and predecessor walk out of its tables.
///
/// The contract states soundness and completeness of the answer — a
/// reported time is the cost of an actual walk; no answer means no walk
/// exists, unless some node's distance saturated at the machine limit —
/// and the shape of the reported route: it runs from the start to the
/// target along the graph's own paths.
pub fn find_shortest_path(nodes: Vec<Node>, from: usize, to: usize) -> (r: (
    Option<usize>,
    Vec<usize>,
))
    requires
        from < nodes@.len(),
        to < nodes@.len(),
        spec_graph_wf(nodes@),
    ensures
        r.1@.len() > 0 ==> r.1@[0] == from && r.1@[r.1@.len() - 1] == to,
        r.1@.len() > 0 ==> forall|i: int|
            0 <= i < r.1@.len() - 1 ==> ((#[trigger] r.1@[i + 1]) == from || spec_has_edge(
                nodes@,
                r.1@[i] as int,
                r.1@[i + 1] as int,
            )),
        r.0 is None ==> r.1@.len() == 0,
        r.0 is None ==> forall|t: int|
            #[trigger] spec_reaches(nodes@, from as int, to as int, t) ==> t >= usize::MAX,
        from == to ==> r.0 == Some(0usize),
        r.0 matches Some(t) ==> spec_reaches(nodes@, from as int, to as int, t as int),
        r.0 matches Some(t) ==> forall|t2: int|
            #[trigger] spec_reaches(nodes@, from as int, to as int, t2) ==> t as int <= t2,
{
    let n = nodes.len();
    let mut shortest_time: Vec<Option<usize>> = Vec::new();
    let mut shortest_path: Vec<Option<usize>> = Vec::new();
    let mut shortest_set: Vec<bool> = Vec::new();
    let mut i: usize = 0;
    while i < n
        invariant
            i <= n,
            shortest_time@.len() == i,
            shortest_path@.len() == i,
            shortest_set@.len() == i,
            spec_count_true(shortest_set@) == 0,
            forall|j: int| 0 <= j < i ==> (#[trigger] shortest_time@[j]) is None,
            forall|j: int| 0 <= j < i ==> (#[trigger] shortest_path@[j]) is None,
            forall|j: int| 0 <= j < i ==> !(#[trigger] shortest_set@[j]),
        decreases n - i,
    {
        let ghost prev_set = shortest_set@;
        shortest_time.push(None);
        shortest_path.push(None);
        shortest_set.push(false);
        proof {
            assert(shortest_set@.drop_last() =~= prev_set);
        }
        i = i + 1;
    }
    let ghost blank_set = shortest_set@;
    shortest_time[from] = Some(0usize);
    shortest_path[from] = Some(from);
    shortest_set[from] = true;
    let mut current: usize = from;
    proof {
        let start = seq![from as int];
        assert(spec_route_costs(nodes@, start, 0));
        assert(spec_reaches(nodes@, from as int, from as int, 0));
        lemma_count_true_update(blank_set, from as int);
        assert forall|v: int| 0 <= v < n && shortest_set@[v] implies v == from as int by {
            if v != from as int {
                assert(shortest_set@[v] == blank_set[v]);
            }
        }
        assert forall|v: int|
            0 <= v < n && v != from as int implies (#[trigger] shortest_path@[v]) is None by {}
        assert forall|rt: Seq<int>, c: int|
            rt.len() >= 1 && rt[0] == from as int && 0 <= rt.last() < n && shortest_set@[rt.last()]
                && #[trigger] spec_route_costs(nodes@, rt, c) implies ((
        shortest_time@[rt.last()]->Some_0) as int) <= c by {
            lemma_route_cost_nonneg(nodes@, rt, c);
            assert(rt.last() == from as int);
        }
    }

    let mut fuel: usize = n;
    loop
        invariant
            n == nodes@.len(),
            from < n,
            to < n,
            spec_graph_wf(nodes@),
            shortest_time@.len() == n,
            shortest_path@.len() == n,
            shortest_set@.len() == n,
            current < n,
            shortest_time@[current as int] is Some,
            shortest_time@[from as int] == Some(0usize),
            forall|j: int|
                0 <= j < n ==> ((#[trigger] shortest_time@[j]) is Some <==> shortest_path@[j]
                    is Some),
            forall|j: int|
                0 <= j < n ==> ((#[trigger] shortest_path@[j]) matches Some(v) ==> v < n),
            forall|i2: int|
                0 <= i2 < n ==> ((#[trigger] shortest_time@[i2]) matches Some(t) ==> spec_reaches(
                    nodes@,
                    from as int,
                    i2,
                    t as int,
                )),
            shortest_set@[from as int],
            shortest_set@[current as int],
            spec_count_true(shortest_set@) + fuel >= n,
            forall|v: int|
                0 <= v < n && shortest_set@[v] ==> (#[trigger] shortest_time@[v]) is Some,
            forall|v: int|
                0 <= v < n ==> ((#[trigger] shortest_path@[v]) matches Some(u) ==> ((v == from && u
                    == from) || spec_has_edge(nodes@, u as int, v))),
            forall|u: int, j2: int|
                0 <= u < n && shortest_set@[u] && u != current && 0 <= j2
                    < nodes@[u].path_set@.len() ==> ((shortest_time@[((
                #[trigger] nodes@[u].path_set@[j2]).to) as int]) matches Some(dv) && dv as int
                    <= spec_add_time(
                    spec_time(nodes@[u].path_set@[j2]),
                    (shortest_time@[u]->Some_0) as int,
                )),
            forall|rt: Seq<int>, c: int|
                rt.len() >= 1 && rt[0] == from as int && 0 <= rt.last() < n && shortest_set@[rt.last()]
                    && #[trigger] spec_route_costs(nodes@, rt, c) ==> ((
                shortest_time@[rt.last()]->Some_0) as int) <= c,
        decreases fuel,
    {
        // Relax every path leaving the node settled last.
        let ghost dist_current = shortest_time@[current as int];
        let mut j: usize = 0;
        while j < nodes[current].path_set.len()
            invariant
                n == nodes@.len(),
                from < n,
                spec_graph_wf(nodes@),
                current < n,
                j <= nodes@[current as int].path_set@.len(),
                shortest_time@.len() == n,
                shortest_path@.len() == n,
                shortest_set@.len() == n,
                shortest_time@[from as int] == Some(0usize),
                shortest_time@[current as int] is Some,
                forall|k: int|
                    0 <= k < n ==> ((#[trigger] shortest_time@[k]) is Some <==> shortest_path@[k]
                        is Some),
                forall|k: int|
                    0 <= k < n ==> ((#[trigger] shortest_path@[k]) matches Some(v) ==> v < n),
                forall|i2: int|
                    0 <= i2 < n ==> ((#[trigger] shortest_time@[i2]) matches Some(t)
                        ==> spec_reaches(nodes@, from as int, i2, t as int)),
                forall|v: int|
                    0 <= v < n && shortest_set@[v] ==> (#[trigger] shortest_time@[v]) is Some,
                forall|v: int|
                    0 <= v < n ==> ((#[trigger] shortest_path@[v]) matches Some(u) ==> ((v == from
                        && u == from) || spec_has_edge(nodes@, u as int, v))),
                shortest_set@[from as int],
                shortest_set@[current as int],
                shortest_time@[current as int] == dist_current,
                forall|u: int, j2: int|
                    0 <= u < n && shortest_set@[u] && u != current && 0 <= j2
                        < nodes@[u].path_set@.len() ==> ((shortest_time@[((
                    #[trigger] nodes@[u].path_set@[j2]).to) as int]) matches Some(dv) && dv as int
                        <= spec_add_time(
                        spec_time(nodes@[u].path_set@[j2]),
                        (shortest_time@[u]->Some_0) as int,
                    )),
                forall|j2: int|
                    0 <= j2 < j ==> ((shortest_time@[((
                    #[trigger] nodes@[current as int].path_set@[j2]).to) as int]) matches Some(dv)
                        && dv as int <= spec_add_time(
                        spec_time(nodes@[current as int].path_set@[j2]),
                        (shortest_time@[current as int]->Some_0) as int,
                    )),
                forall|rt: Seq<int>, c: int|
                    rt.len() >= 1 && rt[0] == from as int && 0 <= rt.last() < n
                        && shortest_set@[rt.last()] && #[trigger] spec_route_costs(nodes@, rt, c)
                        ==> ((shortest_time@[rt.last()]->Some_0) as int) <= c,
            decreases nodes@[current as int].path_set@.len() - j,
        {
            let path = nodes[current].path_set[j];
            let base = match shortest_time[current] {
                Some(t) => t,
                None => unreached(),
            };
            let new_time = path.time().saturating_add(base);
            let update = match shortest_time[path.to] {
                None => true,
                Some(t) => new_time < t,
            };
            if update {
                proof {
                    // Some walk reaches the settled node at its recorded
                    // cost; this path extends it to the relaxed node.
                    let walk = choose|route: Seq<int>|
                        route.len() >= 1 && route[0] == from as int && route.last()
                            == current as int && spec_route_costs(nodes@, route, base as int);
                    lemma_route_extend(nodes@, walk, base as int, current as int, j as int);
                    let extended = walk.push(path.to as int);
                    assert(extended[0] == from as int);
                    assert(extended.last() == path.to as int);
                    assert(new_time as int == spec_add_time(spec_time(path), base as int));
                    assert(spec_reaches(nodes@, from as int, path.to as int, new_time as int));
                    // A settled node's recorded time undercuts this walk's
                    // cost, so only an unsettled node can be improved on.
                    if shortest_set@[path.to as int] {
                        assert(spec_route_costs(nodes@, extended, new_time as int));
                        assert(((shortest_time@[path.to as int]->Some_0) as int) <= new_time);
                        assert(false);
                    }
                }
                let ghost prev = shortest_time@;
                let ghost prev_path = shortest_path@;
                shortest_time[path.to] = Some(new_time);
                shortest_path[path.to] = Some(current);
                proof {
                    assert forall|i2: int|
                        0 <= i2 < n implies ((#[trigger] shortest_time@[i2]) matches Some(t)
                        ==> spec_reaches(nodes@, from as int, i2, t as int)) by {
                        if i2 != path.to as int {
                            assert(shortest_time@[i2] == prev[i2]);
                        }
                    }
                    assert((nodes@[current as int].path_set@[j as int]).to == path.to);
                    assert(spec_has_edge(nodes@, current as int, path.to as int));
                    assert forall|v: int|
                        0 <= v < n implies ((#[trigger] shortest_path@[v]) matches Some(u) ==> ((v
                        == from && u == from) || spec_has_edge(nodes@, u as int, v))) by {
                        if v != path.to as int {
                            assert(shortest_path@[v] == prev_path[v]);
                        }
                    }
                    assert forall|v: int|
                        0 <= v < n && shortest_set@[v] implies (#[trigger] shortest_time@[v])
                        is Some by {
                        if v != path.to as int {
                            assert(shortest_time@[v] == prev[v]);
                        }
                    }
                    assert forall|u: int, j2: int|
                        0 <= u < n && shortest_set@[u] && u != current && 0 <= j2
                            < nodes@[u].path_set@.len() implies ((shortest_time@[((
                    #[trigger] nodes@[u].path_set@[j2]).to) as int]) matches Some(dv) && dv as int
                        <= spec_add_time(
                        spec_time(nodes@[u].path_set@[j2]),
                        (shortest_time@[u]->Some_0) as int,
                    )) by {
                        let w = (nodes@[u].path_set@[j2]).to as int;
                        assert(shortest_time@[u] == prev[u]);
                        if w != path.to as int {
                            assert(shortest_time@[w] == prev[w]);
                        }
                    }
                    assert forall|j2: int|
                        0 <= j2 < j + 1 implies ((shortest_time@[((
                    #[trigger] nodes@[current as int].path_set@[j2]).to) as int]) matches Some(dv)
                        && dv as int <= spec_add_time(
                        spec_time(nodes@[current as int].path_set@[j2]),
                        (shortest_time@[current as int]->Some_0) as int,
                    )) by {
                        let w = (nodes@[current as int].path_set@[j2]).to as int;
                        assert(shortest_time@[current as int] == prev[current as int]);
                        if w != path.to as int {
                            assert(shortest_time@[w] == prev[w]);
                        } else {
                            assert(shortest_time@[w] == Some(new_time));
                        }
                    }
                    assert forall|rt: Seq<int>, c: int|
                        rt.len() >= 1 && rt[0] == from as int && 0 <= rt.last() < n
                            && shortest_set@[rt.last()] && #[trigger] spec_route_costs(
                        nodes@,
                        rt,
                        c,
                    ) implies ((shortest_time@[rt.last()]->Some_0) as int) <= c by {
                        assert(rt.last() != path.to as int);
                        assert(shortest_time@[rt.last()] == prev[rt.last()]);
                    }
                }
            }
            j = j + 1;
        }
        proof {
            // Every settled node, the one relaxed just now included, sends
            // each of its paths to a node whose recorded time undercuts the
            // relaxed bound.
            assert forall|u: int, j2: int|
                0 <= u < n && shortest_set@[u] && 0 <= j2 < nodes@[u].path_set@.len() implies ((
            shortest_time@[((#[trigger] nodes@[u].path_set@[j2]).to) as int]) matches Some(dv)
                && dv as int <= spec_add_time(
                spec_time(nodes@[u].path_set@[j2]),
                (shortest_time@[u]->Some_0) as int,
            )) by {}
        }
        // Pick the cheapest unsettled node that the search has reached.
        let mut min_index: usize = 0;
        let mut min_time: usize = usize::MAX;
        let mut found = false;
        let mut set_num: usize = 0;
        let mut k: usize = 0;
        while k < n
            invariant
                n == nodes@.len(),
                k <= n,
                shortest_time@.len() == n,
                shortest_set@.len() == n,
                set_num <= k,
                found ==> min_index < n && shortest_time@[min_index as int] == Some(min_time)
                    && !shortest_set@[min_index as int],
                forall|v: int|
                    0 <= v < k && !shortest_set@[v] ==> ((#[trigger] shortest_time@[v]) matches
                        Some(d) ==> min_time <= d),
                !found ==> min_time == usize::MAX,
                !found ==> forall|v: int|
                    0 <= v < k ==> (shortest_set@[v] || (#[trigger] shortest_time@[v]) is None
                        || shortest_time@[v] == Some(usize::MAX)),
                set_num == 0 ==> forall|v: int| 0 <= v < k ==> (#[trigger] shortest_set@[v]),
            decreases n - k,
        {
            if !shortest_set[k] {
                set_num = set_num + 1;
            }
            if !shortest_set[k] {
                match shortest_time[k] {
                    Some(t) => {
                        if t < min_time {
                            min_time = t;
                            min_index = k;
                            found = true;
                        }
                    },
                    None => {},
                }
            }
            k = k + 1;
        }
        if set_num == 0 || !found {
            // Everything is settled, or nothing reachable remains
            // unsettled: the tables are final.
            proof {
                if shortest_time@[to as int] is Some {
                    let d = shortest_time@[to as int]->Some_0;
                    // The answer is minimal: a settled target undercuts
                    // every walk directly; an unsettled one sits at the
                    // saturated limit, which no walk's cost can undercut
                    // either, since such a walk would pin a frontier node
                    // below the limit and the selection saw none.
                    assert forall|t2: int|
                        #[trigger] spec_reaches(nodes@, from as int, to as int, t2) implies
                        d as int <= t2 by {
                        let route = choose|route: Seq<int>|
                            route.len() >= 1 && route[0] == from as int && route.last()
                                == to as int && #[trigger] spec_route_costs(nodes@, route, t2);
                        if !shortest_set@[to as int] {
                            assert(set_num != 0);
                            assert(!found);
                            assert(d == usize::MAX);
                            lemma_route_bounds_frontier(
                                nodes@,
                                shortest_set@,
                                shortest_time@,
                                route,
                                t2,
                                from,
                            );
                            let w = choose|w: int|
                                0 <= w < nodes@.len() && !shortest_set@[w] && ((
                                #[trigger] shortest_time@[w]) matches Some(dw) && dw as int <= t2);
                            assert(shortest_time@[w]->Some_0 == usize::MAX);
                        }
                    }
                }
                if set_num == 0 {
                    assert(shortest_set@[to as int]);
                } else if shortest_time@[to as int] is None {
                    // An unanswered target is beyond the frontier, whose
                    // every node saturated: any walk to the target would
                    // pin a frontier node below the limit.
                    assert forall|t: int|
                        #[trigger] spec_reaches(nodes@, from as int, to as int, t) implies t
                        >= usize::MAX by {
                        let route = choose|route: Seq<int>|
                            route.len() >= 1 && route[0] == from as int && route.last()
                                == to as int && #[trigger] spec_route_costs(nodes@, route, t);
                        assert(!shortest_set@[to as int]);
                        lemma_route_bounds_frontier(
                            nodes@,
                            shortest_set@,
                            shortest_time@,
                            route,
                            t,
                            from,
                        );
                        let w = choose|w: int|
                            0 <= w < nodes@.len() && !shortest_set@[w] && ((
                            #[trigger] shortest_time@[w]) matches Some(dw) && dw as int <= t);
                        assert(shortest_time@[w]->Some_0 == usize::MAX);
                    }
                }
            }
            let answer = shortest_time[to];
            let walk = get_shortest_path(from, to, &shortest_path);
            proof {
                lemma_walk_edges(nodes@, shortest_path@, walk@, from, n as int);
            }
            return (answer, walk);
        }
        let ghost prev_set = shortest_set@;
        current = min_index;
        shortest_set[min_index] = true;
        proof {
            lemma_count_true_update(prev_set, min_index as int);
            // The node settled just now carries a minimal distance: any
            // walk to it crosses the old frontier at a node whose recorded
            // distance the selection could not beat.
            assert forall|rt: Seq<int>, c: int|
                rt.len() >= 1 && rt[0] == from as int && 0 <= rt.last() < n
                    && shortest_set@[rt.last()] && #[trigger] spec_route_costs(nodes@, rt, c)
                implies ((shortest_time@[rt.last()]->Some_0) as int) <= c by {
                if rt.last() == min_index as int {
                    lemma_route_bounds_frontier(nodes@, prev_set, shortest_time@, rt, c, from);
                    let w = choose|w: int|
                        0 <= w < nodes@.len() && !prev_set[w] && ((#[trigger] shortest_time@[w])
                            matches Some(dw) && dw as int <= c);
                    assert(min_time <= shortest_time@[w]->Some_0);
                } else {
                    assert(shortest_set@[rt.last()] == prev_set[rt.last()]);
                }
            }
        }
        if nodes[current].index == to {
            proof {
                assert forall|t2: int|
                    #[trigger] spec_reaches(nodes@, from as int, to as int, t2) implies
                    min_time as int <= t2 by {
                    let route = choose|route: Seq<int>|
                        route.len() >= 1 && route[0] == from as int && route.last() == to as int
                            && #[trigger] spec_route_costs(nodes@, route, t2);
                }
            }
            let answer = shortest_time[to];
            let walk = get_shortest_path(from, to, &shortest_path);
            proof {
                lemma_walk_edges(nodes@, shortest_path@, walk@, from, n as int);
            }
            return (answer, walk);
        }
        proof {
            lemma_count_true_missing(prev_set, min_index as int);
        }
        fuel = fuel - 1;
    }
}

/// Lifts the predecessor-chain shape of a reported walk to the graph: each
/// step of the walk follows one of the graph's own paths, except where the
/// chain's self-entry for the start node duplicates it.
proof fn lemma_walk_edges(
    nodes: Seq<Node>,
    preds: Seq<Option<usize>>,
    walk: Seq<usize>,
    from: usize,
    n: int,
)
    requires
        n == nodes.len(),
        preds.len() == n,
        forall|i: int| 0 <= i < walk.len() ==> (#[trigger] walk[i]) < n,
        forall|i: int|
            0 <= i < walk.len() - 1 ==> preds[(#[trigger] walk[i + 1]) as int] == Some(walk[i]),
        forall|v: int|
            0 <= v < n ==> ((#[trigger] preds[v]) matches Some(u) ==> ((v == from && u == from)
                || spec_has_edge(nodes, u as int, v))),
    ensures
        forall|i: int|
            0 <= i < walk.len() - 1 ==> ((#[trigger] walk[i + 1]) == from || spec_has_edge(
                nodes,
                walk[i] as int,
                walk[i + 1] as int,
            )),
{
    assert forall|i: int|
        0 <= i < walk.len() - 1 implies ((#[trigger] walk[i + 1]) == from || spec_has_edge(
        nodes,
        walk[i] as int,
        walk[i + 1] as int,
    )) by {
        assert(preds[walk[i + 1] as int] == Some(walk[i]));
    }
}

} // verus!
