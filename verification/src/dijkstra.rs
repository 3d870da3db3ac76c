//! Shortest paths in graphs whose edges have weights.

use crate::expr::{copy_names, same_text, texts};
use crate::graph::{
    all_among, contains_name, lemma_among_more, lemma_distinct_within, lemma_unseen, unseen,
};
use vstd::pervasive::VecAdditionalExecFns;
use vstd::prelude::*;
use vstd::string::StringExecFns;

verus! {

/// A directed graph with weighted edges: for each node that has an entry,
/// the nodes that its edges lead to, each with the weight of the edge. A
/// later entry for a node replaces an earlier one. A node without an entry
/// has no edges.
pub struct WeightedGraph {
    pub entries: Vec<(String, Vec<(String, i32)>)>,
}

/// An edge as seen from its start: where it leads, and its weight.
pub type Arc = (Seq<char>, int);

/// The graph as a mapping from the name of a node to its edges.
pub type WeightedModel = Map<Seq<char>, Seq<Arc>>;

/// The edges of a list, by the names of the nodes that they lead to.
pub open spec fn arcs_of(list: Seq<(String, i32)>) -> Seq<Arc> {
    list.map_values(|a: (String, i32)| (a.0@, a.1 as int))
}

/// The mapping that the first `n` entries make.
pub open spec fn weighted_adjacency(entries: Seq<(String, Vec<(String, i32)>)>, n: nat) -> WeightedModel
    decreases n,
{
    if n == 0 || n > entries.len() {
        Map::empty()
    } else {
        weighted_adjacency(entries, (n - 1) as nat).insert(
            entries[n - 1].0@,
            arcs_of(entries[n - 1].1@),
        )
    }
}

impl View for WeightedGraph {
    type V = WeightedModel;

    open spec fn view(&self) -> WeightedModel {
        weighted_adjacency(self.entries@, self.entries@.len())
    }
}

/// The edges that start at `node`.
pub open spec fn arcs(g: WeightedModel, node: Seq<char>) -> Seq<Arc> {
    if g.dom().contains(node) {
        g[node]
    } else {
        Seq::empty()
    }
}

/// The names that the first `n` entries list as targets of edges.
pub open spec fn targets(entries: Seq<(String, Vec<(String, i32)>)>, n: nat) -> Seq<Seq<char>>
    decreases n,
{
    if n == 0 || n > entries.len() {
        Seq::empty()
    } else {
        targets(entries, (n - 1) as nat) + arcs_of(entries[n - 1].1@).map_values(|a: Arc| a.0)
    }
}

/// A way through the graph from a node that is given apart: the edges
/// taken, each by the node that it leads to and its weight.
pub type Route = Seq<Arc>;

/// The node at which the first `n` edges of a route from `from` end.
pub open spec fn stop(from: Seq<char>, route: Route, n: int) -> Seq<char> {
    if n <= 0 || n > route.len() {
        from
    } else {
        route[n - 1].0
    }
}

/// Whether each edge of the route is an edge of the graph from the node at
/// which the edges before it end.
pub open spec fn is_route(g: WeightedModel, from: Seq<char>, route: Route) -> bool {
    forall|i: int|
        0 <= i < route.len() ==> arcs(g, stop(from, route, i)).contains(#[trigger] route[i])
}

/// The sum of the weights of the first `n` edges of a route.
pub open spec fn total(route: Route, n: nat) -> int
    decreases n,
{
    if n == 0 || n > route.len() {
        0
    } else {
        total(route, (n - 1) as nat) + route[n - 1].1
    }
}

/// The nodes of a route from `from`, `from` first.
pub open spec fn nodes(from: Seq<char>, route: Route) -> Seq<Seq<char>> {
    seq![from] + route.map_values(|a: Arc| a.0)
}

/// Whether the route leads from `from` to `to` through the graph.
pub open spec fn leads(g: WeightedModel, from: Seq<char>, route: Route, to: Seq<char>) -> bool {
    is_route(g, from, route) && stop(from, route, route.len() as int) == to
}

/// Whether no edge has a negative weight.
pub open spec fn non_negative(g: WeightedModel) -> bool {
    forall|node: Seq<char>, k: int| 0 <= k < arcs(g, node).len() ==> (#[trigger] arcs(g, node)[k]).1 >= 0
}

/// The largest weight, in either direction, with which no sum of weights
/// along a path without repeated nodes leaves the range of costs.
pub open spec fn weight_cap(entries: Seq<(String, Vec<(String, i32)>)>) -> int {
    (i32::MAX - 1) / ((targets(entries, entries.len()).len() + 1) as int)
}

/// Whether every weight that the entries list keeps within the cap.
pub open spec fn weights_fit(entries: Seq<(String, Vec<(String, i32)>)>) -> bool {
    forall|i: int, k: int|
        0 <= i < entries.len() && 0 <= k < entries[i].1@.len() ==> -weight_cap(entries) <= (
        #[trigger] entries[i].1@[k]).1 <= weight_cap(entries)
}

/// The names of the nodes that the edges of a list lead to.
pub open spec fn targets_of(list: Seq<Arc>) -> Seq<Seq<char>> {
    list.map_values(|a: Arc| a.0)
}

/// The edges of a node are those of one of the entries, if it has any.
pub proof fn lemma_arcs_listed(
    entries: Seq<(String, Vec<(String, i32)>)>,
    n: nat,
    node: Seq<char>,
)
    requires
        n <= entries.len(),
    ensures
        weighted_adjacency(entries, n).dom().contains(node) <==> exists|i: int|
            0 <= i < n && #[trigger] entries[i].0@ == node,
        forall|i: int|
            0 <= i < n && #[trigger] entries[i].0@ == node && (forall|j: int|
                i < j < n ==> #[trigger] entries[j].0@ != node) ==> weighted_adjacency(
                entries,
                n,
            )[node] == arcs_of(entries[i].1@),
        arcs(weighted_adjacency(entries, n), node).len() > 0 ==> exists|i: int|
            0 <= i < n && arcs(weighted_adjacency(entries, n), node) == arcs_of(
                (#[trigger] entries[i]).1@,
            ),
    decreases n,
{
    if n > 0 {
        lemma_arcs_listed(entries, (n - 1) as nat, node);
        if entries[n - 1].0@ != node {
            assert forall|i: int|
                0 <= i < n && #[trigger] entries[i].0@ == node && (forall|j: int|
                    i < j < n ==> #[trigger] entries[j].0@ != node) implies weighted_adjacency(
                entries,
                n,
            )[node] == arcs_of(entries[i].1@) by {
                assert(i < n - 1);
            }
            let before = weighted_adjacency(entries, (n - 1) as nat);
            assert(arcs(weighted_adjacency(entries, n), node) == arcs(before, node));
            if arcs(before, node).len() > 0 {
                let i = choose|i: int|
                    0 <= i < n - 1 && arcs(before, node) == arcs_of((#[trigger] entries[i]).1@);
                assert(0 <= i < n && arcs(weighted_adjacency(entries, n), node) == arcs_of(
                    entries[i].1@,
                ));
            }
        } else {
            assert(arcs(weighted_adjacency(entries, n), node) == arcs_of(entries[n - 1].1@));
        }
    }
}

/// The nodes that the edges of an entry lead to are among the targets.
pub proof fn lemma_targets_hold(entries: Seq<(String, Vec<(String, i32)>)>, n: nat, i: int)
    requires
        0 <= i < n <= entries.len(),
    ensures
        all_among(targets_of(arcs_of(entries[i].1@)), targets(entries, n)),
    decreases n,
{
    let before = targets(entries, (n - 1) as nat);
    let last = targets_of(arcs_of(entries[n - 1].1@));
    assert(targets(entries, n) == before + last);
    if i < n - 1 {
        lemma_targets_hold(entries, (n - 1) as nat, i);
        lemma_among_more(targets_of(arcs_of(entries[i].1@)), before, last);
    } else {
        lemma_among_more(Seq::empty(), before, last);
    }
}

/// Every edge of the graph leads to one of the targets, and where the
/// weights of the entries keep within the cap, so does its weight.
pub proof fn lemma_arc_known(
    entries: Seq<(String, Vec<(String, i32)>)>,
    node: Seq<char>,
    k: int,
)
    requires
        0 <= k < arcs(weighted_adjacency(entries, entries.len()), node).len(),
    ensures
        targets(entries, entries.len()).contains(
            arcs(weighted_adjacency(entries, entries.len()), node)[k].0,
        ),
        weights_fit(entries) ==> -weight_cap(entries) <= arcs(
            weighted_adjacency(entries, entries.len()),
            node,
        )[k].1 <= weight_cap(entries),
{
    let g = weighted_adjacency(entries, entries.len());
    lemma_arcs_listed(entries, entries.len(), node);
    let i = choose|i: int|
        0 <= i < entries.len() && arcs(g, node) == arcs_of((#[trigger] entries[i]).1@);
    lemma_targets_hold(entries, entries.len(), i);
    let names = targets_of(arcs_of(entries[i].1@));
    assert(names[k] == arcs(g, node)[k].0);
    assert(targets(entries, entries.len()).contains(names[k]));
    if weights_fit(entries) {
        assert(arcs(g, node)[k].1 == entries[i].1@[k].1);
    }
}

/// Two lists of entries that agree on their first `n` entries make the
/// same mapping from them.
pub proof fn lemma_weighted_prefix(
    a: Seq<(String, Vec<(String, i32)>)>,
    b: Seq<(String, Vec<(String, i32)>)>,
    n: nat,
)
    requires
        n <= a.len(),
        n <= b.len(),
        forall|i: int| 0 <= i < n ==> a[i] == b[i],
    ensures
        weighted_adjacency(a, n) == weighted_adjacency(b, n),
    decreases n,
{
    if n > 0 {
        lemma_weighted_prefix(a, b, (n - 1) as nat);
    }
}

impl WeightedGraph {
    /// The graph without nodes.
    pub fn new() -> (g: WeightedGraph)
        ensures
            g@ == Map::<Seq<char>, Seq<Arc>>::empty(),
            g.entries@.len() == 0,
    {
        WeightedGraph { entries: Vec::new() }
    }

    /// Gives `node` the edges `edges`, in place of those that it had.
    pub fn insert(&mut self, node: String, edges: Vec<(String, i32)>)
        ensures
            final(self)@ == old(self)@.insert(node@, arcs_of(edges@)),
            final(self).entries@ == old(self).entries@.push((node, edges)),
    {
        let ghost before = self.entries@;
        self.entries.push((node, edges));
        proof {
            lemma_weighted_prefix(before, self.entries@, before.len());
        }
    }

    /// The edges that start at `node`, if the node has an entry.
    pub fn get(&self, node: &str) -> (r: Option<&Vec<(String, i32)>>)
        ensures
            match r {
                Some(list) => self@.dom().contains(node@) && self@[node@] == arcs_of(list@),
                None => !self@.dom().contains(node@),
            },
    {
        let mut i: usize = self.entries.len();
        while i > 0
            invariant
                i <= self.entries.len(),
                forall|j: int| i <= j < self.entries.len() ==> #[trigger] self.entries@[j].0@ != node@,
            decreases i,
        {
            i -= 1;
            if same_text(self.entries[i].0.as_str(), node) {
                proof {
                    lemma_arcs_listed(self.entries@, self.entries@.len(), node@);
                }
                return Some(&self.entries[i].1);
            }
        }
        proof {
            lemma_arcs_listed(self.entries@, self.entries@.len(), node@);
        }
        None
    }
}

/// How many targets the first `n` entries list.
pub proof fn lemma_targets_len(entries: Seq<(String, Vec<(String, i32)>)>, n: nat)
    requires
        n <= entries.len(),
    ensures
        n > 0 ==> targets(entries, n).len() == targets(entries, (n - 1) as nat).len() + entries[n
            - 1].1@.len(),
        targets(entries, 0).len() == 0,
{
}

impl WeightedGraph {
    /// Whether every weight keeps within the cap, as the searches for
    /// shortest paths ask.
    pub fn weights_in_range(&self) -> (r: bool)
        ensures
            r == weights_fit(self.entries@),
    {
        let ghost entries = self.entries@;
        let limit: u64 = 2147483646;
        let mut count: u64 = 0;
        let mut i: usize = 0;
        while i < self.entries.len()
            invariant
                entries == self.entries@,
                i <= self.entries.len(),
                limit == 2147483646,
                count <= limit,
                count < limit ==> count == targets(entries, i as nat).len(),
                count == limit ==> targets(entries, i as nat).len() >= limit,
            decreases self.entries.len() - i,
        {
            proof {
                lemma_targets_len(entries, (i + 1) as nat);
            }
            let more = self.entries[i].1.len();
            if more as u64 >= limit - count {
                count = limit;
            } else {
                count = count + more as u64;
            }
            i += 1;
        }
        let cap: i32 = if count >= limit {
            0
        } else {
            (limit / (count + 1)) as i32
        };
        proof {
            let n = (targets(entries, entries.len()).len() + 1) as int;
            if count >= limit {
                vstd::arithmetic::div_mod::lemma_basic_div(i32::MAX - 1, n);
            }
            assert(cap == weight_cap(entries));
        }
        let mut i: usize = 0;
        while i < self.entries.len()
            invariant
                entries == self.entries@,
                i <= self.entries.len(),
                0 <= cap,
                cap == weight_cap(entries),
                forall|a: int, k: int|
                    0 <= a < i && 0 <= k < entries[a].1@.len() ==> -cap <= (
                    #[trigger] entries[a].1@[k]).1 <= cap,
            decreases self.entries.len() - i,
        {
            let list = &self.entries[i].1;
            let mut k: usize = 0;
            while k < list.len()
                invariant
                    entries == self.entries@,
                    i < self.entries.len(),
                    *list == entries[i as int].1,
                    k <= list.len(),
                    0 <= cap,
                    cap == weight_cap(entries),
                    forall|t: int| 0 <= t < k ==> -cap <= (#[trigger] list@[t]).1 <= cap,
                decreases list.len() - k,
            {
                let weight = list[k].1;
                if weight > cap || weight < -cap {
                    assert(!(-weight_cap(entries) <= entries[i as int].1@[k as int].1
                        <= weight_cap(entries)));
                    return false;
                }
                k += 1;
            }
            i += 1;
        }
        true
    }
}

/// A node that waits to be seen, and the cost of a path to it.
pub type Offer = (Seq<char>, int);

/// Whether an offer for `node` is waiting.
pub open spec fn waits(queue: Seq<Offer>, node: Seq<char>) -> bool {
    exists|e: int| 0 <= e < queue.len() && (#[trigger] queue[e]).0 == node
}

/// Whether an offer for `node` with a cost of at most `bound` is waiting.
pub open spec fn offered(queue: Seq<Offer>, node: Seq<char>, bound: int) -> bool {
    exists|e: int| 0 <= e < queue.len() && (#[trigger] queue[e]).0 == node && queue[e].1 <= bound
}

/// Whether each of the first `n` edges of `node` leads to a node that has
/// been seen, or to one for which an offer is waiting.
pub open spec fn arcs_waiting(
    g: WeightedModel,
    queue: Seq<Offer>,
    seen: Seq<Seq<char>>,
    node: Seq<char>,
    n: int,
) -> bool {
    forall|k: int|
        0 <= k < n && k < arcs(g, node).len() ==> seen.contains((#[trigger] arcs(g, node)[k]).0)
            || waits(queue, arcs(g, node)[k].0)
}

/// Whether each of the first `n` edges of `node` leads to a node that has
/// been seen, or to one for which an offer is waiting whose cost is at most
/// `cost` and the weight of the edge.
pub open spec fn arcs_offered(
    g: WeightedModel,
    queue: Seq<Offer>,
    seen: Seq<Seq<char>>,
    node: Seq<char>,
    cost: int,
    n: int,
) -> bool {
    forall|k: int|
        0 <= k < n && k < arcs(g, node).len() ==> seen.contains((#[trigger] arcs(g, node)[k]).0)
            || offered(queue, arcs(g, node)[k].0, cost + arcs(g, node)[k].1)
}

/// Whether the cost recorded for each node that has been seen is at most
/// the sum of the weights of any path to it.
pub open spec fn costs_least(
    g: WeightedModel,
    start: Seq<char>,
    seen: Seq<Seq<char>>,
    least: Map<Seq<char>, int>,
) -> bool {
    forall|u: Seq<char>, route: Route|
        seen.contains(u) && #[trigger] leads(g, start, route, u) ==> least[u] <= total(
            route,
            route.len(),
        )
}

/// The sum of the weights of the first edges of a route is that of the
/// route cut after them.
pub proof fn lemma_total_take(route: Route, cut: nat, n: nat)
    requires
        n <= cut <= route.len(),
    ensures
        total(route.take(cut as int), n) == total(route, n),
    decreases n,
{
    if n > 0 {
        lemma_total_take(route, cut, (n - 1) as nat);
    }
}

/// A route cut short is a route to where it then ends.
pub proof fn lemma_route_take(g: WeightedModel, from: Seq<char>, route: Route, cut: nat)
    requires
        is_route(g, from, route),
        cut <= route.len(),
    ensures
        leads(g, from, route.take(cut as int), stop(from, route, cut as int)),
        total(route.take(cut as int), cut) == total(route, cut),
{
    let short = route.take(cut as int);
    assert forall|i: int| 0 <= i < short.len() implies arcs(g, stop(from, short, i)).contains(
        #[trigger] short[i],
    ) by {
        assert(short[i] == route[i]);
        assert(stop(from, short, i) == stop(from, route, i));
    }
    lemma_total_take(route, cut, cut);
}

/// A route with one more edge at its end.
pub proof fn lemma_route_push(
    g: WeightedModel,
    from: Seq<char>,
    route: Route,
    to: Seq<char>,
    arc: Arc,
)
    requires
        leads(g, from, route, to),
        arcs(g, to).contains(arc),
    ensures
        leads(g, from, route.push(arc), arc.0),
        total(route.push(arc), route.len() + 1) == total(route, route.len()) + arc.1,
        nodes(from, route.push(arc)) == nodes(from, route).push(arc.0),
{
    let longer = route.push(arc);
    assert forall|i: int| 0 <= i < longer.len() implies arcs(g, stop(from, longer, i)).contains(
        #[trigger] longer[i],
    ) by {
        if i < route.len() {
            assert(longer[i] == route[i]);
            assert(stop(from, longer, i) == stop(from, route, i));
        } else {
            assert(stop(from, longer, i) == to);
        }
    }
    assert(longer.take(route.len() as int) =~= route);
    lemma_total_take(longer, route.len(), route.len());
    assert(nodes(from, longer) =~= nodes(from, route).push(arc.0));
}

/// Where no weight is negative, no sum of weights along a route is.
pub proof fn lemma_total_grows(g: WeightedModel, from: Seq<char>, route: Route, n: nat)
    requires
        non_negative(g),
        is_route(g, from, route),
        0 < n <= route.len(),
    ensures
        route[n - 1].1 >= 0,
        total(route, n) >= total(route, (n - 1) as nat),
        total(route, n) >= 0,
    decreases n,
{
    let at = stop(from, route, n - 1);
    assert(arcs(g, at).contains(route[n - 1]));
    let k = choose|k: int| 0 <= k < arcs(g, at).len() && arcs(g, at)[k] == route[n - 1];
    assert(arcs(g, at)[k].1 >= 0);
    if n > 1 {
        lemma_total_grows(g, from, route, (n - 1) as nat);
    }
}

/// Every node at which a route from a node of a closed set stops is in the
/// set.
pub proof fn lemma_route_stays(
    g: WeightedModel,
    seen: Seq<Seq<char>>,
    from: Seq<char>,
    route: Route,
    n: nat,
)
    requires
        seen.contains(from),
        forall|u: Seq<char>|
            #![trigger seen.contains(u)]
            seen.contains(u) ==> arcs_waiting(g, Seq::empty(), seen, u, arcs(g, u).len() as int),
        is_route(g, from, route),
        n <= route.len(),
    ensures
        seen.contains(stop(from, route, n as int)),
    decreases n,
{
    if n > 0 {
        lemma_route_stays(g, seen, from, route, (n - 1) as nat);
        let at = stop(from, route, n - 1);
        assert(arcs(g, at).contains(route[n - 1]));
        let k = choose|k: int| 0 <= k < arcs(g, at).len() && arcs(g, at)[k] == route[n - 1];
        assert(arcs_waiting(g, Seq::empty(), seen, at, arcs(g, at).len() as int));
        assert(seen.contains(arcs(g, at)[k].0) || waits(Seq::empty(), arcs(g, at)[k].0));
    }
}

/// The sum of the weights of the first `n` edges of a route from `start` is
/// at least the least cost that is waiting, unless the node at which they
/// end has been seen.
pub proof fn lemma_lower_bound(
    g: WeightedModel,
    start: Seq<char>,
    seen: Seq<Seq<char>>,
    queue: Seq<Offer>,
    least: Map<Seq<char>, int>,
    floor: int,
    route: Route,
    n: nat,
)
    requires
        non_negative(g),
        is_route(g, start, route),
        n <= route.len(),
        seen.contains(start),
        costs_least(g, start, seen, least),
        forall|u: Seq<char>|
            #![trigger seen.contains(u)]
            seen.contains(u) ==> arcs_offered(g, queue, seen, u, least[u], arcs(g, u).len() as int),
        forall|e: int| 0 <= e < queue.len() ==> floor <= (#[trigger] queue[e]).1,
    ensures
        seen.contains(stop(start, route, n as int)) || floor <= total(route, n),
    decreases n,
{
    if n > 0 {
        lemma_lower_bound(g, start, seen, queue, least, floor, route, (n - 1) as nat);
        lemma_total_grows(g, start, route, n);
        let at = stop(start, route, n - 1);
        if seen.contains(at) {
            lemma_route_take(g, start, route, (n - 1) as nat);
            let short = route.take(n - 1);
            assert(leads(g, start, short, at));
            assert(least[at] <= total(short, short.len()));
            assert(arcs(g, at).contains(route[n - 1]));
            let k = choose|k: int| 0 <= k < arcs(g, at).len() && arcs(g, at)[k] == route[n - 1];
            assert(arcs_offered(g, queue, seen, at, least[at], arcs(g, at).len() as int));
            let next = arcs(g, at)[k].0;
            assert(next == stop(start, route, n as int));
            if !seen.contains(next) {
                assert(offered(queue, next, least[at] + arcs(g, at)[k].1));
                let e = choose|e: int|
                    0 <= e < queue.len() && (#[trigger] queue[e]).0 == next && queue[e].1
                        <= least[at] + arcs(g, at)[k].1;
                assert(floor <= queue[e].1);
            }
        }
    }
}

/// The names that a search from `start` can meet: the targets of the
/// edges, and `start`.
pub open spec fn names(entries: Seq<(String, Vec<(String, i32)>)>, start: Seq<char>) -> Seq<Seq<char>> {
    targets(entries, entries.len()) + seq![start]
}

/// How far from zero a sum of `hops` weights can be.
pub open spec fn span(entries: Seq<(String, Vec<(String, i32)>)>, hops: int) -> int {
    hops * weight_cap(entries)
}

/// The span grows by the cap with each hop, and as many hops as there are
/// names keep within the range of costs.
pub proof fn lemma_span(entries: Seq<(String, Vec<(String, i32)>)>, start: Seq<char>, hops: int)
    requires
        0 <= hops < names(entries, start).len(),
    ensures
        weight_cap(entries) >= 0,
        span(entries, hops) >= 0,
        span(entries, hops + 1) == span(entries, hops) + weight_cap(entries),
        span(entries, hops + 1) <= i32::MAX - 1,
{
    let n = names(entries, start).len() as int;
    let cap = weight_cap(entries);
    assert(n == targets(entries, entries.len()).len() + 1);
    vstd::arithmetic::div_mod::lemma_div_pos_is_pos(i32::MAX - 1, n);
    vstd::arithmetic::div_mod::lemma_remainder_lower(i32::MAX - 1, n);
    assert(cap * n <= i32::MAX - 1) by (nonlinear_arith)
        requires
            cap == (i32::MAX - 1) / n,
            (i32::MAX - 1) >= ((i32::MAX - 1) / n) * n,
    ;
    assert(hops * cap >= 0 && (hops + 1) * cap == hops * cap + cap && (hops + 1) * cap <= cap * n)
        by (nonlinear_arith)
        requires
            0 <= hops < n,
            cap >= 0,
    ;
}

/// Whether an offer is backed by a path: one from `start` to its node, of
/// its cost, with no more edges than nodes have been seen and a cost within
/// the span of that many edges.
pub open spec fn backed(
    g: WeightedModel,
    entries: Seq<(String, Vec<(String, i32)>)>,
    start: Seq<char>,
    seen_len: int,
    offer: Offer,
    route: Route,
) -> bool {
    &&& leads(g, start, route, offer.0)
    &&& total(route, route.len()) == offer.1
    &&& route.len() <= seen_len
    &&& -span(entries, route.len() as int) <= offer.1 <= span(entries, route.len() as int)
}

/// Whether an offer is in order: some path backs it, and its node is among
/// the names.
pub open spec fn offer_ok(
    g: WeightedModel,
    entries: Seq<(String, Vec<(String, i32)>)>,
    start: Seq<char>,
    seen_len: int,
    offer: Offer,
) -> bool {
    &&& names(entries, start).contains(offer.0)
    &&& exists|route: Route| #[trigger] backed(g, entries, start, seen_len, offer, route)
}

/// Whether the state of a search is in order: each node has been seen once
/// and is among the names; every offer is in order; `start` has been seen
/// or is waited for; each edge of a node that has been seen leads to a node
/// that has been seen or is waited for. Where no weight is negative,
/// moreover: the cost recorded for a node that has been seen is the least
/// of any path to it, and no more than any offer; and each edge of such a
/// node that leads to one that has not been seen has an offer there of no
/// more than that cost and the weight of the edge.
pub open spec fn search_ok(
    g: WeightedModel,
    entries: Seq<(String, Vec<(String, i32)>)>,
    start: Seq<char>,
    queue: Seq<Offer>,
    seen: Seq<Seq<char>>,
    least: Map<Seq<char>, int>,
) -> bool {
    &&& seen.no_duplicates()
    &&& all_among(seen, names(entries, start))
    &&& forall|e: int| 0 <= e < queue.len() ==> offer_ok(g, entries, start, seen.len() as int, #[trigger] queue[e])
    &&& seen.contains(start) || waits(queue, start)
    &&& !seen.contains(start) ==> seen.len() == 0
    &&& forall|u: Seq<char>|
        #![trigger seen.contains(u)]
        seen.contains(u) ==> arcs_waiting(g, queue, seen, u, arcs(g, u).len() as int)
    &&& non_negative(g) ==> {
        &&& costs_least(g, start, seen, least)
        &&& forall|u: Seq<char>|
            #![trigger seen.contains(u)]
            seen.contains(u) ==> arcs_offered(g, queue, seen, u, least[u], arcs(g, u).len() as int)
        &&& forall|u: Seq<char>, e: int|
            #![trigger seen.contains(u), queue[e]]
            seen.contains(u) && 0 <= e < queue.len() ==> least[u] <= queue[e].1
    }
}

/// Whether the state of the search is in order while the edges of `node`,
/// which has just been seen at `cost`, are looked at, the first `k` of them
/// done, as far as the paths go.
pub open spec fn relaxing_paths(
    g: WeightedModel,
    entries: Seq<(String, Vec<(String, i32)>)>,
    start: Seq<char>,
    queue: Seq<Offer>,
    seen: Seq<Seq<char>>,
    node: Seq<char>,
    cost: int,
    k: int,
) -> bool {
    &&& seen.no_duplicates()
    &&& all_among(seen, names(entries, start))
    &&& seen.contains(start)
    &&& seen.contains(node)
    &&& exists|route: Route| #[trigger] backed(g, entries, start, seen.len() - 1, (node, cost), route)
    &&& forall|e: int| 0 <= e < queue.len() ==> offer_ok(g, entries, start, seen.len() as int, #[trigger] queue[e])
    &&& forall|u: Seq<char>|
        #![trigger seen.contains(u)]
        seen.contains(u) && u != node ==> arcs_waiting(g, queue, seen, u, arcs(g, u).len() as int)
    &&& arcs_waiting(g, queue, seen, node, k)
}

/// The same, as far as the costs go.
pub open spec fn relaxing_costs(
    g: WeightedModel,
    start: Seq<char>,
    queue: Seq<Offer>,
    seen: Seq<Seq<char>>,
    least: Map<Seq<char>, int>,
    node: Seq<char>,
    cost: int,
    k: int,
) -> bool {
    &&& costs_least(g, start, seen, least)
    &&& least[node] == cost
    &&& forall|u: Seq<char>| #![trigger seen.contains(u)] seen.contains(u) ==> least[u] <= cost
    &&& forall|u: Seq<char>|
        #![trigger seen.contains(u)]
        seen.contains(u) && u != node ==> arcs_offered(
            g,
            queue,
            seen,
            u,
            least[u],
            arcs(g, u).len() as int,
        )
    &&& arcs_offered(g, queue, seen, node, cost, k)
    &&& forall|u: Seq<char>, e: int|
        #![trigger seen.contains(u), queue[e]]
        seen.contains(u) && 0 <= e < queue.len() ==> least[u] <= queue[e].1
}

/// Whether the state of the search is in order while the edges of `node`
/// are looked at, the first `k` of them done.
pub open spec fn relaxing(
    g: WeightedModel,
    entries: Seq<(String, Vec<(String, i32)>)>,
    start: Seq<char>,
    queue: Seq<Offer>,
    seen: Seq<Seq<char>>,
    least: Map<Seq<char>, int>,
    node: Seq<char>,
    cost: int,
    k: int,
) -> bool {
    &&& relaxing_paths(g, entries, start, queue, seen, node, cost, k)
    &&& non_negative(g) ==> relaxing_costs(g, start, queue, seen, least, node, cost, k)
}

/// What waited before an offer was taken out still waits, but for what
/// waited for the node of that offer alone.
pub proof fn lemma_taken_out(queue: Seq<Offer>, at: int, node: Seq<char>, bound: int)
    requires
        0 <= at < queue.len(),
        node != queue[at].0,
    ensures
        waits(queue, node) ==> waits(queue.remove(at), node),
        offered(queue, node, bound) ==> offered(queue.remove(at), node, bound),
{
    let rest = queue.remove(at);
    if waits(queue, node) {
        let e = choose|e: int| 0 <= e < queue.len() && (#[trigger] queue[e]).0 == node;
        if e < at {
            assert(rest[e] == queue[e]);
        } else {
            assert(rest[e - 1] == queue[e]);
        }
    }
    if offered(queue, node, bound) {
        let e = choose|e: int|
            0 <= e < queue.len() && (#[trigger] queue[e]).0 == node && queue[e].1 <= bound;
        if e < at {
            assert(rest[e] == queue[e]);
        } else {
            assert(rest[e - 1] == queue[e]);
        }
    }
}

/// What waits still waits when one more offer waits.
pub proof fn lemma_put_in(queue: Seq<Offer>, offer: Offer, node: Seq<char>, bound: int)
    ensures
        waits(queue, node) ==> waits(queue.push(offer), node),
        offered(queue, node, bound) ==> offered(queue.push(offer), node, bound),
        offer.0 == node ==> waits(queue.push(offer), node),
        offer.0 == node && offer.1 <= bound ==> offered(queue.push(offer), node, bound),
{
    let more = queue.push(offer);
    if waits(queue, node) {
        let e = choose|e: int| 0 <= e < queue.len() && (#[trigger] queue[e]).0 == node;
        assert(more[e] == queue[e]);
    }
    if offered(queue, node, bound) {
        let e = choose|e: int|
            0 <= e < queue.len() && (#[trigger] queue[e]).0 == node && queue[e].1 <= bound;
        assert(more[e] == queue[e]);
    }
    assert(more[queue.len() as int] == offer);
}

/// While nothing has been seen, every offer is for `start`, at no cost.
pub proof fn lemma_first_is_start(
    g: WeightedModel,
    entries: Seq<(String, Vec<(String, i32)>)>,
    start: Seq<char>,
    offer: Offer,
)
    requires
        offer_ok(g, entries, start, 0, offer),
    ensures
        offer == (start, 0int),
{
    let route = choose|route: Route| #[trigger] backed(g, entries, start, 0, offer, route);
    assert(route.len() == 0);
}

/// Taking out an offer for a node that has been seen leaves the search in
/// order.
pub proof fn lemma_skip(
    g: WeightedModel,
    entries: Seq<(String, Vec<(String, i32)>)>,
    start: Seq<char>,
    pile: Seq<Offer>,
    at: int,
    seen: Seq<Seq<char>>,
    least: Map<Seq<char>, int>,
)
    requires
        search_ok(g, entries, start, pile, seen, least),
        0 <= at < pile.len(),
        seen.contains(pile[at].0),
    ensures
        search_ok(g, entries, start, pile.remove(at), seen, least),
{
    let queue = pile.remove(at);
    let node = pile[at].0;
    assert forall|e: int| 0 <= e < queue.len() implies (#[trigger] queue[e]) == pile[if e < at {
        e
    } else {
        e + 1
    }] by {}
    assert forall|t: Seq<char>, bound: int| t != node && #[trigger] offered(
        pile,
        t,
        bound,
    ) implies offered(queue, t, bound) by {
        lemma_taken_out(pile, at, t, bound);
    }
    assert forall|t: Seq<char>| t != node && #[trigger] waits(pile, t) implies waits(queue, t) by {
        lemma_taken_out(pile, at, t, 0);
    }
    assert forall|u: Seq<char>| #![trigger seen.contains(u)] seen.contains(u) implies arcs_waiting(
        g,
        queue,
        seen,
        u,
        arcs(g, u).len() as int,
    ) by {
        assert(arcs_waiting(g, pile, seen, u, arcs(g, u).len() as int));
    }
    if non_negative(g) {
        assert forall|u: Seq<char>| #![trigger seen.contains(u)] seen.contains(u) implies arcs_offered(
            g,
            queue,
            seen,
            u,
            least[u],
            arcs(g, u).len() as int,
        ) by {
            assert(arcs_offered(g, pile, seen, u, least[u], arcs(g, u).len() as int));
        }
    }
}

/// No path to a node that has not been seen costs less than the cheapest
/// offer.
pub proof fn lemma_cheapest(
    g: WeightedModel,
    entries: Seq<(String, Vec<(String, i32)>)>,
    start: Seq<char>,
    pile: Seq<Offer>,
    at: int,
    seen: Seq<Seq<char>>,
    least: Map<Seq<char>, int>,
    route: Route,
)
    requires
        non_negative(g),
        search_ok(g, entries, start, pile, seen, least),
        0 <= at < pile.len(),
        forall|j: int| 0 <= j < pile.len() ==> pile[at].1 <= (#[trigger] pile[j]).1,
        !seen.contains(pile[at].0),
        leads(g, start, route, pile[at].0),
    ensures
        pile[at].1 <= total(route, route.len()),
{
    if seen.contains(start) {
        lemma_lower_bound(g, start, seen, pile, least, pile[at].1, route, route.len());
    } else {
        lemma_first_is_start(g, entries, start, pile[at]);
        if route.len() > 0 {
            lemma_total_grows(g, start, route, route.len());
        }
    }
}

/// Taking out the cheapest offer, for a node that has not been seen, and
/// seeing that node at the cost of the offer, leaves the search ready to
/// look at the edges of the node.
pub proof fn lemma_accept(
    g: WeightedModel,
    entries: Seq<(String, Vec<(String, i32)>)>,
    start: Seq<char>,
    pile: Seq<Offer>,
    at: int,
    seen: Seq<Seq<char>>,
    least: Map<Seq<char>, int>,
)
    requires
        search_ok(g, entries, start, pile, seen, least),
        0 <= at < pile.len(),
        forall|j: int| 0 <= j < pile.len() ==> pile[at].1 <= (#[trigger] pile[j]).1,
        !seen.contains(pile[at].0),
    ensures
        relaxing(
            g,
            entries,
            start,
            pile.remove(at),
            seen.push(pile[at].0),
            least.insert(pile[at].0, pile[at].1),
            pile[at].0,
            pile[at].1,
            0,
        ),
        unseen(names(entries, start), seen.push(pile[at].0)) < unseen(names(entries, start), seen),
        forall|v: Seq<char>|
            #![trigger seen.push(pile[at].0).contains(v)]
            seen.push(pile[at].0).contains(v) <==> seen.contains(v) || v == pile[at].0,
{
    let queue = pile.remove(at);
    let node = pile[at].0;
    let cost = pile[at].1;
    let seen2 = seen.push(node);
    let least2 = least.insert(node, cost);
    let all = names(entries, start);
    assert(offer_ok(g, entries, start, seen.len() as int, pile[at]));
    let route = choose|route: Route| #[trigger] backed(g, entries, start, seen.len() as int, pile[at], route);
    assert(backed(g, entries, start, seen2.len() - 1, (node, cost), route));
    assert forall|e: int| 0 <= e < queue.len() implies (#[trigger] queue[e]) == pile[if e < at {
        e
    } else {
        e + 1
    }] by {}
    assert forall|t: Seq<char>, bound: int| t != node && #[trigger] offered(
        pile,
        t,
        bound,
    ) implies offered(queue, t, bound) by {
        lemma_taken_out(pile, at, t, bound);
    }
    assert forall|t: Seq<char>| t != node && #[trigger] waits(pile, t) implies waits(queue, t) by {
        lemma_taken_out(pile, at, t, 0);
    }
    assert(seen2[seen.len() as int] == node);
    assert forall|v: Seq<char>| seen.contains(v) implies #[trigger] seen2.contains(v) by {
        let i = choose|i: int| 0 <= i < seen.len() && seen[i] == v;
        assert(seen2[i] == v);
    }
    assert forall|v: Seq<char>| #[trigger] seen2.contains(v) implies seen.contains(v) || v
        == node by {
        let i = choose|i: int| 0 <= i < seen2.len() && seen2[i] == v;
        if i < seen.len() {
            assert(seen[i] == v);
        }
    }
    assert(seen2.no_duplicates());
    assert(all_among(seen2, all)) by {
        assert forall|k: int| 0 <= k < seen2.len() implies all.contains(#[trigger] seen2[k]) by {
            if k < seen.len() {
                assert(seen2[k] == seen[k]);
            }
        }
    }
    assert forall|k: int| 0 <= k < all.len() implies all.contains(#[trigger] all[k]) by {}
    lemma_unseen(all, seen, all, seen2);
    assert(all.contains(node) && !seen.contains(node) && seen2.contains(node));
    assert(seen2.contains(start)) by {
        if !seen.contains(start) {
            lemma_first_is_start(g, entries, start, pile[at]);
        }
    }
    assert forall|u: Seq<char>|
        #![trigger seen2.contains(u)]
        seen2.contains(u) && u != node implies arcs_waiting(
        g,
        queue,
        seen2,
        u,
        arcs(g, u).len() as int,
    ) by {
        assert(seen.contains(u));
        assert(arcs_waiting(g, pile, seen, u, arcs(g, u).len() as int));
    }
    assert forall|e: int| 0 <= e < queue.len() implies offer_ok(
        g,
        entries,
        start,
        seen2.len() as int,
        #[trigger] queue[e],
    ) by {
        assert(offer_ok(g, entries, start, seen.len() as int, queue[e]));
        let r = choose|r: Route| #[trigger] backed(g, entries, start, seen.len() as int, queue[e], r);
        assert(backed(g, entries, start, seen2.len() as int, queue[e], r));
    }
    if non_negative(g) {
        assert forall|u: Seq<char>, route: Route|
            seen2.contains(u) && #[trigger] leads(g, start, route, u) implies least2[u] <= total(
            route,
            route.len(),
        ) by {
            if u == node {
                lemma_cheapest(g, entries, start, pile, at, seen, least, route);
            } else {
                assert(seen.contains(u));
            }
        }
        assert forall|u: Seq<char>|
            #![trigger seen2.contains(u)]
            seen2.contains(u) && u != node implies arcs_offered(
            g,
            queue,
            seen2,
            u,
            least2[u],
            arcs(g, u).len() as int,
        ) by {
            assert(seen.contains(u));
            assert(arcs_offered(g, pile, seen, u, least[u], arcs(g, u).len() as int));
        }
        assert forall|u: Seq<char>| #![trigger seen2.contains(u)] seen2.contains(u) implies least2[u]
            <= cost by {
            if u != node {
                assert(seen.contains(u));
                assert(least[u] <= pile[at].1);
            }
        }
        assert forall|u: Seq<char>, e: int|
            #![trigger seen2.contains(u), queue[e]]
            seen2.contains(u) && 0 <= e < queue.len() implies least2[u] <= queue[e].1 by {
            if u != node {
                assert(seen.contains(u));
            }
        }
    }
}

/// Looking at an edge that leads to a node that has been seen, or for which
/// an offer waits that is no more than the cost of the node and the weight
/// of the edge, leaves the search as it is.
pub proof fn lemma_pass(
    g: WeightedModel,
    entries: Seq<(String, Vec<(String, i32)>)>,
    start: Seq<char>,
    queue: Seq<Offer>,
    seen: Seq<Seq<char>>,
    least: Map<Seq<char>, int>,
    node: Seq<char>,
    cost: int,
    k: int,
)
    requires
        relaxing(g, entries, start, queue, seen, least, node, cost, k),
        0 <= k < arcs(g, node).len(),
        seen.contains(arcs(g, node)[k].0) || offered(
            queue,
            arcs(g, node)[k].0,
            cost + arcs(g, node)[k].1,
        ),
    ensures
        relaxing(g, entries, start, queue, seen, least, node, cost, k + 1),
{
    let arc = arcs(g, node)[k];
    if offered(queue, arc.0, cost + arc.1) {
        let e = choose|e: int|
            0 <= e < queue.len() && (#[trigger] queue[e]).0 == arc.0 && queue[e].1 <= cost + arc.1;
        assert(waits(queue, arc.0));
    }
}

/// The cost of a node that has just been seen and the weight of one of its
/// edges keep within the range of costs, and the edge leads to one of the
/// names.
pub proof fn lemma_sum_fits(
    g: WeightedModel,
    entries: Seq<(String, Vec<(String, i32)>)>,
    start: Seq<char>,
    queue: Seq<Offer>,
    seen: Seq<Seq<char>>,
    node: Seq<char>,
    cost: int,
    k: int,
    j: int,
)
    requires
        g == weighted_adjacency(entries, entries.len()),
        weights_fit(entries),
        relaxing_paths(g, entries, start, queue, seen, node, cost, k),
        0 <= j < arcs(g, node).len(),
    ensures
        i32::MIN < cost + arcs(g, node)[j].1 < i32::MAX,
        i32::MIN < cost < i32::MAX,
        offer_ok(
            g,
            entries,
            start,
            seen.len() as int,
            (arcs(g, node)[j].0, cost + arcs(g, node)[j].1),
        ),
        non_negative(g) ==> arcs(g, node)[j].1 >= 0,
{
    let all = names(entries, start);
    let arc = arcs(g, node)[j];
    lemma_distinct_within(seen, all);
    let route = choose|route: Route| #[trigger] backed(g, entries, start, seen.len() - 1, (node, cost), route);
    lemma_span(entries, start, route.len() as int);
    lemma_arc_known(entries, node, j);
    lemma_among_more(Seq::empty(), targets(entries, entries.len()), seq![start]);
    let named = targets(entries, entries.len());
    let i = choose|i: int| 0 <= i < named.len() && named[i] == arc.0;
    assert(all[i] == arc.0);
    lemma_route_push(g, start, route, node, arc);
    assert(backed(g, entries, start, seen.len() as int, (arc.0, cost + arc.1), route.push(arc)));
}

/// Looking at an edge and letting an offer for the node that it leads to
/// wait, at the cost of the node and the weight of the edge, leaves the
/// search in order as far as the paths go.
pub proof fn lemma_push_paths(
    g: WeightedModel,
    entries: Seq<(String, Vec<(String, i32)>)>,
    start: Seq<char>,
    queue: Seq<Offer>,
    seen: Seq<Seq<char>>,
    node: Seq<char>,
    cost: int,
    k: int,
)
    requires
        g == weighted_adjacency(entries, entries.len()),
        weights_fit(entries),
        relaxing_paths(g, entries, start, queue, seen, node, cost, k),
        0 <= k < arcs(g, node).len(),
    ensures
        relaxing_paths(
            g,
            entries,
            start,
            queue.push((arcs(g, node)[k].0, cost + arcs(g, node)[k].1)),
            seen,
            node,
            cost,
            k + 1,
        ),
{
    let arc = arcs(g, node)[k];
    let added: Offer = (arc.0, cost + arc.1);
    let more = queue.push(added);
    lemma_sum_fits(g, entries, start, queue, seen, node, cost, k, k);
    assert forall|t: Seq<char>| #[trigger] waits(queue, t) implies waits(more, t) by {
        lemma_put_in(queue, added, t, 0);
    }
    lemma_put_in(queue, added, added.0, added.1);
    assert forall|e: int| 0 <= e < more.len() implies offer_ok(
        g,
        entries,
        start,
        seen.len() as int,
        #[trigger] more[e],
    ) by {
        if e < queue.len() {
            assert(more[e] == queue[e]);
        }
    }
    assert forall|u: Seq<char>|
        #![trigger seen.contains(u)]
        seen.contains(u) && u != node implies arcs_waiting(
        g,
        more,
        seen,
        u,
        arcs(g, u).len() as int,
    ) by {
        assert(arcs_waiting(g, queue, seen, u, arcs(g, u).len() as int));
    }
    assert(arcs_waiting(g, queue, seen, node, k));
}

/// The same, as far as the costs go.
pub proof fn lemma_push_costs(
    g: WeightedModel,
    start: Seq<char>,
    queue: Seq<Offer>,
    seen: Seq<Seq<char>>,
    least: Map<Seq<char>, int>,
    node: Seq<char>,
    cost: int,
    k: int,
)
    requires
        relaxing_costs(g, start, queue, seen, least, node, cost, k),
        0 <= k < arcs(g, node).len(),
        arcs(g, node)[k].1 >= 0,
    ensures
        relaxing_costs(
            g,
            start,
            queue.push((arcs(g, node)[k].0, cost + arcs(g, node)[k].1)),
            seen,
            least,
            node,
            cost,
            k + 1,
        ),
{
    let arc = arcs(g, node)[k];
    let added: Offer = (arc.0, cost + arc.1);
    let more = queue.push(added);
    assert forall|t: Seq<char>, bound: int| #[trigger] offered(queue, t, bound) implies offered(
        more,
        t,
        bound,
    ) by {
        lemma_put_in(queue, added, t, bound);
    }
    lemma_put_in(queue, added, added.0, added.1);
    assert forall|u: Seq<char>|
        #![trigger seen.contains(u)]
        seen.contains(u) && u != node implies arcs_offered(
        g,
        more,
        seen,
        u,
        least[u],
        arcs(g, u).len() as int,
    ) by {
        assert(arcs_offered(g, queue, seen, u, least[u], arcs(g, u).len() as int));
    }
    assert(arcs_offered(g, queue, seen, node, cost, k));
    assert forall|u: Seq<char>, e: int|
        #![trigger seen.contains(u), more[e]]
        seen.contains(u) && 0 <= e < more.len() implies least[u] <= more[e].1 by {
        if e < queue.len() {
            assert(more[e] == queue[e]);
        }
    }
}

/// Looking at an edge and letting an offer for the node that it leads to
/// wait, at the cost of the node and the weight of the edge, leaves the
/// search in order.
pub proof fn lemma_push(
    g: WeightedModel,
    entries: Seq<(String, Vec<(String, i32)>)>,
    start: Seq<char>,
    queue: Seq<Offer>,
    seen: Seq<Seq<char>>,
    least: Map<Seq<char>, int>,
    node: Seq<char>,
    cost: int,
    k: int,
)
    requires
        g == weighted_adjacency(entries, entries.len()),
        weights_fit(entries),
        relaxing(g, entries, start, queue, seen, least, node, cost, k),
        0 <= k < arcs(g, node).len(),
    ensures
        relaxing(
            g,
            entries,
            start,
            queue.push((arcs(g, node)[k].0, cost + arcs(g, node)[k].1)),
            seen,
            least,
            node,
            cost,
            k + 1,
        ),
{
    lemma_push_paths(g, entries, start, queue, seen, node, cost, k);
    if non_negative(g) {
        lemma_sum_fits(g, entries, start, queue, seen, node, cost, k, k);
        lemma_push_costs(g, start, queue, seen, least, node, cost, k);
    }
}

/// When all edges of the node have been looked at, the search is in order.
pub proof fn lemma_relaxed(
    g: WeightedModel,
    entries: Seq<(String, Vec<(String, i32)>)>,
    start: Seq<char>,
    queue: Seq<Offer>,
    seen: Seq<Seq<char>>,
    least: Map<Seq<char>, int>,
    node: Seq<char>,
    cost: int,
    k: int,
)
    requires
        relaxing(g, entries, start, queue, seen, least, node, cost, k),
        k >= arcs(g, node).len(),
    ensures
        search_ok(g, entries, start, queue, seen, least),
{
    assert forall|u: Seq<char>| #![trigger seen.contains(u)] seen.contains(u) implies arcs_waiting(
        g,
        queue,
        seen,
        u,
        arcs(g, u).len() as int,
    ) by {}
    if non_negative(g) {
        assert forall|u: Seq<char>| #![trigger seen.contains(u)] seen.contains(u) implies arcs_offered(
            g,
            queue,
            seen,
            u,
            least[u],
            arcs(g, u).len() as int,
        ) by {}
    }
}

/// Where the search is in order and no offer waits, no route from `start`
/// leads to a node that has not been seen.
pub proof fn lemma_search_over(
    g: WeightedModel,
    entries: Seq<(String, Vec<(String, i32)>)>,
    start: Seq<char>,
    seen: Seq<Seq<char>>,
    least: Map<Seq<char>, int>,
    route: Route,
)
    requires
        search_ok(g, entries, start, Seq::empty(), seen, least),
        is_route(g, start, route),
    ensures
        seen.contains(stop(start, route, route.len() as int)),
{
    let none: Seq<Offer> = Seq::empty();
    if waits(none, start) {
    }
    lemma_route_stays(g, seen, start, route, route.len());
}

/// The search as it begins: nothing has been seen, and one offer waits, for
/// `start`, at no cost.
pub proof fn lemma_search_begins(
    g: WeightedModel,
    entries: Seq<(String, Vec<(String, i32)>)>,
    start: Seq<char>,
)
    ensures
        search_ok(g, entries, start, seq![(start, 0int)], Seq::empty(), Map::empty()),
{
    let none: Route = Seq::empty();
    let queue: Seq<Offer> = seq![(start, 0int)];
    let all = names(entries, start);
    assert(leads(g, start, none, start));
    assert(span(entries, 0) == 0) by (nonlinear_arith)
        requires
            span(entries, 0) == 0 * weight_cap(entries),
    ;
    assert(backed(g, entries, start, 0, queue[0], none));
    assert(all[targets(entries, entries.len()).len() as int] == start);
    assert(offer_ok(g, entries, start, 0, queue[0]));
    assert(waits(queue, start));
}

/// A path that waits to be followed further: the node that it leads to,
/// the sum of the weights along it, and its nodes.
pub struct State {
    pub cost: i32,
    pub node: String,
    pub path: Vec<String>,
}

/// The offers that the states make: for each, its node at its cost.
pub open spec fn offers(heap: Seq<State>) -> Seq<Offer> {
    heap.map_values(|s: State| (s.node@, s.cost as int))
}

/// Whether the path of a state is a path through the graph from `start` to
/// the node of the state, and the cost of the state is the sum of the
/// weights along it.
pub open spec fn witnessed(g: WeightedModel, start: Seq<char>, s: State) -> bool {
    exists|route: Route|
        #![trigger leads(g, start, route, s.node@)]
        leads(g, start, route, s.node@) && nodes(start, route) == texts(s.path@) && total(
            route,
            route.len(),
        ) == s.cost
}

/// Whether the path of each state is a path to its node, of its cost.
pub open spec fn all_witnessed(g: WeightedModel, start: Seq<char>, heap: Seq<State>) -> bool {
    forall|e: int| 0 <= e < heap.len() ==> witnessed(g, start, #[trigger] heap[e])
}

/// Takes the state of least cost out of the states that wait: of those of
/// least cost, the one that has waited longest.
fn pop_least(heap: &mut Vec<State>) -> (least: Option<(State, Ghost<int>)>)
    ensures
        match least {
            Some((s, at)) => {
                &&& 0 <= at@ < old(heap)@.len()
                &&& old(heap)@[at@] == s
                &&& final(heap)@ == old(heap)@.remove(at@)
                &&& offers(final(heap)@) == offers(old(heap)@).remove(at@)
                &&& forall|j: int|
                    0 <= j < old(heap)@.len() ==> s.cost <= (#[trigger] offers(old(heap)@)[j]).1
            },
            None => old(heap)@.len() == 0 && final(heap)@ == old(heap)@,
        },
{
    if heap.len() == 0 {
        return None;
    }
    let mut best: usize = 0;
    let mut i: usize = 1;
    while i < heap.len()
        invariant
            1 <= i <= heap.len(),
            best < i,
            forall|j: int| 0 <= j < i ==> heap@[best as int].cost <= (#[trigger] heap@[j]).cost,
        decreases heap.len() - i,
    {
        if heap[i].cost < heap[best].cost {
            best = i;
        }
        i += 1;
    }
    let ghost before = heap@;
    let s = heap.remove(best);
    proof {
        assert(before[best as int] == s);
        assert(offers(heap@) =~= offers(before).remove(best as int));
        assert forall|j: int| 0 <= j < before.len() implies s.cost <= (#[trigger] offers(
            before,
        )[j]).1 by {
            assert(before[j].cost == offers(before)[j].1);
        }
    }
    Some((s, Ghost(best as int)))
}

/// Looks at the edges of the node of `state`, which has just been seen:
/// for each that leads to a node that has not been seen, a state waits
/// from now on, with the path of `state` and that edge.
fn relax(
    graph: &WeightedGraph,
    heap: &mut Vec<State>,
    visited: &Vec<String>,
    state: &State,
    Ghost(start): Ghost<Seq<char>>,
    Ghost(least): Ghost<Map<Seq<char>, int>>,
)
    requires
        weights_fit(graph.entries@),
        relaxing(
            graph@,
            graph.entries@,
            start,
            offers(old(heap)@),
            texts(visited@),
            least,
            state.node@,
            state.cost as int,
            0,
        ),
        all_witnessed(graph@, start, old(heap)@),
        witnessed(graph@, start, *state),
    ensures
        search_ok(graph@, graph.entries@, start, offers(final(heap)@), texts(visited@), least),
        all_witnessed(graph@, start, final(heap)@),
{
    let ghost g = graph@;
    let ghost entries = graph.entries@;
    let ghost seen = texts(visited@);
    let ghost node = state.node@;
    let ghost cost = state.cost as int;
    match graph.get(state.node.as_str()) {
        Some(neighbors) => {
            let mut k: usize = 0;
            while k < neighbors.len()
                invariant
                    g == graph@,
                    entries == graph.entries@,
                    seen == texts(visited@),
                    node == state.node@,
                    cost == state.cost as int,
                    weights_fit(entries),
                    k <= neighbors.len(),
                    arcs(g, node) == arcs_of(neighbors@),
                    relaxing(g, entries, start, offers(heap@), seen, least, node, cost, k as int),
                    all_witnessed(g, start, heap@),
                    witnessed(g, start, *state),
                decreases neighbors.len() - k,
            {
                let neighbor = neighbors[k].0.as_str();
                let weight = neighbors[k].1;
                let ghost arc: Arc = (neighbor@, weight as int);
                proof {
                    assert(arcs(g, node)[k as int] == arc);
                    lemma_sum_fits(
                        g,
                        entries,
                        start,
                        offers(heap@),
                        seen,
                        node,
                        cost,
                        k as int,
                        k as int,
                    );
                }
                if !contains_name(visited, neighbor) {
                    let ghost held = heap@;
                    let mut new_path = copy_names(&state.path);
                    new_path.push(String::from_str(neighbor));
                    let next = State {
                        cost: state.cost + weight,
                        node: String::from_str(neighbor),
                        path: new_path,
                    };
                    proof {
                        assert(texts(next.path@) =~= texts(state.path@).push(neighbor@));
                        let route = choose|route: Route|
                            #![trigger leads(g, start, route, state.node@)]
                            leads(g, start, route, state.node@) && nodes(start, route) == texts(
                                state.path@,
                            ) && total(route, route.len()) == state.cost;
                        lemma_route_push(g, start, route, node, arc);
                        assert(leads(g, start, route.push(arc), next.node@));
                        assert(witnessed(g, start, next));
                        lemma_push(g, entries, start, offers(held), seen, least, node, cost, k as int);
                        assert(offers(held.push(next)) =~= offers(held).push(
                            (arc.0, cost + arc.1),
                        ));
                        assert forall|e: int| 0 <= e < held.push(next).len() implies witnessed(
                            g,
                            start,
                            #[trigger] held.push(next)[e],
                        ) by {
                            if e < held.len() {
                                assert(held.push(next)[e] == held[e]);
                            }
                        }
                    }
                    heap.push(next);
                } else {
                    proof {
                        lemma_pass(g, entries, start, offers(heap@), seen, least, node, cost, k as int);
                    }
                }
                k += 1;
            }
            proof {
                lemma_relaxed(g, entries, start, offers(heap@), seen, least, node, cost, k as int);
            }
        },
        None => {
            proof {
                assert(arcs(g, node).len() == 0);
                lemma_relaxed(g, entries, start, offers(heap@), seen, least, node, cost, 0);
            }
        },
    }
}

/// A path from `start` to `goal` and the sum of the weights along it, found
/// by following, of the paths that wait, one of least cost first, to each
/// node once. Where no weight is negative, no path from `start` to `goal`
/// costs less. Where there is no path: none, with the largest cost there
/// is.
///
/// The weights have to keep within the cap, so that no sum of weights
/// along a path leaves the range of costs.
pub fn dijkstra_heap(graph: &WeightedGraph, start: &str, goal: &str) -> (found: (
    Option<Vec<String>>,
    i32,
))
    requires
        weights_fit(graph.entries@),
    ensures
        match found.0 {
            Some(path) => exists|route: Route|
                #![trigger leads(graph@, start@, route, goal@)]
                leads(graph@, start@, route, goal@) && nodes(start@, route) == texts(path@)
                    && total(route, route.len()) == found.1,
            None => found.1 == i32::MAX && forall|route: Route|
                !#[trigger] leads(graph@, start@, route, goal@),
        },
        non_negative(graph@) ==> forall|route: Route|
            #[trigger] leads(graph@, start@, route, goal@) ==> found.1 <= total(
                route,
                route.len(),
            ),
{
    let ghost g = graph@;
    let ghost entries = graph.entries@;
    let ghost all = names(entries, start@);
    let mut heap: Vec<State> = Vec::new();
    let mut visited: Vec<String> = Vec::new();
    let mut first: Vec<String> = Vec::new();
    first.push(String::from_str(start));
    let ghost first_names = texts(first@);
    heap.push(State { cost: 0, node: String::from_str(start), path: first });
    let ghost mut least: Map<Seq<char>, int> = Map::empty();
    proof {
        let none: Route = Seq::empty();
        assert(first_names =~= seq![start@]);
        assert(nodes(start@, none) =~= seq![start@]);
        assert(leads(g, start@, none, start@));
        assert(total(none, 0) == 0);
        assert(texts(heap@[0].path@) == first_names);
        assert(leads(g, start@, none, heap@[0].node@) && nodes(start@, none) == texts(
            heap@[0].path@,
        ) && total(none, none.len()) == heap@[0].cost);
        assert(witnessed(g, start@, heap@[0]));
        assert(texts(visited@) =~= Seq::<Seq<char>>::empty());
        assert(offers(heap@) =~= seq![(start@, 0int)]);
        lemma_search_begins(g, entries, start@);
    }
    while heap.len() > 0
        invariant
            g == graph@,
            entries == graph.entries@,
            all == names(entries, start@),
            weights_fit(entries),
            search_ok(g, entries, start@, offers(heap@), texts(visited@), least),
            all_witnessed(g, start@, heap@),
            !texts(visited@).contains(goal@),
        decreases unseen(all, texts(visited@)), heap@.len(),
    {
        let ghost pile = heap@;
        let ghost seen = texts(visited@);
        let (taken, Ghost(at)) = match pop_least(&mut heap) {
            Some(least) => least,
            None => {
                return (None, i32::MAX);
            },
        };
        proof {
            assert(offers(pile)[at] == (taken.node@, taken.cost as int));
            assert(witnessed(g, start@, pile[at]));
            assert forall|e: int| 0 <= e < heap@.len() implies witnessed(
                g,
                start@,
                #[trigger] heap@[e],
            ) by {
                if e < at {
                    assert(heap@[e] == pile[e]);
                } else {
                    assert(heap@[e] == pile[e + 1]);
                }
            }
            assert forall|k: int| 0 <= k < all.len() implies all.contains(#[trigger] all[k]) by {}
            lemma_unseen(all, seen, all, seen);
        }
        if contains_name(&visited, taken.node.as_str()) {
            proof {
                lemma_skip(g, entries, start@, offers(pile), at, seen, least);
            }
        } else {
            proof {
                if non_negative(g) {
                    assert forall|route: Route| #[trigger] leads(
                        g,
                        start@,
                        route,
                        taken.node@,
                    ) implies taken.cost <= total(route, route.len()) by {
                        lemma_cheapest(g, entries, start@, offers(pile), at, seen, least, route);
                    }
                }
            }
            if same_text(taken.node.as_str(), goal) {
                return (Some(taken.path), taken.cost);
            }
            visited.push(String::from_str(taken.node.as_str()));
            proof {
                lemma_accept(g, entries, start@, offers(pile), at, seen, least);
                least = least.insert(taken.node@, taken.cost as int);
                assert(texts(visited@) =~= seen.push(taken.node@));
            }
            relax(graph, &mut heap, &visited, &taken, Ghost(start@), Ghost(least));
        }
    }
    proof {
        assert(offers(heap@) =~= Seq::<Offer>::empty());
        assert forall|route: Route| !#[trigger] leads(g, start@, route, goal@) by {
            if leads(g, start@, route, goal@) {
                lemma_search_over(g, entries, start@, texts(visited@), least, route);
            }
        }
    }
    (None, i32::MAX)
}

/// The distances of a table: for each entry, its node and the distance
/// recorded for it.
pub open spec fn table(distances: Seq<(String, i32)>) -> Seq<Offer> {
    distances.map_values(|e: (String, i32)| (e.0@, e.1 as int))
}

/// The offers that the entries of the heap make.
pub open spec fn heap_offers(heap: Seq<(i32, String)>) -> Seq<Offer> {
    heap.map_values(|e: (i32, String)| (e.1@, e.0 as int))
}

/// Whether the table has an entry for the node.
pub open spec fn listed(table: Seq<Offer>, node: Seq<char>) -> bool {
    exists|i: int| 0 <= i < table.len() && (#[trigger] table[i]).0 == node
}

/// Whether the table has an entry for the node with a distance of at most
/// `bound`.
pub open spec fn listed_within(table: Seq<Offer>, node: Seq<char>, bound: int) -> bool {
    exists|i: int| 0 <= i < table.len() && (#[trigger] table[i]).0 == node && table[i].1 <= bound
}

/// Whether some route from `start` leads to `node` at the cost `cost`.
pub open spec fn reached_at(g: WeightedModel, start: Seq<char>, node: Seq<char>, cost: int) -> bool {
    exists|route: Route|
        #![trigger leads(g, start, route, node)]
        leads(g, start, route, node) && total(route, route.len()) == cost
}

/// Whether no node has two entries.
pub open spec fn keys_differ(table: Seq<Offer>) -> bool {
    forall|i: int, j: int|
        0 <= i < table.len() && 0 <= j < table.len() && i != j ==> (#[trigger] table[i]).0 != (
        #[trigger] table[j]).0
}

/// Whether the table of distances is in order: no node has two entries;
/// each distance is the largest there is, or the cost of a route to the
/// node; for each smaller distance the node has been seen or an offer of
/// no more than the distance waits; each offer is for a node of the table,
/// whose distance is no more than the offer; and every node that has been
/// seen is in the table, where no weight is negative with its least cost.
pub open spec fn table_ok(
    g: WeightedModel,
    start: Seq<char>,
    table: Seq<Offer>,
    queue: Seq<Offer>,
    seen: Seq<Seq<char>>,
    least: Map<Seq<char>, int>,
) -> bool {
    &&& keys_differ(table)
    &&& forall|i: int|
        0 <= i < table.len() ==> (#[trigger] table[i]).1 == i32::MAX || (table[i].1 < i32::MAX
            && reached_at(g, start, table[i].0, table[i].1))
    &&& forall|i: int|
        0 <= i < table.len() && (#[trigger] table[i]).1 < i32::MAX ==> seen.contains(table[i].0)
            || offered(queue, table[i].0, table[i].1)
    &&& forall|e: int|
        0 <= e < queue.len() ==> listed_within(table, (#[trigger] queue[e]).0, queue[e].1)
    &&& forall|u: Seq<char>| #![trigger seen.contains(u)] seen.contains(u) ==> listed(table, u)
    &&& forall|i: int|
        0 <= i < table.len() && seen.contains((#[trigger] table[i]).0) ==> table[i].1 < i32::MAX
    &&& non_negative(g) ==> forall|i: int|
        0 <= i < table.len() && seen.contains((#[trigger] table[i]).0) ==> table[i].1
            == least[table[i].0]
}

/// Taking out an offer for a node that has been seen leaves the table in
/// order.
pub proof fn lemma_table_skip(
    g: WeightedModel,
    start: Seq<char>,
    table: Seq<Offer>,
    pile: Seq<Offer>,
    at: int,
    seen: Seq<Seq<char>>,
    least: Map<Seq<char>, int>,
)
    requires
        table_ok(g, start, table, pile, seen, least),
        0 <= at < pile.len(),
        seen.contains(pile[at].0),
    ensures
        table_ok(g, start, table, pile.remove(at), seen, least),
{
    let queue = pile.remove(at);
    assert forall|e: int| 0 <= e < queue.len() implies (#[trigger] queue[e]) == pile[if e < at {
        e
    } else {
        e + 1
    }] by {}
    assert forall|i: int|
        0 <= i < table.len() && (#[trigger] table[i]).1 < i32::MAX implies seen.contains(
        table[i].0,
    ) || offered(queue, table[i].0, table[i].1) by {
        if table[i].0 != pile[at].0 {
            lemma_taken_out(pile, at, table[i].0, table[i].1);
        }
    }
}

/// Seeing the node of the cheapest offer at the cost of the offer leaves
/// the table in order.
pub proof fn lemma_table_accept(
    g: WeightedModel,
    entries: Seq<(String, Vec<(String, i32)>)>,
    start: Seq<char>,
    table: Seq<Offer>,
    pile: Seq<Offer>,
    at: int,
    seen: Seq<Seq<char>>,
    least: Map<Seq<char>, int>,
)
    requires
        search_ok(g, entries, start, pile, seen, least),
        table_ok(g, start, table, pile, seen, least),
        0 <= at < pile.len(),
        forall|j: int| 0 <= j < pile.len() ==> pile[at].1 <= (#[trigger] pile[j]).1,
        !seen.contains(pile[at].0),
    ensures
        table_ok(
            g,
            start,
            table,
            pile.remove(at),
            seen.push(pile[at].0),
            least.insert(pile[at].0, pile[at].1),
        ),
{
    let queue = pile.remove(at);
    let node = pile[at].0;
    let cost = pile[at].1;
    let seen2 = seen.push(node);
    let least2 = least.insert(node, cost);
    assert forall|e: int| 0 <= e < queue.len() implies (#[trigger] queue[e]) == pile[if e < at {
        e
    } else {
        e + 1
    }] by {}
    assert(seen2[seen.len() as int] == node);
    assert forall|v: Seq<char>| seen.contains(v) implies #[trigger] seen2.contains(v) by {
        let i = choose|i: int| 0 <= i < seen.len() && seen[i] == v;
        assert(seen2[i] == v);
    }
    assert forall|v: Seq<char>| #[trigger] seen2.contains(v) implies seen.contains(v) || v
        == node by {
        let i = choose|i: int| 0 <= i < seen2.len() && seen2[i] == v;
        if i < seen.len() {
            assert(seen[i] == v);
        }
    }
    assert forall|i: int|
        0 <= i < table.len() && (#[trigger] table[i]).1 < i32::MAX implies seen2.contains(
        table[i].0,
    ) || offered(queue, table[i].0, table[i].1) by {
        if table[i].0 != node {
            lemma_taken_out(pile, at, table[i].0, table[i].1);
        }
    }
    assert(listed_within(table, pile[at].0, pile[at].1));
    assert forall|u: Seq<char>| #![trigger seen2.contains(u)] seen2.contains(u) implies listed(
        table,
        u,
    ) by {
        if u == node {
            let i = choose|i: int|
                0 <= i < table.len() && (#[trigger] table[i]).0 == node && table[i].1 <= cost;
        }
    }
    assert(offer_ok(g, entries, start, seen.len() as int, pile[at]));
    let backing = choose|r: Route| #[trigger] backed(g, entries, start, seen.len() as int, pile[at], r);
    lemma_span_fits(entries, start, seen, backing.len() as int);
    assert(cost < i32::MAX);
    assert forall|i: int|
        0 <= i < table.len() && seen2.contains((#[trigger] table[i]).0) implies table[i].1
        < i32::MAX by {
        if table[i].0 == node {
            let j = choose|j: int|
                0 <= j < table.len() && (#[trigger] table[j]).0 == node && table[j].1 <= cost;
            assert(i == j);
        } else {
            assert(seen.contains(table[i].0));
        }
    }
    if non_negative(g) {
        assert forall|i: int|
            0 <= i < table.len() && seen2.contains((#[trigger] table[i]).0) implies table[i].1
            == least2[table[i].0] by {
            if table[i].0 == node {
                let j = choose|j: int|
                    0 <= j < table.len() && (#[trigger] table[j]).0 == node && table[j].1 <= cost;
                assert(i == j);
                assert(table[i].1 < i32::MAX);
                let route = choose|route: Route|
                    #![trigger leads(g, start, route, node)]
                    leads(g, start, route, node) && total(route, route.len()) == table[i].1;
                lemma_cheapest(g, entries, start, pile, at, seen, least, route);
            } else {
                assert(seen.contains(table[i].0));
            }
        }
    }
}

/// The span of as many edges as nodes have been seen keeps within the range
/// of costs.
pub proof fn lemma_span_fits(
    entries: Seq<(String, Vec<(String, i32)>)>,
    start: Seq<char>,
    seen: Seq<Seq<char>>,
    hops: int,
)
    requires
        seen.no_duplicates(),
        all_among(seen, names(entries, start)),
        0 <= hops <= seen.len(),
    ensures
        0 <= span(entries, hops) <= i32::MAX - 1,
{
    lemma_distinct_within(seen, names(entries, start));
    if hops == 0 {
        assert(span(entries, 0) == 0) by (nonlinear_arith)
            requires
                span(entries, 0) == 0 * weight_cap(entries),
        ;
    } else {
        lemma_span(entries, start, hops - 1);
    }
}

/// Recording a smaller distance for a node that has not been seen, and
/// letting an offer of that distance wait, leaves the table in order.
pub proof fn lemma_table_improve(
    g: WeightedModel,
    start: Seq<char>,
    table: Seq<Offer>,
    queue: Seq<Offer>,
    seen: Seq<Seq<char>>,
    least: Map<Seq<char>, int>,
    at: int,
    offer: Offer,
)
    requires
        table_ok(g, start, table, queue, seen, least),
        0 <= at < table.len(),
        table[at].0 == offer.0,
        offer.1 < table[at].1,
        reached_at(g, start, offer.0, offer.1),
        non_negative(g) ==> !seen.contains(offer.0),
    ensures
        table_ok(g, start, table.update(at, offer), queue.push(offer), seen, least),
{
    let table2 = table.update(at, offer);
    let queue2 = queue.push(offer);
    assert forall|t: Seq<char>, bound: int| #[trigger] offered(queue, t, bound) implies offered(
        queue2,
        t,
        bound,
    ) by {
        lemma_put_in(queue, offer, t, bound);
    }
    lemma_put_in(queue, offer, offer.0, offer.1);
    assert forall|e: int| 0 <= e < queue2.len() implies listed_within(
        table2,
        (#[trigger] queue2[e]).0,
        queue2[e].1,
    ) by {
        if e < queue.len() {
            assert(queue2[e] == queue[e]);
            let i = choose|i: int|
                0 <= i < table.len() && (#[trigger] table[i]).0 == queue[e].0 && table[i].1
                    <= queue[e].1;
            assert(table2[i].0 == queue[e].0 && table2[i].1 <= queue[e].1);
        } else {
            assert(table2[at].0 == offer.0 && table2[at].1 <= offer.1);
        }
    }
    assert forall|u: Seq<char>| #![trigger seen.contains(u)] seen.contains(u) implies listed(
        table2,
        u,
    ) by {
        let i = choose|i: int| 0 <= i < table.len() && (#[trigger] table[i]).0 == u;
        assert(table2[i].0 == u);
    }
    assert forall|i: int|
        0 <= i < table2.len() && (#[trigger] table2[i]).1 < i32::MAX implies seen.contains(
        table2[i].0,
    ) || offered(queue2, table2[i].0, table2[i].1) by {
        if i != at {
            assert(table2[i] == table[i]);
        }
    }
    assert forall|i: int| 0 <= i < table2.len() implies (#[trigger] table2[i]).1 == i32::MAX || (
    table2[i].1 < i32::MAX && reached_at(g, start, table2[i].0, table2[i].1)) by {
        if i != at {
            assert(table2[i] == table[i]);
        }
    }
    assert(keys_differ(table2)) by {
        assert forall|i: int, j: int|
            0 <= i < table2.len() && 0 <= j < table2.len() && i != j implies (
        #[trigger] table2[i]).0 != (#[trigger] table2[j]).0 by {
            assert(table2[i].0 == table[i].0);
            assert(table2[j].0 == table[j].0);
        }
    }
    assert forall|i: int|
        0 <= i < table2.len() && seen.contains((#[trigger] table2[i]).0) implies table2[i].1
        < i32::MAX by {
        if i != at {
            assert(table2[i] == table[i]);
        }
    }
    if non_negative(g) {
        assert forall|i: int|
            0 <= i < table2.len() && seen.contains((#[trigger] table2[i]).0) implies table2[i].1
            == least[table2[i].0] by {
            assert(i != at);
            assert(table2[i] == table[i]);
        }
    }
}

/// Recording a distance for a node that has no entry, and letting an offer
/// of that distance wait, leaves the table in order.
pub proof fn lemma_table_extend(
    g: WeightedModel,
    start: Seq<char>,
    table: Seq<Offer>,
    queue: Seq<Offer>,
    seen: Seq<Seq<char>>,
    least: Map<Seq<char>, int>,
    offer: Offer,
)
    requires
        table_ok(g, start, table, queue, seen, least),
        !listed(table, offer.0),
        offer.1 < i32::MAX,
        reached_at(g, start, offer.0, offer.1),
    ensures
        table_ok(g, start, table.push(offer), queue.push(offer), seen, least),
{
    let table2 = table.push(offer);
    let queue2 = queue.push(offer);
    assert forall|t: Seq<char>, bound: int| #[trigger] offered(queue, t, bound) implies offered(
        queue2,
        t,
        bound,
    ) by {
        lemma_put_in(queue, offer, t, bound);
    }
    lemma_put_in(queue, offer, offer.0, offer.1);
    assert forall|e: int| 0 <= e < queue2.len() implies listed_within(
        table2,
        (#[trigger] queue2[e]).0,
        queue2[e].1,
    ) by {
        if e < queue.len() {
            assert(queue2[e] == queue[e]);
            let i = choose|i: int|
                0 <= i < table.len() && (#[trigger] table[i]).0 == queue[e].0 && table[i].1
                    <= queue[e].1;
            assert(table2[i].0 == queue[e].0 && table2[i].1 <= queue[e].1);
        } else {
            assert(table2[table.len() as int] == offer);
        }
    }
    assert forall|u: Seq<char>| #![trigger seen.contains(u)] seen.contains(u) implies listed(
        table2,
        u,
    ) by {
        let i = choose|i: int| 0 <= i < table.len() && (#[trigger] table[i]).0 == u;
        assert(table2[i].0 == u);
    }
    assert forall|i: int|
        0 <= i < table2.len() && (#[trigger] table2[i]).1 < i32::MAX implies seen.contains(
        table2[i].0,
    ) || offered(queue2, table2[i].0, table2[i].1) by {
        if i < table.len() {
            assert(table2[i] == table[i]);
        }
    }
    assert forall|i: int| 0 <= i < table2.len() implies (#[trigger] table2[i]).1 == i32::MAX || (
    table2[i].1 < i32::MAX && reached_at(g, start, table2[i].0, table2[i].1)) by {
        if i < table.len() {
            assert(table2[i] == table[i]);
        }
    }
    assert(keys_differ(table2)) by {
        assert forall|i: int, j: int|
            0 <= i < table2.len() && 0 <= j < table2.len() && i != j implies (
        #[trigger] table2[i]).0 != (#[trigger] table2[j]).0 by {
            if i < table.len() {
                assert(table2[i] == table[i]);
            }
            if j < table.len() {
                assert(table2[j] == table[j]);
            }
        }
    }
    assert forall|i: int|
        0 <= i < table2.len() && seen.contains((#[trigger] table2[i]).0) implies table2[i].1
        < i32::MAX by {
        if i < table.len() {
            assert(table2[i] == table[i]);
        }
    }
    if non_negative(g) {
        assert forall|i: int|
            0 <= i < table2.len() && seen.contains((#[trigger] table2[i]).0) implies table2[i].1
            == least[table2[i].0] by {
            if i < table.len() {
                assert(table2[i] == table[i]);
            } else {
                assert(listed(table, offer.0));
            }
        }
    }
}

/// An entry with the largest distance, for a node that has none, leaves a
/// table in order in which no distance is smaller, before the search
/// begins.
pub proof fn lemma_table_blank(
    g: WeightedModel,
    start: Seq<char>,
    table: Seq<Offer>,
    node: Seq<char>,
)
    requires
        table_ok(g, start, table, Seq::empty(), Seq::empty(), Map::empty()),
        !listed(table, node),
        forall|i: int| 0 <= i < table.len() ==> (#[trigger] table[i]).1 == i32::MAX,
    ensures
        table_ok(
            g,
            start,
            table.push((node, i32::MAX as int)),
            Seq::empty(),
            Seq::empty(),
            Map::empty(),
        ),
        forall|i: int|
            0 <= i < table.len() + 1 ==> (#[trigger] table.push((node, i32::MAX as int))[i]).1
                == i32::MAX,
        forall|v: Seq<char>|
            listed(table, v) || v == node ==> #[trigger] listed(
                table.push((node, i32::MAX as int)),
                v,
            ),
{
    let table2 = table.push((node, i32::MAX as int));
    let none: Seq<Seq<char>> = Seq::empty();
    assert forall|i: int| 0 <= i < table2.len() implies (#[trigger] table2[i]).1 == i32::MAX by {
        if i < table.len() {
            assert(table2[i] == table[i]);
        }
    }
    assert(keys_differ(table2)) by {
        assert forall|i: int, j: int|
            0 <= i < table2.len() && 0 <= j < table2.len() && i != j implies (
        #[trigger] table2[i]).0 != (#[trigger] table2[j]).0 by {
            if i < table.len() {
                assert(table2[i] == table[i]);
            }
            if j < table.len() {
                assert(table2[j] == table[j]);
            }
        }
    }
    assert forall|v: Seq<char>| listed(table, v) || v == node implies #[trigger] listed(
        table2,
        v,
    ) by {
        if listed(table, v) {
            let i = choose|i: int| 0 <= i < table.len() && (#[trigger] table[i]).0 == v;
            assert(table2[i].0 == v);
        } else {
            assert(table2[table.len() as int].0 == v);
        }
    }
    assert forall|u: Seq<char>| #![trigger none.contains(u)] !none.contains(u) by {}
}

/// The place of the entry for `name`, if there is one.
fn find_distance(distances: &Vec<(String, i32)>, name: &str) -> (found: Option<usize>)
    ensures
        match found {
            Some(i) => i < distances@.len() && table(distances@)[i as int].0 == name@,
            None => !listed(table(distances@), name@),
        },
{
    let mut i: usize = 0;
    while i < distances.len()
        invariant
            i <= distances.len(),
            forall|j: int| 0 <= j < i ==> (#[trigger] table(distances@)[j]).0 != name@,
        decreases distances.len() - i,
    {
        assert(table(distances@)[i as int].0 == distances@[i as int].0@);
        if same_text(distances[i].0.as_str(), name) {
            return Some(i);
        }
        i += 1;
    }
    None
}

/// Takes the entry of least cost out of the entries that wait: of those of
/// least cost, the one that has waited longest.
fn pop_nearest(heap: &mut Vec<(i32, String)>) -> (least: Option<((i32, String), Ghost<int>)>)
    ensures
        match least {
            Some((entry, at)) => {
                &&& 0 <= at@ < old(heap)@.len()
                &&& heap_offers(old(heap)@)[at@] == (entry.1@, entry.0 as int)
                &&& heap_offers(final(heap)@) == heap_offers(old(heap)@).remove(at@)
                &&& final(heap)@.len() == old(heap)@.len() - 1
                &&& forall|j: int|
                    0 <= j < old(heap)@.len() ==> entry.0 <= (#[trigger] heap_offers(
                        old(heap)@,
                    )[j]).1
            },
            None => old(heap)@.len() == 0 && final(heap)@ == old(heap)@,
        },
{
    if heap.len() == 0 {
        return None;
    }
    let mut best: usize = 0;
    let mut i: usize = 1;
    while i < heap.len()
        invariant
            1 <= i <= heap.len(),
            best < i,
            forall|j: int| 0 <= j < i ==> heap@[best as int].0 <= (#[trigger] heap@[j]).0,
        decreases heap.len() - i,
    {
        if heap[i].0 < heap[best].0 {
            best = i;
        }
        i += 1;
    }
    let ghost before = heap@;
    let entry = heap.remove(best);
    proof {
        assert(before[best as int] == entry);
        assert(heap_offers(heap@) =~= heap_offers(before).remove(best as int));
        assert forall|j: int| 0 <= j < before.len() implies entry.0 <= (#[trigger] heap_offers(
            before,
        )[j]).1 by {
            assert(before[j].0 == heap_offers(before)[j].1);
        }
    }
    Some((entry, Ghost(best as int)))
}

/// Looks at the edges of `node`, which has just been seen at `cost`: where
/// the cost and the weight of an edge are less than the distance recorded
/// for the node that the edge leads to, they are recorded in its place, and
/// an entry for that node waits from now on.
fn relax_distances(
    graph: &WeightedGraph,
    heap: &mut Vec<(i32, String)>,
    distances: &mut Vec<(String, i32)>,
    visited: &Vec<String>,
    node: &str,
    cost: i32,
    Ghost(start): Ghost<Seq<char>>,
    Ghost(least): Ghost<Map<Seq<char>, int>>,
)
    requires
        weights_fit(graph.entries@),
        relaxing(
            graph@,
            graph.entries@,
            start,
            heap_offers(old(heap)@),
            texts(visited@),
            least,
            node@,
            cost as int,
            0,
        ),
        table_ok(
            graph@,
            start,
            table(old(distances)@),
            heap_offers(old(heap)@),
            texts(visited@),
            least,
        ),
    ensures
        search_ok(
            graph@,
            graph.entries@,
            start,
            heap_offers(final(heap)@),
            texts(visited@),
            least,
        ),
        table_ok(
            graph@,
            start,
            table(final(distances)@),
            heap_offers(final(heap)@),
            texts(visited@),
            least,
        ),
        forall|v: Seq<char>|
            listed(table(old(distances)@), v) ==> #[trigger] listed(table(final(distances)@), v),
{
    let ghost g = graph@;
    let ghost entries = graph.entries@;
    let ghost seen = texts(visited@);
    let ghost before = table(distances@);
    match graph.get(node) {
        Some(neighbors) => {
            let mut k: usize = 0;
            while k < neighbors.len()
                invariant
                    g == graph@,
                    entries == graph.entries@,
                    seen == texts(visited@),
                    weights_fit(entries),
                    k <= neighbors.len(),
                    arcs(g, node@) == arcs_of(neighbors@),
                    relaxing(
                        g,
                        entries,
                        start,
                        heap_offers(heap@),
                        seen,
                        least,
                        node@,
                        cost as int,
                        k as int,
                    ),
                    table_ok(g, start, table(distances@), heap_offers(heap@), seen, least),
                    forall|v: Seq<char>|
                        listed(before, v) ==> #[trigger] listed(table(distances@), v),
                decreases neighbors.len() - k,
            {
                let neighbor = neighbors[k].0.as_str();
                let weight = neighbors[k].1;
                let ghost arc: Arc = (neighbor@, weight as int);
                let ghost queue = heap_offers(heap@);
                let ghost known = table(distances@);
                proof {
                    assert(arcs(g, node@)[k as int] == arc);
                    lemma_sum_fits(g, entries, start, queue, seen, node@, cost as int, k as int, k as int);
                    let offer: Offer = (arc.0, cost + arc.1);
                    assert(offer_ok(g, entries, start, seen.len() as int, offer));
                    let route = choose|route: Route|
                        #[trigger] backed(g, entries, start, seen.len() as int, offer, route);
                    assert(leads(g, start, route, offer.0) && total(route, route.len()) == offer.1);
                    assert(reached_at(g, start, offer.0, offer.1));
                }
                let new_dist: i32 = cost + weight;
                let ghost offer: Offer = (neighbor@, new_dist as int);
                match find_distance(distances, neighbor) {
                    Some(i) => {
                        if new_dist < distances[i].1 {
                            proof {
                                assert(known[i as int].1 == distances@[i as int].1);
                                if non_negative(g) && seen.contains(neighbor@) {
                                    let route = choose|route: Route|
                                        #![trigger leads(g, start, route, offer.0)]
                                        leads(g, start, route, offer.0) && total(
                                            route,
                                            route.len(),
                                        ) == offer.1;
                                    assert(least[neighbor@] <= total(route, route.len()));
                                    assert(known[i as int].1 == least[known[i as int].0]);
                                }
                                lemma_push(g, entries, start, queue, seen, least, node@, cost as int, k as int);
                                lemma_table_improve(g, start, known, queue, seen, least, i as int, offer);
                            }
                            distances.set(i, (String::from_str(neighbor), new_dist));
                            heap.push((new_dist, String::from_str(neighbor)));
                            proof {
                                assert(table(distances@) =~= known.update(i as int, offer));
                                assert(heap_offers(heap@) =~= queue.push(offer));
                                assert forall|v: Seq<char>| listed(before, v) implies #[trigger] listed(
                                    table(distances@),
                                    v,
                                ) by {
                                    assert(listed(known, v));
                                    let j = choose|j: int|
                                        0 <= j < known.len() && (#[trigger] known[j]).0 == v;
                                    assert(table(distances@)[j].0 == v);
                                }
                            }
                        } else {
                            proof {
                                assert(known[i as int].1 == distances@[i as int].1);
                                assert(known[i as int].1 < i32::MAX);
                                if !seen.contains(neighbor@) {
                                    assert(offered(queue, known[i as int].0, known[i as int].1));
                                    let e = choose|e: int|
                                        0 <= e < queue.len() && (#[trigger] queue[e]).0
                                            == known[i as int].0 && queue[e].1
                                            <= known[i as int].1;
                                    assert(queue[e].0 == arc.0 && queue[e].1 <= cost + arc.1);
                                    assert(offered(queue, arc.0, cost + arc.1));
                                }
                                lemma_pass(g, entries, start, queue, seen, least, node@, cost as int, k as int);
                            }
                        }
                    },
                    None => {
                        proof {
                            lemma_push(g, entries, start, queue, seen, least, node@, cost as int, k as int);
                            lemma_table_extend(g, start, known, queue, seen, least, offer);
                        }
                        distances.push((String::from_str(neighbor), new_dist));
                        heap.push((new_dist, String::from_str(neighbor)));
                        proof {
                            assert(table(distances@) =~= known.push(offer));
                            assert(heap_offers(heap@) =~= queue.push(offer));
                            assert forall|v: Seq<char>| listed(before, v) implies #[trigger] listed(
                                table(distances@),
                                v,
                            ) by {
                                assert(listed(known, v));
                                let j = choose|j: int|
                                    0 <= j < known.len() && (#[trigger] known[j]).0 == v;
                                assert(table(distances@)[j].0 == v);
                            }
                        }
                    },
                }
                k += 1;
            }
            proof {
                lemma_relaxed(
                    g,
                    entries,
                    start,
                    heap_offers(heap@),
                    seen,
                    least,
                    node@,
                    cost as int,
                    k as int,
                );
            }
        },
        None => {
            proof {
                assert(arcs(g, node@).len() == 0);
                lemma_relaxed(
                    g,
                    entries,
                    start,
                    heap_offers(heap@),
                    seen,
                    least,
                    node@,
                    cost as int,
                    0,
                );
            }
        },
    }
}

/// Whether the distances are those from `start`: no node has two entries;
/// every node with edges of its own has one, and so have `start` and every
/// node that a route from `start` leads to; the distance of a node is the
/// cost of a route from `start` to it, or the largest there is where no
/// route leads to it; and where no weight is negative, no route to the node
/// costs less.
pub open spec fn distances_from(g: WeightedModel, start: Seq<char>, table: Seq<Offer>) -> bool {
    &&& keys_differ(table)
    &&& listed(table, start)
    &&& forall|node: Seq<char>| g.dom().contains(node) ==> #[trigger] listed(table, node)
    &&& forall|route: Route|
        #[trigger] is_route(g, start, route) ==> listed(
            table,
            stop(start, route, route.len() as int),
        )
    &&& forall|i: int|
        0 <= i < table.len() && (#[trigger] table[i]).1 != i32::MAX ==> table[i].1 < i32::MAX
            && reached_at(g, start, table[i].0, table[i].1)
    &&& forall|i: int, route: Route|
        0 <= i < table.len() && (#[trigger] table[i]).1 == i32::MAX ==> !#[trigger] leads(
            g,
            start,
            route,
            table[i].0,
        )
    &&& non_negative(g) ==> forall|i: int, route: Route|
        0 <= i < table.len() && #[trigger] leads(g, start, route, (#[trigger] table[i]).0)
            ==> table[i].1 <= total(route, route.len())
}

/// The distance from `start` of each node that has edges of its own or can
/// be reached from `start`: the cost of a route to it, which where no
/// weight is negative is the least cost of any, or the largest cost there
/// is where no route leads to it. The order of the entries says nothing.
///
/// The weights have to keep within the cap, so that no sum of weights
/// along a path leaves the range of costs.
pub fn dijkstra_all_paths(graph: &WeightedGraph, start: &str) -> (distances: Vec<(String, i32)>)
    requires
        weights_fit(graph.entries@),
    ensures
        distances_from(graph@, start@, table(distances@)),
{
    let ghost g = graph@;
    let ghost entries = graph.entries@;
    let ghost all = names(entries, start@);
    let ghost none: Seq<Seq<char>> = Seq::empty();
    let ghost mut least: Map<Seq<char>, int> = Map::empty();
    let mut distances: Vec<(String, i32)> = Vec::new();
    let mut heap: Vec<(i32, String)> = Vec::new();
    let mut visited: Vec<String> = Vec::new();
    proof {
        assert(table(distances@) =~= Seq::<Offer>::empty());
        assert(heap_offers(heap@) =~= Seq::<Offer>::empty());
        assert forall|u: Seq<char>| #![trigger none.contains(u)] !none.contains(u) by {}
    }
    let mut i: usize = 0;
    while i < graph.entries.len()
        invariant
            g == graph@,
            entries == graph.entries@,
            i <= graph.entries.len(),
            table_ok(g, start@, table(distances@), Seq::empty(), Seq::empty(), Map::empty()),
            forall|j: int| 0 <= j < distances@.len() ==> (#[trigger] table(distances@)[j]).1 == i32::MAX,
            forall|j: int| 0 <= j < i ==> listed(table(distances@), #[trigger] entries[j].0@),
        decreases graph.entries.len() - i,
    {
        let key = graph.entries[i].0.as_str();
        let ghost known = table(distances@);
        if find_distance(&distances, key).is_none() {
            proof {
                lemma_table_blank(g, start@, known, key@);
            }
            distances.push((String::from_str(key), i32::MAX));
            proof {
                assert(table(distances@) =~= known.push((key@, i32::MAX as int)));
            }
        }
        i += 1;
    }
    let ghost known = table(distances@);
    proof {
        let nothing: Route = Seq::empty();
        assert(leads(g, start@, nothing, start@));
        assert(reached_at(g, start@, start@, 0));
        lemma_search_begins(g, entries, start@);
    }
    match find_distance(&distances, start) {
        Some(at) => {
            proof {
                lemma_table_improve(
                    g,
                    start@,
                    known,
                    Seq::empty(),
                    Seq::empty(),
                    Map::empty(),
                    at as int,
                    (start@, 0int),
                );
            }
            distances.set(at, (String::from_str(start), 0));
            proof {
                assert(table(distances@) =~= known.update(at as int, (start@, 0int)));
                assert(table(distances@)[at as int].0 == start@);
            }
        },
        None => {
            proof {
                lemma_table_extend(
                    g,
                    start@,
                    known,
                    Seq::empty(),
                    Seq::empty(),
                    Map::empty(),
                    (start@, 0int),
                );
            }
            distances.push((String::from_str(start), 0));
            proof {
                assert(table(distances@) =~= known.push((start@, 0int)));
                assert(table(distances@)[known.len() as int].0 == start@);
            }
        },
    }
    heap.push((0, String::from_str(start)));
    proof {
        assert(heap_offers(heap@) =~= Seq::<Offer>::empty().push((start@, 0int)));
        assert(heap_offers(heap@) =~= seq![(start@, 0int)]);
        assert(texts(visited@) =~= Seq::<Seq<char>>::empty());
        assert forall|v: Seq<char>| listed(known, v) implies #[trigger] listed(
            table(distances@),
            v,
        ) by {
            let j = choose|j: int| 0 <= j < known.len() && (#[trigger] known[j]).0 == v;
            assert(table(distances@)[j].0 == v);
        }
        assert forall|node: Seq<char>| g.dom().contains(node) implies #[trigger] listed(
            table(distances@),
            node,
        ) by {
            lemma_arcs_listed(entries, entries.len(), node);
            let j = choose|j: int| 0 <= j < entries.len() && #[trigger] entries[j].0@ == node;
            assert(listed(known, entries[j].0@));
        }
    }
    while heap.len() > 0
        invariant
            g == graph@,
            entries == graph.entries@,
            all == names(entries, start@),
            weights_fit(entries),
            search_ok(g, entries, start@, heap_offers(heap@), texts(visited@), least),
            table_ok(g, start@, table(distances@), heap_offers(heap@), texts(visited@), least),
            listed(table(distances@), start@),
            forall|node: Seq<char>| g.dom().contains(node) ==> #[trigger] listed(
                table(distances@),
                node,
            ),
        decreases unseen(all, texts(visited@)), heap@.len(),
    {
        let ghost pile = heap_offers(heap@);
        let ghost seen = texts(visited@);
        let (taken, Ghost(at)) = match pop_nearest(&mut heap) {
            Some(least) => least,
            None => {
                return distances;
            },
        };
        let cost = taken.0;
        let node = taken.1;
        proof {
            assert forall|k: int| 0 <= k < all.len() implies all.contains(#[trigger] all[k]) by {}
            lemma_unseen(all, seen, all, seen);
        }
        if contains_name(&visited, node.as_str()) {
            proof {
                lemma_skip(g, entries, start@, pile, at, seen, least);
                lemma_table_skip(g, start@, table(distances@), pile, at, seen, least);
            }
        } else {
            visited.push(String::from_str(node.as_str()));
            proof {
                lemma_accept(g, entries, start@, pile, at, seen, least);
                lemma_table_accept(g, entries, start@, table(distances@), pile, at, seen, least);
                least = least.insert(node@, cost as int);
                assert(texts(visited@) =~= seen.push(node@));
            }
            relax_distances(
                graph,
                &mut heap,
                &mut distances,
                &visited,
                node.as_str(),
                cost,
                Ghost(start@),
                Ghost(least),
            );
        }
    }
    proof {
        let seen = texts(visited@);
        let last = table(distances@);
        assert(heap_offers(heap@) =~= Seq::<Offer>::empty());
        assert forall|route: Route| #[trigger] is_route(g, start@, route) implies listed(
            last,
            stop(start@, route, route.len() as int),
        ) by {
            lemma_search_over(g, entries, start@, seen, least, route);
        }
        assert forall|i: int, route: Route|
            0 <= i < last.len() && (#[trigger] last[i]).1 == i32::MAX implies !#[trigger] leads(
            g,
            start@,
            route,
            last[i].0,
        ) by {
            if leads(g, start@, route, last[i].0) {
                lemma_search_over(g, entries, start@, seen, least, route);
            }
        }
        if non_negative(g) {
            assert forall|i: int, route: Route|
                0 <= i < last.len() && #[trigger] leads(
                    g,
                    start@,
                    route,
                    (#[trigger] last[i]).0,
                ) implies last[i].1 <= total(route, route.len()) by {
                lemma_search_over(g, entries, start@, seen, least, route);
            }
        }
    }
    distances
}

} // verus!
