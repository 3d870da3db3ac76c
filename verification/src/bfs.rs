//! Breadth-first search: the nodes nearest to the start first.

use crate::expr::{copy_names, same_text, texts};
use crate::graph::{
    all_among, closed, connects, contains_name, edge, is_walk, lemma_all_settled,
    lemma_among_more,
    lemma_closed_holds_reachable, lemma_contains_concat, lemma_distinct_within,
    lemma_extend_path, lemma_join_paths, lemma_seen_more, lemma_successors_mentioned,
    mentioned, queued, reachable, settled, settled_upto, successors, Graph, GraphModel,
};
use std::collections::VecDeque;
use vstd::prelude::*;
use vstd::string::StringExecFns;

verus! {

/// Whether each path in the queue leads from `start` to the node that it
/// is queued for, and that node has been seen.
pub open spec fn paths_lead(
    g: GraphModel,
    queue: Seq<(String, Vec<String>)>,
    seen: Seq<Seq<char>>,
    start: Seq<char>,
) -> bool {
    forall|e: int|
        0 <= e < queue.len() ==> connects(g, texts((#[trigger] queue[e]).1@), start, queue[e].0@)
            && seen.contains(queue[e].0@)
}

/// Whether every node that has been seen, but for `current`, waits in the
/// queue or is settled.
pub open spec fn others_settled(
    g: GraphModel,
    queue: Seq<(String, Vec<String>)>,
    seen: Seq<Seq<char>>,
    current: Option<Seq<char>>,
) -> bool {
    forall|v: Seq<char>|
        #![trigger seen.contains(v)]
        seen.contains(v) && current != Some(v) ==> queued(queue, v) || settled(g, seen, v)
}

/// Whether every path from `start` to `node` has at least `n` nodes.
pub open spec fn no_shorter(g: GraphModel, start: Seq<char>, node: Seq<char>, n: int) -> bool {
    forall|w: Seq<Seq<char>>| #[trigger] connects(g, w, start, node) ==> n <= w.len()
}

/// Whether every node that a path of at most `n` nodes leads to from
/// `start` has been seen.
pub open spec fn near_seen(g: GraphModel, start: Seq<char>, seen: Seq<Seq<char>>, n: int) -> bool {
    forall|w: Seq<Seq<char>>, v: Seq<char>|
        #[trigger] connects(g, w, start, v) && w.len() <= n ==> seen.contains(v)
}

/// Whether no path in the queue has more nodes than any path to its node.
pub open spec fn paths_shortest(
    g: GraphModel,
    queue: Seq<(String, Vec<String>)>,
    start: Seq<char>,
) -> bool {
    forall|e: int|
        0 <= e < queue.len() ==> no_shorter(
            g,
            start,
            (#[trigger] queue[e]).0@,
            queue[e].1@.len() as int,
        )
}

/// Whether the paths in the queue have `low` nodes or one more, the
/// shorter ones first.
pub open spec fn lengths_rise(queue: Seq<(String, Vec<String>)>, low: int) -> bool {
    &&& forall|e: int| 0 <= e < queue.len() ==> low <= (#[trigger] queue[e]).1@.len() <= low + 1
    &&& forall|a: int, b: int|
        0 <= a <= b < queue.len() ==> (#[trigger] queue[a]).1@.len() <= (#[trigger] queue[b]).1@.len()
}

/// A node that has not been seen, while every node has that a path of at
/// most `n` nodes leads to, lies at the end of longer paths only.
pub proof fn lemma_unseen_far(
    g: GraphModel,
    start: Seq<char>,
    seen: Seq<Seq<char>>,
    n: int,
    node: Seq<char>,
)
    requires
        near_seen(g, start, seen, n),
        !seen.contains(node),
    ensures
        no_shorter(g, start, node, n + 1),
{
}

/// Where every node that has been seen is settled or waits with a path of
/// more than `n` nodes that is a shortest one, every node that a path of
/// `n + 1` nodes leads to has been seen if every node has that a path of
/// `n` leads to.
pub proof fn lemma_next_layer(
    g: GraphModel,
    start: Seq<char>,
    queue: Seq<(String, Vec<String>)>,
    seen: Seq<Seq<char>>,
    n: int,
)
    requires
        n >= 1,
        near_seen(g, start, seen, n),
        others_settled(g, queue, seen, None),
        paths_shortest(g, queue, start),
        forall|e: int| 0 <= e < queue.len() ==> (#[trigger] queue[e]).1@.len() >= n + 1,
    ensures
        near_seen(g, start, seen, n + 1),
{
    assert forall|w: Seq<Seq<char>>, v: Seq<char>|
        #[trigger] connects(g, w, start, v) && w.len() <= n + 1 implies seen.contains(v) by {
        if w.len() == n + 1 && w.len() >= 2 {
            let short = w.drop_last();
            let u = w[w.len() - 2];
            assert forall|i: int| 0 <= i < short.len() - 1 implies edge(
                g,
                #[trigger] short[i],
                short[i + 1],
            ) by {
                assert(edge(g, w[i], w[i + 1]));
            }
            assert(connects(g, short, start, u));
            assert(seen.contains(u));
            if queued(queue, u) {
                let e = choose|e: int| 0 <= e < queue.len() && #[trigger] queue[e].0@ == u;
                assert(no_shorter(g, start, queue[e].0@, queue[e].1@.len() as int));
                assert(queue[e].1@.len() <= short.len());
            }
            assert(settled(g, seen, u));
            assert(edge(g, w[w.len() - 2], w[w.len() - 2 + 1]));
            let k = choose|k: int| 0 <= k < successors(g, u).len() && successors(g, u)[k] == v;
            assert(seen.contains(successors(g, u)[k]));
        }
    }
}

/// A path from `start` to `goal` with as few nodes as any, found by
/// visiting the nodes nearest to `start` first, each once, and the edges of
/// a node in the order of its entry; none if there is no path.
pub fn bfs_iterative(graph: &Graph, start: &str, goal: &str) -> (found: Option<Vec<String>>)
    ensures
        match found {
            Some(path) => connects(graph@, texts(path@), start@, goal@) && no_shorter(
                graph@,
                start@,
                goal@,
                path@.len() as int,
            ),
            None => !reachable(graph@, start@, goal@),
        },
        start@ == goal@ ==> (found matches Some(path) && texts(path@) == seq![start@]),
{
    let ghost g = graph@;
    if same_text(start, goal) {
        let mut path: Vec<String> = Vec::new();
        path.push(String::from_str(start));
        assert(texts(path@) =~= seq![start@]);
        return Some(path);
    }
    let ghost all = mentioned(graph.entries@, graph.entries@.len()) + seq![start@];
    let mut queue: VecDeque<(String, Vec<String>)> = VecDeque::new();
    let mut visited: Vec<String> = Vec::new();
    let mut first: Vec<String> = Vec::new();
    first.push(String::from_str(start));
    queue.push_back((String::from_str(start), first));
    visited.push(String::from_str(start));
    proof {
        assert(texts(first@) =~= seq![start@]);
        assert(texts(visited@) =~= seq![start@]);
        assert(texts(visited@)[0] == start@);
        assert(queue@[0].0@ == start@);
        assert(queued(queue@, start@));
        lemma_among_more(Seq::empty(), mentioned(graph.entries@, graph.entries@.len()), seq![start@]);
        assert(queue@[0].1@.len() == 1);
        assert forall|w: Seq<Seq<char>>, v: Seq<char>|
            #[trigger] connects(g, w, start@, v) && w.len() <= 1 implies texts(visited@).contains(
            v,
        ) by {}
    }
    while queue.len() > 0
        invariant
            g == graph@,
            all == mentioned(graph.entries@, graph.entries@.len()) + seq![start@],
            start@ != goal@,
            texts(visited@).no_duplicates(),
            all_among(texts(visited@), all),
            texts(visited@).contains(start@),
            !texts(visited@).contains(goal@),
            paths_lead(g, queue@, texts(visited@), start@),
            others_settled(g, queue@, texts(visited@), None),
            paths_shortest(g, queue@, start@),
            queue@.len() > 0 ==> near_seen(
                g,
                start@,
                texts(visited@),
                queue@[0].1@.len() as int,
            ) && lengths_rise(queue@, queue@[0].1@.len() as int),
        decreases all.len() - visited@.len() + queue@.len(),
    {
        proof {
            lemma_distinct_within(texts(visited@), all);
        }
        let ghost before = all.len() - visited@.len() + queue@.len();
        let ghost waiting = queue@;
        let (node, path) = match queue.pop_front() {
            Some(entry) => entry,
            None => {
                return None;
            },
        };
        proof {
            assert(waiting[0].0 == node && waiting[0].1 == path);
            assert forall|v: Seq<char>|
                #![trigger texts(visited@).contains(v)]
                texts(visited@).contains(v) && Some(node@) != Some(v) implies queued(queue@, v)
                || settled(g, texts(visited@), v) by {
                if queued(waiting, v) {
                    let e = choose|e: int| 0 <= e < waiting.len() && #[trigger] waiting[e].0@ == v;
                    assert(queue@[e - 1] == waiting[e]);
                }
            }
            assert forall|e: int| 0 <= e < queue@.len() implies connects(
                g,
                texts((#[trigger] queue@[e]).1@),
                start@,
                queue@[e].0@,
            ) && texts(visited@).contains(queue@[e].0@) by {
                assert(queue@[e] == waiting[e + 1]);
            }
            assert forall|e: int| 0 <= e < queue@.len() implies no_shorter(
                g,
                start@,
                (#[trigger] queue@[e]).0@,
                queue@[e].1@.len() as int,
            ) by {
                assert(queue@[e] == waiting[e + 1]);
            }
            assert(lengths_rise(queue@, path@.len() as int)) by {
                assert forall|e: int| 0 <= e < queue@.len() implies path@.len() <= (
                #[trigger] queue@[e]).1@.len() <= path@.len() + 1 by {
                    assert(queue@[e] == waiting[e + 1]);
                    assert(waiting[0].1@.len() <= waiting[e + 1].1@.len());
                }
                assert forall|a: int, b: int| 0 <= a <= b < queue@.len() implies (
                #[trigger] queue@[a]).1@.len() <= (#[trigger] queue@[b]).1@.len() by {
                    assert(queue@[a] == waiting[a + 1]);
                    assert(queue@[b] == waiting[b + 1]);
                    assert(waiting[a + 1].1@.len() <= waiting[b + 1].1@.len());
                }
            }
            assert(texts(path@).len() == path@.len());
        }
        let ghost hops = path@.len() as int;
        match graph.get(node.as_str()) {
            Some(neighbors) => {
                let mut i: usize = 0;
                while i < neighbors.len()
                    invariant
                        g == graph@,
                        all == mentioned(graph.entries@, graph.entries@.len()) + seq![start@],
                        start@ != goal@,
                        i <= neighbors.len(),
                        successors(g, node@) == texts(neighbors@),
                        connects(g, texts(path@), start@, node@),
                        texts(visited@).no_duplicates(),
                        all_among(texts(visited@), all),
                        texts(visited@).contains(start@),
                        texts(visited@).contains(node@),
                        !texts(visited@).contains(goal@),
                        paths_lead(g, queue@, texts(visited@), start@),
                        others_settled(g, queue@, texts(visited@), Some(node@)),
                        settled_upto(g, texts(visited@), node@, i as int),
                        all.len() - visited@.len() + queue@.len() == before - 1,
                        hops == path@.len(),
                        paths_shortest(g, queue@, start@),
                        near_seen(g, start@, texts(visited@), hops),
                        lengths_rise(queue@, hops),
                    decreases neighbors.len() - i,
                {
                    let neighbor = neighbors[i].as_str();
                    proof {
                        assert(texts(neighbors@)[i as int] == neighbor@);
                        assert(edge(g, node@, neighbor@));
                    }
                    if !contains_name(&visited, neighbor) {
                        if same_text(neighbor, goal) {
                            let mut result = copy_names(&path);
                            result.push(String::from_str(neighbor));
                            proof {
                                lemma_extend_path(g, texts(path@), start@, node@, neighbor@);
                                assert(texts(result@) =~= texts(path@).push(neighbor@));
                                lemma_unseen_far(g, start@, texts(visited@), hops, neighbor@);
                            }
                            return Some(result);
                        }
                        let ghost seen = texts(visited@);
                        let ghost held = queue@;
                        visited.push(String::from_str(neighbor));
                        let mut new_path = copy_names(&path);
                        new_path.push(String::from_str(neighbor));
                        queue.push_back((String::from_str(neighbor), new_path));
                        proof {
                            assert(texts(visited@) =~= seen.push(neighbor@));
                            assert(texts(new_path@) =~= texts(path@).push(neighbor@));
                            lemma_seen_more(g, seen, neighbor@);
                            lemma_unseen_far(g, start@, seen, hops, neighbor@);
                            assert(near_seen(g, start@, texts(visited@), hops));
                            assert forall|e: int| 0 <= e < queue@.len() implies no_shorter(
                                g,
                                start@,
                                (#[trigger] queue@[e]).0@,
                                queue@[e].1@.len() as int,
                            ) by {
                                if e < held.len() {
                                    assert(queue@[e] == held[e]);
                                }
                            }
                            assert(lengths_rise(queue@, hops)) by {
                                assert forall|e: int| 0 <= e < queue@.len() implies hops <= (
                                #[trigger] queue@[e]).1@.len() <= hops + 1 by {
                                    if e < held.len() {
                                        assert(queue@[e] == held[e]);
                                    }
                                }
                                assert forall|a: int, b: int|
                                    0 <= a <= b < queue@.len() implies (
                                #[trigger] queue@[a]).1@.len() <= (
                                #[trigger] queue@[b]).1@.len() by {
                                    if a < held.len() {
                                        assert(queue@[a] == held[a]);
                                    }
                                    if b < held.len() {
                                        assert(queue@[b] == held[b]);
                                    }
                                }
                            }
                            lemma_extend_path(g, texts(path@), start@, node@, neighbor@);
                            lemma_successors_mentioned(
                                graph.entries@,
                                graph.entries@.len(),
                                node@,
                            );
                            lemma_among_more(
                                successors(g, node@),
                                mentioned(graph.entries@, graph.entries@.len()),
                                seq![start@],
                            );
                            assert(all.contains(successors(g, node@)[i as int]));
                            assert(queue@[held.len() as int].0@ == neighbor@);
                            assert(queued(queue@, neighbor@));
                            assert forall|e: int| 0 <= e < queue@.len() implies connects(
                                g,
                                texts((#[trigger] queue@[e]).1@),
                                start@,
                                queue@[e].0@,
                            ) && texts(visited@).contains(queue@[e].0@) by {
                                if e < held.len() {
                                    assert(queue@[e] == held[e]);
                                }
                            }
                            assert forall|v: Seq<char>|
                                #![trigger texts(visited@).contains(v)]
                                texts(visited@).contains(v) && Some(node@) != Some(
                                    v,
                                ) implies queued(queue@, v) || settled(g, texts(visited@), v) by {
                                if v != neighbor@ {
                                    assert(seen.contains(v));
                                    if queued(held, v) {
                                        let e = choose|e: int|
                                            0 <= e < held.len() && #[trigger] held[e].0@ == v;
                                        assert(queue@[e] == held[e]);
                                    }
                                }
                            }
                        }
                    }
                    i += 1;
                }
                assert(settled(g, texts(visited@), node@));
            },
            None => {
                assert(successors(g, node@).len() == 0);
                assert(settled(g, texts(visited@), node@));
            },
        }
        proof {
            assert(others_settled(g, queue@, texts(visited@), None));
            if queue@.len() > 0 && queue@[0].1@.len() != hops {
                assert forall|e: int| 0 <= e < queue@.len() implies (#[trigger] queue@[e]).1@.len()
                    >= hops + 1 by {
                    assert(queue@[0].1@.len() <= queue@[e].1@.len());
                }
                lemma_next_layer(g, start@, queue@, texts(visited@), hops);
            }
        }
    }
    proof {
        assert forall|v: Seq<char>|
            #![trigger texts(visited@).contains(v)]
            texts(visited@).contains(v) implies settled(g, texts(visited@), v) by {
            if queued(queue@, v) {
            }
        }
        lemma_all_settled(g, texts(visited@), start@, goal@);
    }
    None
}

/// The nodes among the first `n` of `succs` that are not in `seen`, each
/// once, in their order.
pub open spec fn expand(succs: Seq<Seq<char>>, seen: Seq<Seq<char>>, n: nat) -> Seq<Seq<char>>
    decreases n,
{
    if n == 0 || n > succs.len() {
        Seq::empty()
    } else {
        let found = expand(succs, seen, (n - 1) as nat);
        let next = succs[n - 1];
        if seen.contains(next) || found.contains(next) {
            found
        } else {
            found.push(next)
        }
    }
}

/// The level after `level`, as far as its first `n` nodes give it: the
/// nodes that their edges lead to, in their order, that are not in `seen`,
/// each once.
pub open spec fn frontier(g: GraphModel, level: Seq<Seq<char>>, seen: Seq<Seq<char>>, n: nat) -> Seq<
    Seq<char>,
>
    decreases n,
{
    if n == 0 || n > level.len() {
        Seq::empty()
    } else {
        let found = frontier(g, level, seen, (n - 1) as nat);
        let succs = successors(g, level[n - 1]);
        found + expand(succs, seen + found, succs.len())
    }
}

/// The nodes of the first `n` levels, in order.
pub open spec fn flat(levels: Seq<Seq<Seq<char>>>, n: nat) -> Seq<Seq<char>>
    decreases n,
{
    if n == 0 || n > levels.len() {
        Seq::empty()
    } else {
        flat(levels, (n - 1) as nat) + levels[n - 1]
    }
}

/// The names of the nodes of each level.
pub open spec fn level_texts(levels: Seq<Vec<String>>) -> Seq<Seq<Seq<char>>> {
    levels.map_values(|level: Vec<String>| texts(level@))
}

/// Whether the levels are those of a search from `start`: the first holds
/// `start` alone, each further one holds the nodes that the edges of the
/// one before lead to and that no level before holds, and after the last
/// one there are no such nodes.
pub open spec fn is_level_order(g: GraphModel, start: Seq<char>, levels: Seq<Seq<Seq<char>>>) -> bool {
    &&& levels.len() > 0
    &&& levels[0] == seq![start]
    &&& forall|k: int| 0 <= k < levels.len() ==> (#[trigger] levels[k]).len() > 0
    &&& forall|k: int|
        0 <= k < levels.len() - 1 ==> #[trigger] levels[k + 1] == frontier(
            g,
            levels[k],
            flat(levels, (k + 1) as nat),
            levels[k].len(),
        )
    &&& frontier(g, levels.last(), flat(levels, levels.len()), levels.last().len()).len() == 0
}

/// Whether some path from `start` to `node` has `n` nodes.
pub open spec fn has_path(g: GraphModel, start: Seq<char>, node: Seq<char>, n: int) -> bool {
    exists|w: Seq<Seq<char>>| #[trigger] connects(g, w, start, node) && w.len() == n
}

/// What `expand` finds is among the nodes that it looked at and has not
/// been seen, and each node that it looked at has been seen or is found.
pub proof fn lemma_expand(succs: Seq<Seq<char>>, seen: Seq<Seq<char>>, n: nat)
    requires
        n <= succs.len(),
    ensures
        forall|i: int|
            0 <= i < expand(succs, seen, n).len() ==> !seen.contains(
                #[trigger] expand(succs, seen, n)[i],
            ) && succs.contains(expand(succs, seen, n)[i]),
        forall|k: int|
            0 <= k < n ==> seen.contains(#[trigger] succs[k]) || expand(succs, seen, n).contains(
                succs[k],
            ),
    decreases n,
{
    if n > 0 {
        lemma_expand(succs, seen, (n - 1) as nat);
        let found = expand(succs, seen, (n - 1) as nat);
        let now = expand(succs, seen, n);
        let next = succs[n - 1];
        if seen.contains(next) || found.contains(next) {
            assert(now == found);
        } else {
            assert(now == found.push(next));
            assert forall|i: int| 0 <= i < now.len() implies !seen.contains(#[trigger] now[i])
                && succs.contains(now[i]) by {
                if i < found.len() {
                    assert(now[i] == found[i]);
                }
            }
            assert forall|k: int| 0 <= k < n implies seen.contains(#[trigger] succs[k])
                || now.contains(succs[k]) by {
                if k < n - 1 {
                    if found.contains(succs[k]) {
                        let i = choose|i: int| 0 <= i < found.len() && found[i] == succs[k];
                        assert(now[i] == succs[k]);
                    }
                } else {
                    assert(now[found.len() as int] == next);
                }
            }
        }
    }
}

/// The nodes of the next level have not been seen and follow on nodes of
/// the level, and each node that follows on one of the level has been seen
/// or is in the next.
pub proof fn lemma_frontier(g: GraphModel, level: Seq<Seq<char>>, seen: Seq<Seq<char>>, n: nat)
    requires
        n <= level.len(),
    ensures
        forall|i: int|
            0 <= i < frontier(g, level, seen, n).len() ==> !seen.contains(
                #[trigger] frontier(g, level, seen, n)[i],
            ) && exists|j: int|
                0 <= j < n && edge(g, #[trigger] level[j], frontier(g, level, seen, n)[i]),
        forall|j: int, k: int|
            0 <= j < n && 0 <= k < successors(g, level[j]).len() ==> seen.contains(
                #[trigger] successors(g, level[j])[k],
            ) || frontier(g, level, seen, n).contains(successors(g, level[j])[k]),
    decreases n,
{
    if n > 0 {
        lemma_frontier(g, level, seen, (n - 1) as nat);
        let found = frontier(g, level, seen, (n - 1) as nat);
        let succs = successors(g, level[n - 1]);
        let more = expand(succs, seen + found, succs.len());
        let now = frontier(g, level, seen, n);
        assert(now == found + more);
        lemma_expand(succs, seen + found, succs.len());
        assert forall|i: int| 0 <= i < now.len() implies !seen.contains(#[trigger] now[i])
            && exists|j: int| 0 <= j < n && edge(g, #[trigger] level[j], now[i]) by {
            if i < found.len() {
                assert(now[i] == found[i]);
                let j = choose|j: int| 0 <= j < n - 1 && edge(g, #[trigger] level[j], found[i]);
                assert(0 <= j < n && edge(g, level[j], now[i]));
            } else {
                let x = more[i - found.len()];
                assert(now[i] == x);
                lemma_contains_concat(seen, found, x);
                assert(edge(g, level[n - 1], x));
            }
        }
        assert forall|j: int, k: int|
            0 <= j < n && 0 <= k < successors(g, level[j]).len() implies seen.contains(
            #[trigger] successors(g, level[j])[k],
        ) || now.contains(successors(g, level[j])[k]) by {
            let x = successors(g, level[j])[k];
            lemma_contains_concat(found, more, x);
            if j == n - 1 {
                lemma_contains_concat(seen, found, x);
                assert(succs[k] == x);
            }
        }
    }
}

/// In the levels of a search from `start`, the `k`-th level after the first
/// holds the nodes whose shortest paths from `start` have `k + 1` nodes:
/// each of its nodes has such a path and none with fewer nodes, and every
/// node that a path of at most `k + 1` nodes leads to is in one of the
/// levels up to it.
pub proof fn lemma_levels_are_distances(
    g: GraphModel,
    start: Seq<char>,
    levels: Seq<Seq<Seq<char>>>,
    k: nat,
)
    requires
        is_level_order(g, start, levels),
        k < levels.len(),
    ensures
        near_seen(g, start, flat(levels, k + 1), k as int + 1),
        forall|v: Seq<char>|
            #![trigger flat(levels, k).contains(v)]
            flat(levels, k).contains(v) ==> settled(g, flat(levels, k + 1), v),
        forall|i: int|
            0 <= i < levels[k as int].len() ==> no_shorter(
                g,
                start,
                #[trigger] levels[k as int][i],
                k as int + 1,
            ) && has_path(g, start, levels[k as int][i], k as int + 1),
    decreases k,
{
    let now = flat(levels, k + 1);
    assert(now == flat(levels, k) + levels[k as int]);
    if k == 0 {
        assert(flat(levels, 0) =~= Seq::<Seq<char>>::empty());
        assert(now =~= seq![start]);
        assert(now[0] == start);
        assert(connects(g, seq![start], start, start));
        assert(levels[0][0] == start);
        assert forall|w: Seq<Seq<char>>, v: Seq<char>|
            #[trigger] connects(g, w, start, v) && w.len() <= 1 implies now.contains(v) by {}
    } else {
        let j = (k - 1) as nat;
        lemma_levels_are_distances(g, start, levels, j);
        let before = flat(levels, k);
        let level = levels[j as int];
        let next = levels[k as int];
        assert(levels[j as int + 1] == frontier(g, level, flat(levels, (j + 1) as nat), level.len()));
        assert(next == frontier(g, level, before, level.len()));
        lemma_frontier(g, level, before, level.len());
        assert forall|v: Seq<char>| before.contains(v) implies #[trigger] now.contains(v) by {
            lemma_contains_concat(before, next, v);
        }
        // a node of the level has all its successors in the levels up to the next
        assert forall|v: Seq<char>|
            #![trigger flat(levels, k).contains(v)]
            flat(levels, k).contains(v) implies settled(g, now, v) by {
            lemma_contains_concat(flat(levels, j), level, v);
            assert forall|t: int| 0 <= t < successors(g, v).len() implies now.contains(
                #[trigger] successors(g, v)[t],
            ) by {
                let x = successors(g, v)[t];
                lemma_contains_concat(before, next, x);
                if flat(levels, j).contains(v) {
                    assert(settled(g, before, v));
                    assert(before.contains(successors(g, v)[t]));
                } else {
                    let i = choose|i: int| 0 <= i < level.len() && level[i] == v;
                    assert(before.contains(successors(g, level[i])[t]) || next.contains(
                        successors(g, level[i])[t],
                    ));
                }
            }
        }
        assert forall|i: int| 0 <= i < next.len() implies no_shorter(
            g,
            start,
            #[trigger] next[i],
            k as int + 1,
        ) && has_path(g, start, next[i], k as int + 1) by {
            lemma_unseen_far(g, start, before, k as int, next[i]);
            let from = choose|from: int|
                0 <= from < level.len() && edge(g, #[trigger] level[from], next[i]);
            assert(has_path(g, start, level[from], k as int));
            let w = choose|w: Seq<Seq<char>>|
                #[trigger] connects(g, w, start, level[from]) && w.len() == k;
            lemma_extend_path(g, w, start, level[from], next[i]);
            assert(connects(g, w.push(next[i]), start, next[i]) && w.push(next[i]).len() == k + 1);
        }
        assert forall|w: Seq<Seq<char>>, v: Seq<char>|
            #[trigger] connects(g, w, start, v) && w.len() <= k + 1 implies now.contains(v) by {
            if w.len() <= k {
                assert(before.contains(v));
            } else {
                let short = w.drop_last();
                let u = w[w.len() - 2];
                assert forall|i: int| 0 <= i < short.len() - 1 implies edge(
                    g,
                    #[trigger] short[i],
                    short[i + 1],
                ) by {
                    assert(edge(g, w[i], w[i + 1]));
                }
                assert(connects(g, short, start, u));
                assert(before.contains(u));
                assert(flat(levels, k).contains(u));
                assert(settled(g, now, u));
                assert(edge(g, w[w.len() - 2], w[w.len() - 2 + 1]));
                let t = choose|t: int| 0 <= t < successors(g, u).len() && successors(g, u)[t] == v;
                assert(now.contains(successors(g, u)[t]));
            }
        }
    }
}

/// The nodes of the first levels stay what they are when a level is added.
pub proof fn lemma_flat_prefix(levels: Seq<Seq<Seq<char>>>, level: Seq<Seq<char>>, n: nat)
    requires
        n <= levels.len(),
    ensures
        flat(levels.push(level), n) == flat(levels, n),
    decreases n,
{
    if n > 0 {
        lemma_flat_prefix(levels, level, (n - 1) as nat);
        assert(levels.push(level)[n - 1] == levels[n - 1]);
    }
}

/// The nodes of all levels after a level was added are those before and
/// then those of that level.
pub proof fn lemma_flat_push(levels: Seq<Seq<Seq<char>>>, level: Seq<Seq<char>>)
    ensures
        flat(levels.push(level), levels.len() + 1) == flat(levels, levels.len()) + level,
{
    lemma_flat_prefix(levels, level, levels.len());
    assert(levels.push(level)[levels.len() as int] == level);
}

/// The nodes that can be reached from `start`, level by level: `start`,
/// then the nodes that its edges lead to, then the nodes that their edges
/// lead to and that were not listed before, and so on. Within a level the
/// nodes stand in the order in which they were found.
pub fn bfs_level_order(graph: &Graph, start: &str) -> (levels: Vec<Vec<String>>)
    ensures
        is_level_order(graph@, start@, level_texts(levels@)),
        flat(level_texts(levels@), levels@.len()).no_duplicates(),
        forall|v: Seq<char>|
            reachable(graph@, start@, v) <==> #[trigger] flat(
                level_texts(levels@),
                levels@.len(),
            ).contains(v),
        forall|k: int, i: int|
            0 <= k < levels@.len() && 0 <= i < levels@[k]@.len() ==> no_shorter(
                graph@,
                start@,
                #[trigger] level_texts(levels@)[k][i],
                k + 1,
            ) && has_path(graph@, start@, level_texts(levels@)[k][i], k + 1),
{
    let ghost g = graph@;
    let ghost all = mentioned(graph.entries@, graph.entries@.len()) + seq![start@];
    let mut levels: Vec<Vec<String>> = Vec::new();
    let mut queue: VecDeque<String> = VecDeque::new();
    let mut visited: Vec<String> = Vec::new();
    queue.push_back(String::from_str(start));
    visited.push(String::from_str(start));
    proof {
        assert(texts(queue@) =~= seq![start@]);
        assert(texts(visited@) =~= seq![start@]);
        assert(level_texts(levels@) =~= Seq::<Seq<Seq<char>>>::empty());
        assert(flat(level_texts(levels@), 0) + texts(queue@) =~= texts(visited@));
        lemma_among_more(Seq::empty(), mentioned(graph.entries@, graph.entries@.len()), seq![start@]);
        assert(connects(g, seq![start@], start@, start@));
    }
    while queue.len() > 0
        invariant
            g == graph@,
            all == mentioned(graph.entries@, graph.entries@.len()) + seq![start@],
            texts(visited@) == flat(level_texts(levels@), levels@.len()) + texts(queue@),
            texts(visited@).no_duplicates(),
            all_among(texts(visited@), all),
            levels@.len() == 0 ==> texts(queue@) == seq![start@],
            levels@.len() > 0 ==> level_texts(levels@)[0] == seq![start@] && texts(queue@)
                == frontier(
                g,
                level_texts(levels@).last(),
                flat(level_texts(levels@), levels@.len()),
                level_texts(levels@).last().len(),
            ),
            forall|k: int| 0 <= k < levels@.len() ==> (#[trigger] level_texts(levels@)[k]).len() > 0,
            forall|k: int|
                0 <= k < levels@.len() - 1 ==> #[trigger] level_texts(levels@)[k + 1] == frontier(
                    g,
                    level_texts(levels@)[k],
                    flat(level_texts(levels@), (k + 1) as nat),
                    level_texts(levels@)[k].len(),
                ),
            forall|v: Seq<char>|
                #![trigger texts(visited@).contains(v)]
                texts(visited@).contains(v) ==> reachable(g, start@, v),
            forall|v: Seq<char>|
                #![trigger flat(level_texts(levels@), levels@.len()).contains(v)]
                flat(level_texts(levels@), levels@.len()).contains(v) ==> settled(
                    g,
                    texts(visited@),
                    v,
                ),
        decreases all.len() - flat(level_texts(levels@), levels@.len()).len(),
    {
        let ghost done = level_texts(levels@);
        let ghost before = flat(done, done.len());
        let ghost cur = texts(queue@);
        let ghost seen0 = texts(visited@);
        proof {
            lemma_distinct_within(seen0, all);
            assert(frontier(g, cur, seen0, 0) =~= Seq::<Seq<char>>::empty());
            assert(cur.skip(0) + frontier(g, cur, seen0, 0) =~= cur);
            assert(seen0 + frontier(g, cur, seen0, 0) =~= seen0);
        }
        let level_size = queue.len();
        let mut level: Vec<String> = Vec::new();
        assert(texts(level@) =~= cur.take(0));
        let mut j: usize = 0;
        while j < level_size
            invariant
                g == graph@,
                all == mentioned(graph.entries@, graph.entries@.len()) + seq![start@],
                level_size == cur.len(),
                seen0 == before + cur,
                j <= level_size,
                texts(level@) == cur.take(j as int),
                texts(queue@) == cur.skip(j as int) + frontier(g, cur, seen0, j as nat),
                texts(visited@) == seen0 + frontier(g, cur, seen0, j as nat),
                texts(visited@).no_duplicates(),
                all_among(texts(visited@), all),
                forall|v: Seq<char>|
                    #![trigger texts(visited@).contains(v)]
                    texts(visited@).contains(v) ==> reachable(g, start@, v),
                forall|v: Seq<char>|
                    #![trigger before.contains(v)]
                    before.contains(v) ==> settled(g, texts(visited@), v),
                forall|t: int|
                    0 <= t < j ==> settled(g, texts(visited@), #[trigger] cur[t]),
            decreases level_size - j,
        {
            let ghost found = frontier(g, cur, seen0, j as nat);
            let ghost waiting = texts(queue@);
            let node = match queue.pop_front() {
                Some(node) => node,
                None => {
                    proof {
                        assert(waiting.len() == 0);
                        assert(cur.skip(j as int).len() > 0);
                    }
                    return levels;
                },
            };
            proof {
                assert(waiting[0] == node@);
                assert(waiting[0] == cur[j as int]);
                assert(texts(queue@) =~= waiting.subrange(1, waiting.len() as int));
                assert(waiting.subrange(1, waiting.len() as int) =~= cur.skip(j + 1) + found);
                assert(texts(visited@)[before.len() + j] == node@);
                assert(texts(visited@).contains(node@));
            }
            let ghost listed = texts(level@);
            level.push(String::from_str(node.as_str()));
            assert(texts(level@) =~= listed.push(node@));
            assert(listed.push(node@) =~= cur.take(j + 1));
            match graph.get(node.as_str()) {
                Some(neighbors) => {
                    let ghost succs = texts(neighbors@);
                    let mut t: usize = 0;
                    proof {
                        assert(expand(succs, seen0 + found, 0) =~= Seq::<Seq<char>>::empty());
                        assert(cur.skip(j + 1) + found + expand(succs, seen0 + found, 0)
                            =~= cur.skip(j + 1) + found);
                        assert(seen0 + found + expand(succs, seen0 + found, 0) =~= seen0 + found);
                    }
                    while t < neighbors.len()
                        invariant
                            g == graph@,
                            all == mentioned(graph.entries@, graph.entries@.len()) + seq![
                                start@,
                            ],
                            t <= neighbors.len(),
                            j < level_size,
                            level_size == cur.len(),
                            node@ == cur[j as int],
                            succs == texts(neighbors@),
                            successors(g, node@) == succs,
                            found == frontier(g, cur, seen0, j as nat),
                            texts(queue@) == cur.skip(j + 1) + found + expand(
                                succs,
                                seen0 + found,
                                t as nat,
                            ),
                            texts(visited@) == seen0 + found + expand(
                                succs,
                                seen0 + found,
                                t as nat,
                            ),
                            texts(visited@).no_duplicates(),
                            all_among(texts(visited@), all),
                            texts(visited@).contains(node@),
                            forall|v: Seq<char>|
                                #![trigger texts(visited@).contains(v)]
                                texts(visited@).contains(v) ==> reachable(g, start@, v),
                            forall|v: Seq<char>|
                                #![trigger before.contains(v)]
                                before.contains(v) ==> settled(g, texts(visited@), v),
                            forall|t: int|
                                0 <= t < j ==> settled(g, texts(visited@), #[trigger] cur[t]),
                            settled_upto(g, texts(visited@), node@, t as int),
                        decreases neighbors.len() - t,
                    {
                        let neighbor = neighbors[t].as_str();
                        let ghost ex = expand(succs, seen0 + found, t as nat);
                        let ghost seen = texts(visited@);
                        proof {
                            assert(succs[t as int] == neighbor@);
                            assert(edge(g, node@, neighbor@));
                            lemma_contains_concat(seen0 + found, ex, neighbor@);
                        }
                        if !contains_name(&visited, neighbor) {
                            let ghost held = texts(queue@);
                            visited.push(String::from_str(neighbor));
                            queue.push_back(String::from_str(neighbor));
                            proof {
                                assert(texts(queue@) =~= held.push(neighbor@));
                                assert(expand(succs, seen0 + found, (t + 1) as nat) == ex.push(
                                    neighbor@,
                                ));
                                assert(texts(visited@) =~= seen.push(neighbor@));
                                assert(texts(visited@) =~= seen0 + found + ex.push(neighbor@));
                                assert(texts(queue@) =~= cur.skip(j + 1) + found + ex.push(
                                    neighbor@,
                                ));
                                lemma_seen_more(g, seen, neighbor@);
                                lemma_successors_mentioned(
                                    graph.entries@,
                                    graph.entries@.len(),
                                    node@,
                                );
                                lemma_among_more(
                                    successors(g, node@),
                                    mentioned(graph.entries@, graph.entries@.len()),
                                    seq![start@],
                                );
                                assert(all.contains(successors(g, node@)[t as int]));
                                assert(reachable(g, start@, neighbor@)) by {
                                    let path = choose|path: Seq<Seq<char>>|
                                        connects(g, path, start@, node@);
                                    lemma_extend_path(g, path, start@, node@, neighbor@);
                                }
                                assert forall|v: Seq<char>|
                                    #![trigger texts(visited@).contains(v)]
                                    texts(visited@).contains(v) implies reachable(
                                    g,
                                    start@,
                                    v,
                                ) by {
                                    if v != neighbor@ {
                                        let at = choose|at: int|
                                            0 <= at < texts(visited@).len() && texts(
                                                visited@,
                                            )[at] == v;
                                        assert(at < seen.len());
                                        assert(seen[at] == v);
                                        assert(seen.contains(v));
                                    }
                                }
                            }
                        } else {
                            assert(expand(succs, seen0 + found, (t + 1) as nat) == ex);
                        }
                        t += 1;
                    }
                    proof {
                        assert(settled(g, texts(visited@), node@));
                        assert(frontier(g, cur, seen0, (j + 1) as nat) == found + expand(
                            succs,
                            seen0 + found,
                            succs.len(),
                        ));
                        let next = frontier(g, cur, seen0, (j + 1) as nat);
                        assert(cur.skip(j + 1) + found + expand(succs, seen0 + found, succs.len())
                            =~= cur.skip(j + 1) + next);
                        assert(seen0 + found + expand(succs, seen0 + found, succs.len()) =~= seen0
                            + next);
                    }
                },
                None => {
                    proof {
                        assert(successors(g, node@).len() == 0);
                        assert(settled(g, texts(visited@), node@));
                        assert(expand(successors(g, node@), seen0 + found, 0) =~= Seq::<
                            Seq<char>,
                        >::empty());
                        assert(frontier(g, cur, seen0, (j + 1) as nat) =~= found);
                    }
                },
            }
            j += 1;
        }
        let ghost next = frontier(g, cur, seen0, cur.len());
        proof {
            assert(cur.take(cur.len() as int) =~= cur);
            assert(cur.skip(cur.len() as int) + next =~= next);
        }
        levels.push(level);
        proof {
            let now = level_texts(levels@);
            assert(now =~= done.push(cur));
            lemma_flat_push(done, cur);
            assert(flat(now, now.len()) == seen0);
            assert(texts(visited@) == flat(now, now.len()) + texts(queue@));
            assert forall|k: int| 0 <= k < now.len() - 1 implies #[trigger] now[k + 1] == frontier(
                g,
                now[k],
                flat(now, (k + 1) as nat),
                now[k].len(),
            ) by {
                lemma_flat_prefix(done, cur, (k + 1) as nat);
                if k + 1 < done.len() {
                    assert(now[k + 1] == done[k + 1]);
                    assert(now[k] == done[k]);
                }
            }
            assert forall|v: Seq<char>|
                #![trigger flat(now, now.len()).contains(v)]
                flat(now, now.len()).contains(v) implies settled(g, texts(visited@), v) by {
                lemma_contains_concat(before, cur, v);
                if !before.contains(v) {
                    let at = choose|at: int| 0 <= at < cur.len() && cur[at] == v;
                    assert(settled(g, texts(visited@), cur[at]));
                }
            }
            assert(flat(now, now.len()).len() == before.len() + cur.len());
        }
    }
    proof {
        let now = level_texts(levels@);
        let listed = flat(now, now.len());
        assert(texts(queue@) =~= Seq::<Seq<char>>::empty());
        assert(listed + texts(queue@) =~= listed);
        assert(listed[0] == start@) by {
            assert(texts(visited@).len() > 0);
            assert(now.len() > 0);
            lemma_flat_first(now, now.len());
        }
        let set = listed.to_set();
        assert forall|a: Seq<char>, b: Seq<char>| set.contains(a) && #[trigger] edge(
            g,
            a,
            b,
        ) implies set.contains(b) by {
            assert(listed.contains(a));
            assert(settled(g, listed, a));
            let k = choose|k: int| 0 <= k < successors(g, a).len() && successors(g, a)[k] == b;
            assert(listed.contains(successors(g, a)[k]));
        }
        assert(closed(g, set));
        assert forall|v: Seq<char>| reachable(g, start@, v) <==> #[trigger] listed.contains(v) by {
            if reachable(g, start@, v) {
                lemma_closed_holds_reachable(g, set, start@, v);
            }
        }
        assert forall|k: int, i: int|
            0 <= k < levels@.len() && 0 <= i < levels@[k]@.len() implies no_shorter(
            g,
            start@,
            #[trigger] now[k][i],
            k + 1,
        ) && has_path(g, start@, now[k][i], k + 1) by {
            assert(now[k].len() == levels@[k]@.len());
            lemma_levels_are_distances(g, start@, now, k as nat);
        }
    }
    levels
}

/// The first node of the first level is the first of all.
pub proof fn lemma_flat_first(levels: Seq<Seq<Seq<char>>>, n: nat)
    requires
        0 < n <= levels.len(),
        levels[0].len() > 0,
    ensures
        flat(levels, n).len() > 0,
        flat(levels, n)[0] == levels[0][0],
    decreases n,
{
    if n > 1 {
        lemma_flat_first(levels, (n - 1) as nat);
    } else {
        assert(flat(levels, 0) =~= Seq::<Seq<char>>::empty());
    }
}

/// The nodes that a search has reached, each with the path that it was
/// reached by.
pub open spec fn keys(reached: Seq<(String, Vec<String>)>) -> Seq<Seq<char>> {
    reached.map_values(|entry: (String, Vec<String>)| entry.0@)
}

/// Whether the state of a search in `h` from `origin` is in order: it has
/// reached `origin`; each node once, by a path from `origin`; the nodes of
/// the queue are among those reached; and every node reached waits in the
/// queue or has all its successors reached.
pub open spec fn side_ok(
    h: GraphModel,
    all: Seq<Seq<char>>,
    queue: Seq<(String, Vec<String>)>,
    reached: Seq<(String, Vec<String>)>,
    origin: Seq<char>,
) -> bool {
    &&& keys(reached).no_duplicates()
    &&& all_among(keys(reached), all)
    &&& keys(reached).contains(origin)
    &&& forall|e: int|
        0 <= e < reached.len() ==> connects(
            h,
            texts((#[trigger] reached[e]).1@),
            origin,
            reached[e].0@,
        )
    &&& forall|e: int|
        0 <= e < queue.len() ==> connects(h, texts((#[trigger] queue[e]).1@), origin, queue[e].0@)
            && keys(reached).contains(queue[e].0@)
    &&& forall|v: Seq<char>|
        #![trigger keys(reached).contains(v)]
        keys(reached).contains(v) ==> queued(queue, v) || settled(h, keys(reached), v)
}

/// Whether no node has been reached by both searches.
pub open spec fn apart(a: Seq<(String, Vec<String>)>, b: Seq<(String, Vec<String>)>) -> bool {
    forall|v: Seq<char>| #![trigger keys(a).contains(v)] !(keys(a).contains(v) && keys(b).contains(v))
}

/// Whether `path` leads from `origin` to a node from which an edge leads
/// to `target`.
pub open spec fn meets(
    h: GraphModel,
    path: Seq<Seq<char>>,
    origin: Seq<char>,
    target: Seq<char>,
) -> bool {
    exists|node: Seq<char>| #[trigger] connects(h, path, origin, node) && edge(h, node, target)
}

/// The place of the entry for `name`, if there is one.
fn find_entry(reached: &Vec<(String, Vec<String>)>, name: &str) -> (found: Option<usize>)
    ensures
        match found {
            Some(e) => e < reached.len() && reached@[e as int].0@ == name@ && keys(
                reached@,
            ).contains(name@),
            None => !keys(reached@).contains(name@),
        },
{
    let mut i: usize = 0;
    while i < reached.len()
        invariant
            i <= reached.len(),
            forall|j: int| 0 <= j < i ==> #[trigger] keys(reached@)[j] != name@,
        decreases reached.len() - i,
    {
        assert(keys(reached@)[i as int] == reached@[i as int].0@);
        if same_text(reached[i].0.as_str(), name) {
            return Some(i);
        }
        i += 1;
    }
    None
}

/// The names of `front`, and then those of `back` from the last to the
/// first.
fn join_reversed(front: &Vec<String>, back: &Vec<String>) -> (joined: Vec<String>)
    ensures
        texts(joined@) == texts(front@) + texts(back@).reverse(),
{
    let mut joined = copy_names(front);
    let mut i: usize = back.len();
    assert(texts(joined@) =~= texts(front@) + texts(back@).reverse().take(0));
    while i > 0
        invariant
            i <= back.len(),
            texts(joined@) == texts(front@) + texts(back@).reverse().take(back.len() - i),
        decreases i,
    {
        i -= 1;
        let ghost before = texts(joined@);
        joined.push(String::from_str(back[i].as_str()));
        proof {
            let turned = texts(back@).reverse();
            assert(texts(joined@) =~= before.push(back@[i as int]@));
            assert(turned[back.len() - 1 - i] == texts(back@)[i as int]);
            assert(turned.take(back.len() - i) =~= turned.take(back.len() - 1 - i).push(
                back@[i as int]@,
            ));
            assert(texts(joined@) =~= texts(front@) + turned.take(back.len() - i));
        }
    }
    assert(texts(back@).reverse().take(back.len() as int) =~= texts(back@).reverse());
    joined
}

/// One step of a search in `h` from `origin`: takes the first node off the
/// queue and looks at the nodes that its edges lead to, in order. Where one
/// of them has been reached by the other search, the step ends and returns
/// the path to the node taken off the queue and the place of that entry of
/// the other search. The others are added to the nodes reached, and to the
/// queue, unless they have been reached before.
fn advance(
    h: &Graph,
    queue: &mut VecDeque<(String, Vec<String>)>,
    reached: &mut Vec<(String, Vec<String>)>,
    other: &Vec<(String, Vec<String>)>,
    Ghost(origin): Ghost<Seq<char>>,
) -> (met: Option<(Vec<String>, usize)>)
    requires
        old(queue)@.len() > 0,
        side_ok(
            h@,
            mentioned(h.entries@, h.entries@.len()) + seq![origin],
            old(queue)@,
            old(reached)@,
            origin,
        ),
        apart(old(reached)@, other@),
    ensures
        match met {
            Some((path, e)) => e < other@.len() && meets(
                h@,
                texts(path@),
                origin,
                other@[e as int].0@,
            ),
            None => {
                &&& side_ok(
                    h@,
                    mentioned(h.entries@, h.entries@.len()) + seq![origin],
                    final(queue)@,
                    final(reached)@,
                    origin,
                )
                &&& apart(final(reached)@, other@)
                &&& final(queue)@.len() - final(reached)@.len() == old(queue)@.len() - old(
                    reached,
                )@.len() - 1
            },
        },
{
    let ghost g = h@;
    let ghost all = mentioned(h.entries@, h.entries@.len()) + seq![origin];
    let ghost waiting = queue@;
    let ghost start_len = queue@.len() - reached@.len();
    let (node, path) = match queue.pop_front() {
        Some(entry) => entry,
        None => {
            return None;
        },
    };
    proof {
        assert(waiting[0].0 == node && waiting[0].1 == path);
        assert forall|e: int| 0 <= e < queue@.len() implies connects(
            g,
            texts((#[trigger] queue@[e]).1@),
            origin,
            queue@[e].0@,
        ) && keys(reached@).contains(queue@[e].0@) by {
            assert(queue@[e] == waiting[e + 1]);
        }
        assert forall|v: Seq<char>|
            #![trigger keys(reached@).contains(v)]
            keys(reached@).contains(v) && v != node@ implies queued(queue@, v) || settled(
            g,
            keys(reached@),
            v,
        ) by {
            if queued(waiting, v) {
                let e = choose|e: int| 0 <= e < waiting.len() && #[trigger] waiting[e].0@ == v;
                assert(queue@[e - 1] == waiting[e]);
            }
        }
    }
    match h.get(node.as_str()) {
        Some(neighbors) => {
            let mut i: usize = 0;
            while i < neighbors.len()
                invariant
                    g == h@,
                    all == mentioned(h.entries@, h.entries@.len()) + seq![origin],
                    i <= neighbors.len(),
                    successors(g, node@) == texts(neighbors@),
                    connects(g, texts(path@), origin, node@),
                    keys(reached@).no_duplicates(),
                    all_among(keys(reached@), all),
                    keys(reached@).contains(origin),
                    keys(reached@).contains(node@),
                    apart(reached@, other@),
                    forall|e: int|
                        0 <= e < reached@.len() ==> connects(
                            g,
                            texts((#[trigger] reached@[e]).1@),
                            origin,
                            reached@[e].0@,
                        ),
                    forall|e: int|
                        0 <= e < queue@.len() ==> connects(
                            g,
                            texts((#[trigger] queue@[e]).1@),
                            origin,
                            queue@[e].0@,
                        ) && keys(reached@).contains(queue@[e].0@),
                    forall|v: Seq<char>|
                        #![trigger keys(reached@).contains(v)]
                        keys(reached@).contains(v) && v != node@ ==> queued(queue@, v) || settled(
                            g,
                            keys(reached@),
                            v,
                        ),
                    settled_upto(g, keys(reached@), node@, i as int),
                    queue@.len() - reached@.len() == start_len - 1,
                decreases neighbors.len() - i,
            {
                let neighbor = neighbors[i].as_str();
                proof {
                    assert(texts(neighbors@)[i as int] == neighbor@);
                    assert(edge(g, node@, neighbor@));
                }
                match find_entry(other, neighbor) {
                    Some(e) => {
                        assert(meets(h@, texts(path@), origin, other@[e as int].0@)) by {
                            assert(connects(h@, texts(path@), origin, node@) && edge(
                                h@,
                                node@,
                                other@[e as int].0@,
                            ));
                        }
                        return Some((path, e));
                    },
                    None => {},
                }
                match find_entry(reached, neighbor) {
                    Some(_) => {},
                    None => {
                        let ghost seen = keys(reached@);
                        let ghost known = reached@;
                        let ghost held = queue@;
                        let mut new_path = copy_names(&path);
                        new_path.push(String::from_str(neighbor));
                        let kept = copy_names(&new_path);
                        reached.push((String::from_str(neighbor), kept));
                        queue.push_back((String::from_str(neighbor), new_path));
                        proof {
                            assert(keys(reached@) =~= seen.push(neighbor@));
                            assert(texts(new_path@) =~= texts(path@).push(neighbor@));
                            lemma_seen_more(g, seen, neighbor@);
                            lemma_extend_path(g, texts(path@), origin, node@, neighbor@);
                            lemma_successors_mentioned(h.entries@, h.entries@.len(), node@);
                            lemma_among_more(
                                successors(g, node@),
                                mentioned(h.entries@, h.entries@.len()),
                                seq![origin],
                            );
                            assert(all.contains(successors(g, node@)[i as int]));
                            assert(queue@[held.len() as int].0@ == neighbor@);
                            assert(queued(queue@, neighbor@));
                            assert forall|e: int| 0 <= e < reached@.len() implies connects(
                                g,
                                texts((#[trigger] reached@[e]).1@),
                                origin,
                                reached@[e].0@,
                            ) by {
                                if e < known.len() {
                                    assert(reached@[e] == known[e]);
                                }
                            }
                            assert forall|e: int| 0 <= e < queue@.len() implies connects(
                                g,
                                texts((#[trigger] queue@[e]).1@),
                                origin,
                                queue@[e].0@,
                            ) && keys(reached@).contains(queue@[e].0@) by {
                                if e < held.len() {
                                    assert(queue@[e] == held[e]);
                                }
                            }
                            assert forall|v: Seq<char>|
                                #![trigger keys(reached@).contains(v)]
                                keys(reached@).contains(v) && v != node@ implies queued(queue@, v)
                                || settled(g, keys(reached@), v) by {
                                if v != neighbor@ {
                                    let at = choose|at: int|
                                        0 <= at < keys(reached@).len() && keys(reached@)[at] == v;
                                    assert(at < seen.len());
                                    assert(seen[at] == v);
                                    assert(seen.contains(v));
                                    if queued(held, v) {
                                        let e = choose|e: int|
                                            0 <= e < held.len() && #[trigger] held[e].0@ == v;
                                        assert(queue@[e] == held[e]);
                                    }
                                }
                            }
                            assert forall|v: Seq<char>|
                                #![trigger keys(reached@).contains(v)]
                                !(keys(reached@).contains(v) && keys(other@).contains(v)) by {
                                if keys(reached@).contains(v) && v != neighbor@ {
                                    let at = choose|at: int|
                                        0 <= at < keys(reached@).len() && keys(reached@)[at] == v;
                                    assert(at < seen.len());
                                    assert(seen[at] == v);
                                    assert(seen.contains(v));
                                }
                            }
                        }
                    },
                }
                i += 1;
            }
            assert(settled(g, keys(reached@), node@));
        },
        None => {
            assert(successors(g, node@).len() == 0);
            assert(settled(g, keys(reached@), node@));
        },
    }
    None
}

/// Where a set that holds `to` holds, with each node, the nodes that edges
/// lead from to it, it holds every node that `to` can be reached from.
pub proof fn lemma_closed_backwards(
    g: GraphModel,
    r: GraphModel,
    seen: Set<Seq<char>>,
    path: Seq<Seq<char>>,
    i: int,
)
    requires
        forall|a: Seq<char>, b: Seq<char>| #[trigger] edge(r, b, a) <==> edge(g, a, b),
        closed(r, seen),
        path.len() > 0,
        is_walk(g, path),
        seen.contains(path.last()),
        0 <= i < path.len(),
    ensures
        seen.contains(path[i]),
    decreases path.len() - i,
{
    if i < path.len() - 1 {
        lemma_closed_backwards(g, r, seen, path, i + 1);
        assert(edge(g, path[i], path[i + 1]));
        assert(edge(r, path[i + 1], path[i]));
    }
}

/// A path in the graph with its edges turned round, read backwards, is a
/// path in the graph.
pub proof fn lemma_path_backwards(
    g: GraphModel,
    r: GraphModel,
    path: Seq<Seq<char>>,
    from: Seq<char>,
    to: Seq<char>,
)
    requires
        forall|a: Seq<char>, b: Seq<char>| #[trigger] edge(r, b, a) <==> edge(g, a, b),
        connects(r, path, from, to),
    ensures
        connects(g, path.reverse(), to, from),
{
    let back = path.reverse();
    assert forall|i: int| 0 <= i < back.len() - 1 implies edge(g, #[trigger] back[i], back[i + 1]) by {
        let k = path.len() - 2 - i;
        assert(edge(r, path[k], path[k + 1]));
        assert(back[i] == path[k + 1]);
        assert(back[i + 1] == path[k]);
    }
}

/// A path from `start` to `goal`, found by two searches that take turns:
/// one from `start` along the edges, one from `goal` against them. Each
/// visits the nodes nearest to where it began first. The path is put
/// together where one search finds a node that the other has reached. None
/// if there is no path.
pub fn bfs_bidirectional(graph: &Graph, start: &str, goal: &str) -> (found: Option<Vec<String>>)
    ensures
        match found {
            Some(path) => connects(graph@, texts(path@), start@, goal@),
            None => !reachable(graph@, start@, goal@),
        },
        start@ == goal@ ==> (found matches Some(path) && texts(path@) == seq![start@]),
{
    let ghost g = graph@;
    if same_text(start, goal) {
        let mut path: Vec<String> = Vec::new();
        path.push(String::from_str(start));
        assert(texts(path@) =~= seq![start@]);
        return Some(path);
    }
    let reverse_graph = graph.reversed();
    let ghost r = reverse_graph@;
    let ghost all_front = mentioned(graph.entries@, graph.entries@.len()) + seq![start@];
    let ghost all_back = mentioned(reverse_graph.entries@, reverse_graph.entries@.len()) + seq![
        goal@,
    ];
    let mut queue_front: VecDeque<(String, Vec<String>)> = VecDeque::new();
    let mut queue_back: VecDeque<(String, Vec<String>)> = VecDeque::new();
    let mut visited_front: Vec<(String, Vec<String>)> = Vec::new();
    let mut visited_back: Vec<(String, Vec<String>)> = Vec::new();
    let mut first: Vec<String> = Vec::new();
    first.push(String::from_str(start));
    let mut last: Vec<String> = Vec::new();
    last.push(String::from_str(goal));
    queue_front.push_back((String::from_str(start), copy_names(&first)));
    queue_back.push_back((String::from_str(goal), copy_names(&last)));
    visited_front.push((String::from_str(start), first));
    visited_back.push((String::from_str(goal), last));
    proof {
        assert(texts(first@) =~= seq![start@]);
        assert(texts(last@) =~= seq![goal@]);
        assert(keys(visited_front@) =~= seq![start@]);
        assert(keys(visited_back@) =~= seq![goal@]);
        assert(keys(visited_front@)[0] == start@);
        assert(keys(visited_back@)[0] == goal@);
        assert(queue_front@[0].0@ == start@);
        assert(queue_back@[0].0@ == goal@);
        assert(queued(queue_front@, start@));
        assert(queued(queue_back@, goal@));
        lemma_among_more(Seq::empty(), mentioned(graph.entries@, graph.entries@.len()), seq![start@]);
        lemma_among_more(
            Seq::empty(),
            mentioned(reverse_graph.entries@, reverse_graph.entries@.len()),
            seq![goal@],
        );
        assert(connects(g, seq![start@], start@, start@));
        assert(connects(r, seq![goal@], goal@, goal@));
        assert forall|v: Seq<char>|
            #![trigger keys(visited_front@).contains(v)]
            keys(visited_front@).contains(v) implies v == start@ by {
            let at = choose|at: int|
                0 <= at < keys(visited_front@).len() && keys(visited_front@)[at] == v;
        }
        assert forall|v: Seq<char>|
            #![trigger keys(visited_back@).contains(v)]
            keys(visited_back@).contains(v) implies v == goal@ by {
            let at = choose|at: int|
                0 <= at < keys(visited_back@).len() && keys(visited_back@)[at] == v;
        }
    }
    while queue_front.len() > 0 && queue_back.len() > 0
        invariant
            g == graph@,
            r == reverse_graph@,
            all_front == mentioned(graph.entries@, graph.entries@.len()) + seq![start@],
            all_back == mentioned(reverse_graph.entries@, reverse_graph.entries@.len()) + seq![
                goal@,
            ],
            forall|a: Seq<char>, b: Seq<char>| #[trigger] edge(r, b, a) <==> edge(g, a, b),
            start@ != goal@,
            side_ok(g, all_front, queue_front@, visited_front@, start@),
            side_ok(r, all_back, queue_back@, visited_back@, goal@),
            apart(visited_front@, visited_back@),
        decreases
                (all_front.len() - visited_front@.len() + queue_front@.len()) + (all_back.len()
                    - visited_back@.len() + queue_back@.len()),
    {
        proof {
            lemma_distinct_within(keys(visited_front@), all_front);
            lemma_distinct_within(keys(visited_back@), all_back);
        }
        match advance(graph, &mut queue_front, &mut visited_front, &visited_back, Ghost(start@)) {
            Some((path, e)) => {
                let result = join_reversed(&path, &visited_back[e].1);
                proof {
                    let by = visited_back@[e as int].0@;
                    let node = choose|node: Seq<char>|
                        #[trigger] connects(g, texts(path@), start@, node) && edge(g, node, by);
                    let back = texts(visited_back@[e as int].1@);
                    lemma_path_backwards(g, r, back, goal@, by);
                    lemma_extend_path(g, texts(path@), start@, node, by);
                    lemma_join_paths(
                        g,
                        texts(path@).push(by),
                        back.reverse(),
                        start@,
                        by,
                        goal@,
                    );
                    assert(texts(result@) =~= texts(path@).push(by) + back.reverse().drop_first());
                }
                return Some(result);
            },
            None => {},
        }
        proof {
            lemma_distinct_within(keys(visited_front@), all_front);
            assert forall|v: Seq<char>|
                #![trigger keys(visited_back@).contains(v)]
                !(keys(visited_back@).contains(v) && keys(visited_front@).contains(v)) by {}
        }
        if queue_back.len() > 0 {
            match advance(
                &reverse_graph,
                &mut queue_back,
                &mut visited_back,
                &visited_front,
                Ghost(goal@),
            ) {
                Some((path, e)) => {
                    let result = join_reversed(&visited_front[e].1, &path);
                    proof {
                        let by = visited_front@[e as int].0@;
                        let node = choose|node: Seq<char>|
                            #[trigger] connects(r, texts(path@), goal@, node) && edge(r, node, by);
                        let front = texts(visited_front@[e as int].1@);
                        lemma_path_backwards(g, r, texts(path@), goal@, node);
                        assert(edge(g, by, node));
                        lemma_extend_path(g, front, start@, by, node);
                        lemma_join_paths(
                            g,
                            front.push(node),
                            texts(path@).reverse(),
                            start@,
                            node,
                            goal@,
                        );
                        assert(texts(result@) =~= front.push(node) + texts(
                            path@,
                        ).reverse().drop_first());
                    }
                    return Some(result);
                },
                None => {},
            }
            proof {
                assert forall|v: Seq<char>|
                    #![trigger keys(visited_front@).contains(v)]
                    !(keys(visited_front@).contains(v) && keys(visited_back@).contains(v)) by {}
            }
        }
    }
    proof {
        if queue_front@.len() == 0 {
            assert forall|v: Seq<char>|
                #![trigger keys(visited_front@).contains(v)]
                keys(visited_front@).contains(v) implies settled(g, keys(visited_front@), v) by {
                if queued(queue_front@, v) {
                }
            }
            assert(keys(visited_back@).contains(goal@));
            lemma_all_settled(g, keys(visited_front@), start@, goal@);
        } else {
            let seen = keys(visited_back@);
            let set = seen.to_set();
            assert forall|a: Seq<char>, b: Seq<char>| set.contains(a) && #[trigger] edge(
                r,
                a,
                b,
            ) implies set.contains(b) by {
                assert(seen.contains(a));
                if queued(queue_back@, a) {
                }
                assert(settled(r, seen, a));
                let k = choose|k: int| 0 <= k < successors(r, a).len() && successors(r, a)[k] == b;
                assert(seen.contains(successors(r, a)[k]));
            }
            assert(closed(r, set));
            if reachable(g, start@, goal@) {
                let path = choose|path: Seq<Seq<char>>| connects(g, path, start@, goal@);
                lemma_closed_backwards(g, r, set, path, 0);
                assert(seen.contains(start@));
                assert(keys(visited_front@).contains(start@));
            }
        }
    }
    None
}

} // verus!
