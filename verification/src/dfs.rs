//! Depth-first search: as far as the edges lead before turning back.

use crate::expr::{copy_names, same_text, texts};
use crate::graph::{
    all_among, connects, contains_name, edge, insert_name, lemma_all_settled, lemma_among_more,
    lemma_among_trans, lemma_extend_path, lemma_prepend_path, lemma_seen_more,
    lemma_settled_more, lemma_successors_mentioned, lemma_unseen, mentioned, queued, reachable,
    settled, settled_upto, successors, unseen, Graph, GraphModel,
};
use crate::graph::{closed, lemma_closed_holds_reachable};
use vstd::prelude::*;
use vstd::string::StringExecFns;

verus! {

/// Whether each of the nodes that the edges of `node` lead to, from the
/// `from`-th on, has been seen or waits on the stack.
pub open spec fn covered(
    g: GraphModel,
    stack: Seq<(String, Vec<String>)>,
    seen: Seq<Seq<char>>,
    node: Seq<char>,
    from: int,
) -> bool {
    forall|k: int|
        from <= k < successors(g, node).len() && 0 <= k ==> seen.contains(
            #[trigger] successors(g, node)[k],
        ) || queued(stack, successors(g, node)[k])
}

/// Whether every node that has been seen, but for `current`, has each of
/// its successors seen or on the stack.
pub open spec fn others_covered(
    g: GraphModel,
    stack: Seq<(String, Vec<String>)>,
    seen: Seq<Seq<char>>,
    current: Option<Seq<char>>,
) -> bool {
    forall|v: Seq<char>|
        #![trigger seen.contains(v)]
        seen.contains(v) && current != Some(v) ==> covered(g, stack, seen, v, 0)
}

/// Whether each path on the stack leads from `start` to the node that it
/// was pushed for, and that node is among `all`.
pub open spec fn stack_leads(
    g: GraphModel,
    stack: Seq<(String, Vec<String>)>,
    all: Seq<Seq<char>>,
    start: Seq<char>,
) -> bool {
    forall|e: int|
        0 <= e < stack.len() ==> connects(g, texts((#[trigger] stack[e]).1@), start, stack[e].0@)
            && all.contains(stack[e].0@)
}

/// A node that waits on the stack still waits there after a push.
pub proof fn lemma_queued_more(
    stack: Seq<(String, Vec<String>)>,
    entry: (String, Vec<String>),
    node: Seq<char>,
)
    requires
        queued(stack, node) || entry.0@ == node,
    ensures
        queued(stack.push(entry), node),
{
    let more = stack.push(entry);
    if queued(stack, node) {
        let e = choose|e: int| 0 <= e < stack.len() && #[trigger] stack[e].0@ == node;
        assert(more[e].0@ == node);
    } else {
        assert(more[stack.len() as int].0@ == node);
    }
}

/// A path from `start` to `goal`, found by following the edges of the node
/// seen last, in the order of its entry, each node once; none if there is
/// no path.
pub fn dfs_iterative(graph: &Graph, start: &str, goal: &str) -> (found: Option<Vec<String>>)
    ensures
        match found {
            Some(path) => connects(graph@, texts(path@), start@, goal@),
            None => !reachable(graph@, start@, goal@),
        },
        start@ == goal@ ==> (found matches Some(path) && texts(path@) == seq![start@]),
{
    let ghost g = graph@;
    let ghost all = mentioned(graph.entries@, graph.entries@.len()) + seq![start@];
    let mut first: Vec<String> = Vec::new();
    first.push(String::from_str(start));
    let mut stack: Vec<(String, Vec<String>)> = Vec::new();
    stack.push((String::from_str(start), first));
    let mut visited: Vec<String> = Vec::new();
    proof {
        assert(texts(first@) =~= seq![start@]);
        assert(texts(visited@) =~= Seq::<Seq<char>>::empty());
        assert(stack@[0].0@ == start@);
        assert(queued(stack@, start@));
        lemma_among_more(Seq::empty(), mentioned(graph.entries@, graph.entries@.len()), seq![start@]);
        assert(all.contains(seq![start@][0]));
    }
    while stack.len() > 0
        invariant
            g == graph@,
            all == mentioned(graph.entries@, graph.entries@.len()) + seq![start@],
            all_among(texts(visited@), all),
            texts(visited@).contains(start@) || queued(stack@, start@),
            !texts(visited@).contains(goal@),
            stack_leads(g, stack@, all, start@),
            others_covered(g, stack@, texts(visited@), None),
            start@ == goal@ ==> stack@.len() == 1 && texts(stack@[0].1@) == seq![start@]
                && visited@.len() == 0,
        decreases unseen(all, texts(visited@)), stack@.len(),
    {
        let ghost pile = stack@;
        let ghost seen = texts(visited@);
        let (node, path) = match stack.pop() {
            Some(entry) => entry,
            None => {
                return None;
            },
        };
        proof {
            assert(pile[pile.len() - 1].0 == node && pile[pile.len() - 1].1 == path);
            assert(connects(g, texts(path@), start@, node@) && all.contains(node@));
            assert forall|e: int| 0 <= e < stack@.len() implies connects(
                g,
                texts((#[trigger] stack@[e]).1@),
                start@,
                stack@[e].0@,
            ) && all.contains(stack@[e].0@) by {
                assert(stack@[e] == pile[e]);
            }
            // whoever waited on the stack still waits there, but for `node`
            assert forall|v: Seq<char>| queued(pile, v) && v != node@ implies queued(stack@, v) by {
                let e = choose|e: int| 0 <= e < pile.len() && #[trigger] pile[e].0@ == v;
                assert(stack@[e] == pile[e]);
            }
            lemma_unseen(all, seen, all, seen);
        }
        if contains_name(&visited, node.as_str()) {
            proof {
                assert forall|v: Seq<char>|
                    #![trigger seen.contains(v)]
                    seen.contains(v) implies covered(g, stack@, seen, v, 0) by {
                    assert(covered(g, pile, seen, v, 0));
                }
            }
        } else {
            if same_text(node.as_str(), goal) {
                return Some(path);
            }
            visited.push(String::from_str(node.as_str()));
            proof {
                assert(texts(visited@) =~= seen.push(node@));
                lemma_seen_more(g, seen, node@);
                lemma_unseen(all, seen, all, texts(visited@));
                assert forall|v: Seq<char>|
                    #![trigger texts(visited@).contains(v)]
                    texts(visited@).contains(v) && Some(node@) != Some(v) implies covered(
                    g,
                    stack@,
                    texts(visited@),
                    v,
                    0,
                ) by {
                    assert(seen.contains(v));
                    assert(covered(g, pile, seen, v, 0));
                }
            }
            match graph.get(node.as_str()) {
                Some(neighbors) => {
                    let mut i: usize = neighbors.len();
                    while i > 0
                        invariant
                            g == graph@,
                            all == mentioned(graph.entries@, graph.entries@.len()) + seq![start@],
                            i <= neighbors.len(),
                            start@ != goal@,
                            successors(g, node@) == texts(neighbors@),
                            connects(g, texts(path@), start@, node@),
                            texts(visited@) == seen.push(node@),
                            texts(visited@).contains(start@) || queued(stack@, start@),
                            stack_leads(g, stack@, all, start@),
                            others_covered(g, stack@, texts(visited@), Some(node@)),
                            covered(g, stack@, texts(visited@), node@, i as int),
                        decreases i,
                    {
                        i -= 1;
                        let neighbor = neighbors[i].as_str();
                        proof {
                            assert(texts(neighbors@)[i as int] == neighbor@);
                            assert(edge(g, node@, neighbor@));
                        }
                        if !contains_name(&visited, neighbor) {
                            let ghost held = stack@;
                            let mut new_path = copy_names(&path);
                            new_path.push(String::from_str(neighbor));
                            stack.push((String::from_str(neighbor), new_path));
                            proof {
                                let entry = stack@[held.len() as int];
                                assert(stack@ =~= held.push(entry));
                                assert(texts(new_path@) =~= texts(path@).push(neighbor@));
                                lemma_extend_path(g, texts(path@), start@, node@, neighbor@);
                                lemma_successors_mentioned(
                                    graph.entries@,
                                    graph.entries@.len(),
                                    node@,
                                );
                                lemma_among_more(
                                    successors(g, node@),
                                    mentioned(graph.entries@, graph.entries@.len()),
                                    seq![start@],
                                );
                                assert(all.contains(successors(g, node@)[i as int]));
                                assert forall|v: Seq<char>| queued(held, v) implies queued(
                                    stack@,
                                    v,
                                ) by {
                                    lemma_queued_more(held, entry, v);
                                }
                                lemma_queued_more(held, entry, neighbor@);
                                assert forall|e: int| 0 <= e < stack@.len() implies connects(
                                    g,
                                    texts((#[trigger] stack@[e]).1@),
                                    start@,
                                    stack@[e].0@,
                                ) && all.contains(stack@[e].0@) by {
                                    if e < held.len() {
                                        assert(stack@[e] == held[e]);
                                    }
                                }
                                assert forall|v: Seq<char>|
                                    #![trigger texts(visited@).contains(v)]
                                    texts(visited@).contains(v) && Some(node@) != Some(
                                        v,
                                    ) implies covered(g, stack@, texts(visited@), v, 0) by {
                                    assert(covered(g, held, texts(visited@), v, 0));
                                }
                                assert(covered(g, held, texts(visited@), node@, i + 1));
                            }
                        }
                    }
                },
                None => {
                    assert(successors(g, node@).len() == 0);
                },
            }
        }
    }
    proof {
        assert forall|v: Seq<char>|
            #![trigger texts(visited@).contains(v)]
            texts(visited@).contains(v) implies settled(g, texts(visited@), v) by {
            assert(covered(g, stack@, texts(visited@), v, 0));
            assert forall|k: int| 0 <= k < successors(g, v).len() implies texts(
                visited@,
            ).contains(#[trigger] successors(g, v)[k]) by {
                if queued(stack@, successors(g, v)[k]) {
                }
            }
        }
        if queued(stack@, start@) {
        }
        lemma_all_settled(g, texts(visited@), start@, goal@);
    }
    None
}

/// Whether every node that was seen by the search from `start`, and `start`
/// itself, has each of its successors seen and is not `goal`.
pub open spec fn explored(
    g: GraphModel,
    before: Seq<Seq<char>>,
    after: Seq<Seq<char>>,
    start: Seq<char>,
    goal: Seq<char>,
) -> bool {
    forall|v: Seq<char>|
        #![trigger after.contains(v)]
        after.contains(v) && (!before.contains(v) || v == start) ==> settled(g, after, v) && v
            != goal
}

/// A path from `start` to `goal` that, after `start`, goes through nodes
/// only that are not in `visited`. The nodes that the search sees are added
/// to `visited`. Where there is no such path, every node that it saw has
/// all its successors in `visited`.
pub fn dfs_recursive(graph: &Graph, start: &str, goal: &str, visited: &mut Vec<String>) -> (found:
    Option<Vec<String>>)
    ensures
        all_among(texts(old(visited)@), texts(final(visited)@)),
        match found {
            Some(path) => connects(graph@, texts(path@), start@, goal@),
            None => texts(final(visited)@).contains(start@) && explored(
                graph@,
                texts(old(visited)@),
                texts(final(visited)@),
                start@,
                goal@,
            ),
        },
        found is None && old(visited)@.len() == 0 ==> !reachable(graph@, start@, goal@),
        start@ == goal@ ==> (found matches Some(path) && texts(path@) == seq![start@]),
    decreases
            unseen(
                mentioned(graph.entries@, graph.entries@.len()) + seq![start@],
                texts(old(visited)@),
            ),
            (if texts(old(visited)@).contains(start@) {
                1nat
            } else {
                0nat
            }),
{
    let ghost g = graph@;
    let ghost initial = texts(visited@);
    let ghost named = mentioned(graph.entries@, graph.entries@.len());
    let ghost all = named + seq![start@];
    proof {
        assert forall|k: int| 0 <= k < initial.len() implies initial.contains(
            #[trigger] initial[k],
        ) by {}
    }
    if same_text(start, goal) {
        let mut path: Vec<String> = Vec::new();
        path.push(String::from_str(start));
        assert(texts(path@) =~= seq![start@]);
        return Some(path);
    }
    insert_name(visited, start);
    match graph.get(start) {
        Some(neighbors) => {
            let mut i: usize = 0;
            while i < neighbors.len()
                invariant
                    g == graph@,
                    named == mentioned(graph.entries@, graph.entries@.len()),
                    all == named + seq![start@],
                    start@ != goal@,
                    i <= neighbors.len(),
                    successors(g, start@) == texts(neighbors@),
                    initial == texts(old(visited)@),
                    all_among(initial, texts(visited@)),
                    texts(visited@).contains(start@),
                    settled_upto(g, texts(visited@), start@, i as int),
                    forall|v: Seq<char>|
                        #![trigger texts(visited@).contains(v)]
                        texts(visited@).contains(v) && !initial.contains(v) && v != start@
                            ==> settled(g, texts(visited@), v) && v != goal@,
                decreases neighbors.len() - i,
            {
                let neighbor = neighbors[i].as_str();
                proof {
                    assert(texts(neighbors@)[i as int] == neighbor@);
                    assert(edge(g, start@, neighbor@));
                }
                if !contains_name(visited, neighbor) {
                    let ghost mid = texts(visited@);
                    proof {
                        lemma_successors_mentioned(graph.entries@, graph.entries@.len(), start@);
                        assert(named.contains(successors(g, start@)[i as int]));
                        lemma_among_more(seq![neighbor@], named, seq![start@]);
                        assert(all_among(named + seq![neighbor@], all)) by {
                            lemma_among_more(Seq::empty(), named, seq![start@]);
                            let fewer = named + seq![neighbor@];
                            assert forall|k: int| 0 <= k < fewer.len() implies all.contains(
                                #[trigger] fewer[k],
                            ) by {
                                if k < named.len() {
                                    assert(all[k] == fewer[k]);
                                } else {
                                    let at = choose|at: int|
                                        0 <= at < named.len() && named[at] == neighbor@;
                                    assert(all[at] == neighbor@);
                                }
                            }
                        }
                        lemma_unseen(all, initial, named + seq![neighbor@], mid);
                        assert(all[named.len() as int] == start@);
                        assert(all.contains(start@));
                        assert(mid.contains(start@));
                        if !initial.contains(start@) {
                            assert(unseen(named + seq![neighbor@], mid) < unseen(all, initial));
                        }
                    }
                    match dfs_recursive(graph, neighbor, goal, visited) {
                        Some(rest) => {
                            let mut path = rest;
                            path.insert(0, String::from_str(start));
                            proof {
                                lemma_prepend_path(g, texts(rest@), neighbor@, goal@, start@);
                                assert(texts(path@) =~= seq![start@] + texts(rest@));
                                lemma_among_trans(initial, mid, texts(visited@));
                            }
                            return Some(path);
                        },
                        None => {
                            proof {
                                let now = texts(visited@);
                                lemma_among_trans(initial, mid, now);
                                lemma_among_trans(mid, now, now);
                                lemma_settled_more(g, mid, now, start@, i as int);
                                assert forall|v: Seq<char>|
                                    #![trigger now.contains(v)]
                                    now.contains(v) && !initial.contains(v) && v
                                        != start@ implies settled(g, now, v) && v != goal@ by {
                                    if mid.contains(v) {
                                        lemma_settled_more(
                                            g,
                                            mid,
                                            now,
                                            v,
                                            successors(g, v).len() as int,
                                        );
                                    }
                                }
                            }
                        },
                    }
                }
                i += 1;
            }
        },
        None => {
            assert(successors(g, start@).len() == 0);
        },
    }
    proof {
        let now = texts(visited@);
        if initial.len() == 0 {
            assert forall|v: Seq<char>| #![trigger now.contains(v)] now.contains(v) implies settled(
                g,
                now,
                v,
            ) by {}
            lemma_all_settled(g, now, start@, goal@);
        }
    }
    None
}

/// Whether `order` lists what a search from `start` saw, each node after
/// the nodes that it saw from it: the nodes that were not seen `before`
/// and are seen `after`, each once, each with all its successors seen
/// `after`, each reachable from `start`; and where an edge leads from a
/// node to one that is listed later, the first can be reached from the
/// second.
pub open spec fn lists_search(
    g: GraphModel,
    before: Seq<Seq<char>>,
    after: Seq<Seq<char>>,
    order: Seq<Seq<char>>,
    start: Seq<char>,
) -> bool {
    &&& order.no_duplicates()
    &&& forall|v: Seq<char>|
        #![trigger after.contains(v)]
        after.contains(v) <==> before.contains(v) || order.contains(v)
    &&& forall|j: int|
        0 <= j < order.len() ==> !before.contains(#[trigger] order[j]) && settled(
            g,
            after,
            order[j],
        ) && reachable(g, start, order[j])
    &&& forall|j: int, k: int|
        0 <= j < k < order.len() && edge(g, #[trigger] order[j], #[trigger] order[k])
            ==> reachable(g, order[k], order[j])
}

/// What can be reached from the end of an edge can be reached from its
/// start.
pub proof fn lemma_reach_by_edge(g: GraphModel, from: Seq<char>, by: Seq<char>, to: Seq<char>)
    requires
        edge(g, from, by),
        reachable(g, by, to),
    ensures
        reachable(g, from, to),
{
    let path = choose|path: Seq<Seq<char>>| connects(g, path, by, to);
    lemma_prepend_path(g, path, by, to, from);
}

/// Every node can be reached from itself.
pub proof fn lemma_reach_self(g: GraphModel, node: Seq<char>)
    ensures
        reachable(g, node, node),
{
    assert(connects(g, seq![node], node, node));
}

/// The nodes that a search from `start` sees that were not in `visited`,
/// each after the nodes that the search saw from it, and `start` last. They
/// are added to `visited`. Nothing is listed where `start` is in `visited`.
pub fn dfs_postorder(graph: &Graph, start: &str, visited: &mut Vec<String>) -> (order: Vec<String>)
    ensures
        all_among(texts(old(visited)@), texts(final(visited)@)),
        lists_search(
            graph@,
            texts(old(visited)@),
            texts(final(visited)@),
            texts(order@),
            start@,
        ),
        texts(old(visited)@).contains(start@) ==> order@.len() == 0 && texts(final(visited)@)
            == texts(old(visited)@),
        !texts(old(visited)@).contains(start@) ==> order@.len() > 0 && texts(order@).last()
            == start@,
        old(visited)@.len() == 0 ==> forall|v: Seq<char>|
            reachable(graph@, start@, v) <==> #[trigger] texts(order@).contains(v),
    decreases
            unseen(
                mentioned(graph.entries@, graph.entries@.len()) + seq![start@],
                texts(old(visited)@),
            ),
{
    let ghost g = graph@;
    let ghost initial = texts(visited@);
    let ghost named = mentioned(graph.entries@, graph.entries@.len());
    let ghost all = named + seq![start@];
    proof {
        assert forall|k: int| 0 <= k < initial.len() implies initial.contains(
            #[trigger] initial[k],
        ) by {}
    }
    if contains_name(visited, start) {
        let order: Vec<String> = Vec::new();
        assert(texts(order@) =~= Seq::<Seq<char>>::empty());
        assert(initial.len() > 0);
        return order;
    }
    insert_name(visited, start);
    let mut result: Vec<String> = Vec::new();
    assert(texts(result@) =~= Seq::<Seq<char>>::empty());
    match graph.get(start) {
        Some(neighbors) => {
            let mut i: usize = 0;
            while i < neighbors.len()
                invariant
                    g == graph@,
                    named == mentioned(graph.entries@, graph.entries@.len()),
                    all == named + seq![start@],
                    initial == texts(old(visited)@),
                    !initial.contains(start@),
                    i <= neighbors.len(),
                    successors(g, start@) == texts(neighbors@),
                    all_among(initial, texts(visited@)),
                    texts(visited@).contains(start@),
                    !texts(result@).contains(start@),
                    settled_upto(g, texts(visited@), start@, i as int),
                    texts(result@).no_duplicates(),
                    forall|v: Seq<char>|
                        #![trigger texts(visited@).contains(v)]
                        texts(visited@).contains(v) <==> initial.contains(v) || v == start@
                            || texts(result@).contains(v),
                    forall|j: int|
                        0 <= j < result@.len() ==> !initial.contains(#[trigger] texts(result@)[j])
                            && settled(g, texts(visited@), texts(result@)[j]) && reachable(
                            g,
                            start@,
                            texts(result@)[j],
                        ),
                    forall|j: int, k: int|
                        0 <= j < k < result@.len() && edge(
                            g,
                            #[trigger] texts(result@)[j],
                            #[trigger] texts(result@)[k],
                        ) ==> reachable(g, texts(result@)[k], texts(result@)[j]),
                decreases neighbors.len() - i,
            {
                let neighbor = neighbors[i].as_str();
                let ghost mid = texts(visited@);
                let ghost res = texts(result@);
                proof {
                    assert(texts(neighbors@)[i as int] == neighbor@);
                    assert(edge(g, start@, neighbor@));
                    lemma_successors_mentioned(graph.entries@, graph.entries@.len(), start@);
                    assert(named.contains(successors(g, start@)[i as int]));
                    assert(all_among(named + seq![neighbor@], all)) by {
                        let fewer = named + seq![neighbor@];
                        assert forall|k: int| 0 <= k < fewer.len() implies all.contains(
                            #[trigger] fewer[k],
                        ) by {
                            if k < named.len() {
                                assert(all[k] == fewer[k]);
                            } else {
                                let at = choose|at: int|
                                    0 <= at < named.len() && named[at] == neighbor@;
                                assert(all[at] == neighbor@);
                            }
                        }
                    }
                    lemma_unseen(all, initial, named + seq![neighbor@], mid);
                    assert(all[named.len() as int] == start@);
                    assert(all.contains(start@));
                    assert(mid.contains(start@));
                    assert(unseen(named + seq![neighbor@], mid) < unseen(all, initial));
                }
                let mut sub = dfs_postorder(graph, neighbor, visited);
                let ghost ord = texts(sub@);
                let ghost now = texts(visited@);
                result.append(&mut sub);
                proof {
                    let both = texts(result@);
                    assert(both =~= res + ord);
                    lemma_among_trans(initial, mid, now);
                    lemma_among_trans(mid, now, now);
                    lemma_settled_more(g, mid, now, start@, i as int);
                    assert(now.contains(neighbor@)) by {
                        if !mid.contains(neighbor@) {
                            assert(ord.last() == neighbor@);
                            assert(ord.contains(ord[ord.len() - 1]));
                        }
                    }
                    // a listed node was seen; a node listed now was not
                    assert forall|j: int| 0 <= j < res.len() implies mid.contains(
                        #[trigger] res[j],
                    ) by {
                        assert(res.contains(res[j]));
                    }
                    assert forall|v: Seq<char>| both.contains(v) <==> res.contains(v)
                        || ord.contains(v) by {
                        if both.contains(v) {
                            let at = choose|at: int| 0 <= at < both.len() && both[at] == v;
                            if at < res.len() {
                                assert(res[at] == v);
                            } else {
                                assert(ord[at - res.len()] == v);
                            }
                        }
                        if res.contains(v) {
                            let at = choose|at: int| 0 <= at < res.len() && res[at] == v;
                            assert(both[at] == v);
                        }
                        if ord.contains(v) {
                            let at = choose|at: int| 0 <= at < ord.len() && ord[at] == v;
                            assert(both[res.len() + at] == v);
                        }
                    }
                    assert(both.no_duplicates()) by {
                        assert forall|a: int, b: int|
                            0 <= a < both.len() && 0 <= b < both.len() && a != b implies both[a]
                            != both[b] by {
                            if a < res.len() && b >= res.len() {
                                assert(mid.contains(res[a]));
                                assert(!mid.contains(ord[b - res.len()]));
                            }
                            if b < res.len() && a >= res.len() {
                                assert(mid.contains(res[b]));
                                assert(!mid.contains(ord[a - res.len()]));
                            }
                        }
                    }
                    assert(!both.contains(start@)) by {
                        if ord.contains(start@) {
                            let at = choose|at: int| 0 <= at < ord.len() && ord[at] == start@;
                            assert(!mid.contains(ord[at]));
                        }
                    }
                    assert forall|j: int| 0 <= j < both.len() implies !initial.contains(
                        #[trigger] both[j],
                    ) && settled(g, now, both[j]) && reachable(g, start@, both[j]) by {
                        if j < res.len() {
                            assert(both[j] == res[j]);
                            lemma_settled_more(
                                g,
                                mid,
                                now,
                                res[j],
                                successors(g, res[j]).len() as int,
                            );
                        } else {
                            let t = j - res.len();
                            assert(both[j] == ord[t]);
                            assert(!mid.contains(ord[t]));
                            lemma_reach_by_edge(g, start@, neighbor@, ord[t]);
                        }
                    }
                    assert forall|j: int, k: int|
                        0 <= j < k < both.len() && edge(
                            g,
                            #[trigger] both[j],
                            #[trigger] both[k],
                        ) implies reachable(g, both[k], both[j]) by {
                        if k < res.len() {
                            assert(both[j] == res[j] && both[k] == res[k]);
                        } else if j >= res.len() {
                            assert(both[j] == ord[j - res.len()] && both[k] == ord[k - res.len()]);
                        } else {
                            // the edge would lead from a node whose successors had
                            // all been seen to one that had not been seen
                            let x = res[j];
                            let y = ord[k - res.len()];
                            assert(both[j] == x && both[k] == y);
                            assert(settled(g, mid, x));
                            let at = choose|at: int|
                                0 <= at < successors(g, x).len() && successors(g, x)[at] == y;
                            assert(mid.contains(successors(g, x)[at]));
                            assert(!mid.contains(y));
                        }
                    }
                }
                i += 1;
            }
        },
        None => {
            assert(successors(g, start@).len() == 0);
        },
    }
    let ghost res = texts(result@);
    let ghost now = texts(visited@);
    result.push(String::from_str(start));
    proof {
        let order = texts(result@);
        assert(order =~= res.push(start@));
        assert(order[res.len() as int] == start@);
        lemma_reach_self(g, start@);
        assert forall|v: Seq<char>| order.contains(v) <==> res.contains(v) || v == start@ by {
            if order.contains(v) {
                let at = choose|at: int| 0 <= at < order.len() && order[at] == v;
                if at < res.len() {
                    assert(res[at] == v);
                }
            }
            if res.contains(v) {
                let at = choose|at: int| 0 <= at < res.len() && res[at] == v;
                assert(order[at] == v);
            }
        }
        assert(order.no_duplicates()) by {
            assert forall|a: int, b: int|
                0 <= a < order.len() && 0 <= b < order.len() && a != b implies order[a]
                != order[b] by {
                if a < res.len() {
                    assert(res.contains(res[a]));
                }
                if b < res.len() {
                    assert(res.contains(res[b]));
                }
            }
        }
        assert forall|j: int| 0 <= j < order.len() implies !initial.contains(#[trigger] order[j])
            && settled(g, now, order[j]) && reachable(g, start@, order[j]) by {
            if j < res.len() {
                assert(order[j] == res[j]);
            }
        }
        assert forall|j: int, k: int|
            0 <= j < k < order.len() && edge(
                g,
                #[trigger] order[j],
                #[trigger] order[k],
            ) implies reachable(g, order[k], order[j]) by {
            if k < res.len() {
                assert(order[j] == res[j] && order[k] == res[k]);
            } else {
                assert(order[j] == res[j]);
            }
        }
        if initial.len() == 0 {
            let set = now.to_set();
            assert forall|a: Seq<char>, b: Seq<char>| set.contains(a) && #[trigger] edge(
                g,
                a,
                b,
            ) implies set.contains(b) by {
                assert(now.contains(a));
                assert(order.contains(a));
                let j = choose|j: int| 0 <= j < order.len() && order[j] == a;
                assert(settled(g, now, order[j]));
                let k = choose|k: int| 0 <= k < successors(g, a).len() && successors(g, a)[k] == b;
                assert(now.contains(successors(g, a)[k]));
            }
            assert(closed(g, set));
            assert forall|v: Seq<char>| reachable(g, start@, v) <==> #[trigger] order.contains(
                v,
            ) by {
                if reachable(g, start@, v) {
                    lemma_closed_holds_reachable(g, set, start@, v);
                    assert(now.contains(v));
                }
                if order.contains(v) {
                    let j = choose|j: int| 0 <= j < order.len() && order[j] == v;
                    assert(reachable(g, start@, order[j]));
                }
            }
        }
    }
    result
}

} // verus!
