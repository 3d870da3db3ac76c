//! Directed graphs whose nodes are named by strings, and what it means to
//! get from one node to another.

use crate::expr::{copy_names, same_text, texts};
use vstd::prelude::*;
use vstd::string::StringExecFns;

verus! {

/// A directed graph: for each node that has an entry, the nodes that its
/// edges lead to, in the order in which they are listed. A later entry for
/// a node replaces an earlier one. A node without an entry has no edges.
pub struct Graph {
    pub entries: Vec<(String, Vec<String>)>,
}

/// The graph as a mapping from the name of a node to the names that its
/// edges lead to.
pub type GraphModel = Map<Seq<char>, Seq<Seq<char>>>;

/// The mapping that the first `n` entries make.
pub open spec fn adjacency(entries: Seq<(String, Vec<String>)>, n: nat) -> GraphModel
    decreases n,
{
    if n == 0 || n > entries.len() {
        Map::empty()
    } else {
        adjacency(entries, (n - 1) as nat).insert(entries[n - 1].0@, texts(entries[n - 1].1@))
    }
}

impl View for Graph {
    type V = GraphModel;

    open spec fn view(&self) -> GraphModel {
        adjacency(self.entries@, self.entries@.len())
    }
}

/// The nodes that the edges of `node` lead to.
pub open spec fn successors(g: GraphModel, node: Seq<char>) -> Seq<Seq<char>> {
    if g.dom().contains(node) {
        g[node]
    } else {
        Seq::empty()
    }
}

/// Whether an edge leads from `a` to `b`.
pub open spec fn edge(g: GraphModel, a: Seq<char>, b: Seq<char>) -> bool {
    successors(g, a).contains(b)
}

/// Whether an edge leads from each node of the sequence to the next.
pub open spec fn is_walk(g: GraphModel, path: Seq<Seq<char>>) -> bool {
    forall|i: int| 0 <= i < path.len() - 1 ==> edge(g, #[trigger] path[i], path[i + 1])
}

/// Whether `path` leads from `from` to `to` along edges.
pub open spec fn connects(g: GraphModel, path: Seq<Seq<char>>, from: Seq<char>, to: Seq<char>) -> bool {
    &&& path.len() > 0
    &&& path[0] == from
    &&& path.last() == to
    &&& is_walk(g, path)
}

/// Whether some path leads from `from` to `to`.
pub open spec fn reachable(g: GraphModel, from: Seq<char>, to: Seq<char>) -> bool {
    exists|path: Seq<Seq<char>>| connects(g, path, from, to)
}

/// Whether the set holds, with each of its nodes, the nodes that the edges
/// of that node lead to.
pub open spec fn closed(g: GraphModel, seen: Set<Seq<char>>) -> bool {
    forall|a: Seq<char>, b: Seq<char>| seen.contains(a) && #[trigger] edge(g, a, b) ==> seen.contains(b)
}

/// The names that the first `n` entries list as targets of edges.
pub open spec fn mentioned(entries: Seq<(String, Vec<String>)>, n: nat) -> Seq<Seq<char>>
    decreases n,
{
    if n == 0 || n > entries.len() {
        Seq::empty()
    } else {
        mentioned(entries, (n - 1) as nat) + texts(entries[n - 1].1@)
    }
}

/// Every node that a path reaches from a node of a closed set is in the
/// set.
pub proof fn lemma_closed_keeps_walks(
    g: GraphModel,
    seen: Set<Seq<char>>,
    path: Seq<Seq<char>>,
    i: int,
)
    requires
        closed(g, seen),
        path.len() > 0,
        is_walk(g, path),
        seen.contains(path[0]),
        0 <= i < path.len(),
    ensures
        seen.contains(path[i]),
    decreases i,
{
    if i > 0 {
        lemma_closed_keeps_walks(g, seen, path, i - 1);
        assert(edge(g, path[i - 1], path[i - 1 + 1]));
    }
}

/// A closed set holds every node that can be reached from one of its
/// nodes.
pub proof fn lemma_closed_holds_reachable(
    g: GraphModel,
    seen: Set<Seq<char>>,
    from: Seq<char>,
    to: Seq<char>,
)
    requires
        closed(g, seen),
        seen.contains(from),
        reachable(g, from, to),
    ensures
        seen.contains(to),
{
    let path = choose|path: Seq<Seq<char>>| connects(g, path, from, to);
    lemma_closed_keeps_walks(g, seen, path, path.len() - 1);
}

/// A path with one more edge at its end.
pub proof fn lemma_extend_path(
    g: GraphModel,
    path: Seq<Seq<char>>,
    from: Seq<char>,
    to: Seq<char>,
    next: Seq<char>,
)
    requires
        connects(g, path, from, to),
        edge(g, to, next),
    ensures
        connects(g, path.push(next), from, next),
{
    let longer = path.push(next);
    assert forall|i: int| 0 <= i < longer.len() - 1 implies edge(
        g,
        #[trigger] longer[i],
        longer[i + 1],
    ) by {
        if i < path.len() - 1 {
            assert(edge(g, path[i], path[i + 1]));
        }
    }
}

/// Whether each of the names is among `all`.
pub open spec fn all_among(names: Seq<Seq<char>>, all: Seq<Seq<char>>) -> bool {
    forall|k: int| 0 <= k < names.len() ==> all.contains(#[trigger] names[k])
}

/// What the graph holds for a node is what the last entry for the node
/// lists.
pub proof fn lemma_adjacency(entries: Seq<(String, Vec<String>)>, n: nat, node: Seq<char>)
    requires
        n <= entries.len(),
    ensures
        adjacency(entries, n).dom().contains(node) <==> exists|i: int|
            0 <= i < n && #[trigger] entries[i].0@ == node,
        forall|i: int|
            0 <= i < n && #[trigger] entries[i].0@ == node && (forall|j: int|
                i < j < n ==> #[trigger] entries[j].0@ != node) ==> adjacency(entries, n)[node]
                == texts(entries[i].1@),
    decreases n,
{
    if n > 0 {
        lemma_adjacency(entries, (n - 1) as nat, node);
        if entries[n - 1].0@ != node {
            assert forall|i: int|
                0 <= i < n && #[trigger] entries[i].0@ == node && (forall|j: int|
                    i < j < n ==> #[trigger] entries[j].0@ != node) implies adjacency(
                entries,
                n,
            )[node] == texts(entries[i].1@) by {
                assert(i < n - 1);
            }
        }
    }
}

/// Names that are among the names of a list are among those of a longer
/// one.
pub proof fn lemma_among_more(names: Seq<Seq<char>>, all: Seq<Seq<char>>, more: Seq<Seq<char>>)
    requires
        all_among(names, all),
    ensures
        all_among(names, all + more),
        all_among(more, all + more),
{
    assert forall|k: int| 0 <= k < names.len() implies (all + more).contains(
        #[trigger] names[k],
    ) by {
        let at = choose|at: int| 0 <= at < all.len() && all[at] == names[k];
        assert((all + more)[at] == names[k]);
    }
    assert forall|k: int| 0 <= k < more.len() implies (all + more).contains(#[trigger] more[k]) by {
        assert((all + more)[all.len() + k] == more[k]);
    }
}

/// The nodes that the edges of a node lead to are among the names that
/// the entries mention.
pub proof fn lemma_successors_mentioned(
    entries: Seq<(String, Vec<String>)>,
    n: nat,
    node: Seq<char>,
)
    requires
        n <= entries.len(),
    ensures
        all_among(successors(adjacency(entries, n), node), mentioned(entries, n)),
    decreases n,
{
    if n > 0 {
        lemma_successors_mentioned(entries, (n - 1) as nat, node);
        let before = mentioned(entries, (n - 1) as nat);
        let last = texts(entries[n - 1].1@);
        lemma_among_more(successors(adjacency(entries, (n - 1) as nat), node), before, last);
        if entries[n - 1].0@ == node {
            assert(successors(adjacency(entries, n), node) == last);
        } else {
            assert(successors(adjacency(entries, n), node) == successors(
                adjacency(entries, (n - 1) as nat),
                node,
            ));
        }
    }
}

/// Names that are all different and all among `all` are no more than
/// `all`.
pub proof fn lemma_distinct_within(names: Seq<Seq<char>>, all: Seq<Seq<char>>)
    requires
        names.no_duplicates(),
        all_among(names, all),
    ensures
        names.len() <= all.len(),
{
    names.unique_seq_to_set();
    vstd::seq_lib::seq_to_set_is_finite(all);
    assert(names.to_set().subset_of(all.to_set())) by {
        assert forall|x: Seq<char>| names.to_set().contains(x) implies all.to_set().contains(x) by {
            let i = choose|i: int| 0 <= i < names.len() && names[i] == x;
            assert(all.contains(names[i]));
        }
    }
    vstd::set_lib::lemma_len_subset(names.to_set(), all.to_set());
    all.lemma_cardinality_of_set();
}

/// Whether the node is the end of a path that waits to be followed
/// further.
pub open spec fn queued(queue: Seq<(String, Vec<String>)>, node: Seq<char>) -> bool {
    exists|e: int| 0 <= e < queue.len() && #[trigger] queue[e].0@ == node
}

/// Whether the first `n` of the nodes that the edges of `node` lead to have
/// been seen.
pub open spec fn settled_upto(g: GraphModel, seen: Seq<Seq<char>>, node: Seq<char>, n: int) -> bool {
    forall|k: int|
        0 <= k < n && k < successors(g, node).len() ==> seen.contains(
            #[trigger] successors(g, node)[k],
        )
}

/// Whether every node that an edge of `node` leads to has been seen.
pub open spec fn settled(g: GraphModel, seen: Seq<Seq<char>>, node: Seq<char>) -> bool {
    settled_upto(g, seen, node, successors(g, node).len() as int)
}

/// What has been seen stays seen, and what was settled stays settled, when
/// one more node is seen.
pub proof fn lemma_seen_more(g: GraphModel, seen: Seq<Seq<char>>, node: Seq<char>)
    ensures
        forall|v: Seq<char>| seen.contains(v) ==> #[trigger] seen.push(node).contains(v),
        seen.push(node).contains(node),
        forall|v: Seq<char>, n: int|
            settled_upto(g, seen, v, n) ==> #[trigger] settled_upto(g, seen.push(node), v, n),
{
    let more = seen.push(node);
    assert forall|v: Seq<char>| seen.contains(v) implies #[trigger] more.contains(v) by {
        let i = choose|i: int| 0 <= i < seen.len() && seen[i] == v;
        assert(more[i] == v);
    }
    assert(more[seen.len() as int] == node);
    assert forall|v: Seq<char>, n: int| settled_upto(g, seen, v, n) implies #[trigger] settled_upto(
        g,
        more,
        v,
        n,
    ) by {
        assert forall|k: int| 0 <= k < n && k < successors(g, v).len() implies more.contains(
            #[trigger] successors(g, v)[k],
        ) by {
            assert(seen.contains(successors(g, v)[k]));
        }
    }
}

/// Where every node that has been seen is settled, no node that has not
/// been seen can be reached from one that has.
pub proof fn lemma_all_settled(g: GraphModel, seen: Seq<Seq<char>>, from: Seq<char>, to: Seq<char>)
    requires
        forall|v: Seq<char>| #![trigger seen.contains(v)] seen.contains(v) ==> settled(g, seen, v),
        seen.contains(from),
        !seen.contains(to),
    ensures
        !reachable(g, from, to),
{
    let set = seen.to_set();
    assert forall|a: Seq<char>, b: Seq<char>| set.contains(a) && #[trigger] edge(
        g,
        a,
        b,
    ) implies set.contains(b) by {
        assert(seen.contains(a));
        assert(settled(g, seen, a));
        let k = choose|k: int| 0 <= k < successors(g, a).len() && successors(g, a)[k] == b;
        assert(seen.contains(successors(g, a)[k]));
    }
    assert(closed(g, set));
    if reachable(g, from, to) {
        lemma_closed_holds_reachable(g, set, from, to);
    }
}

/// A name is in two lists put together where it is in one of them.
pub proof fn lemma_contains_concat(a: Seq<Seq<char>>, b: Seq<Seq<char>>, v: Seq<char>)
    ensures
        (a + b).contains(v) <==> a.contains(v) || b.contains(v),
{
    let both = a + b;
    if both.contains(v) {
        let at = choose|at: int| 0 <= at < both.len() && both[at] == v;
        if at < a.len() {
            assert(a[at] == v);
        } else {
            assert(b[at - a.len()] == v);
        }
    }
    if a.contains(v) {
        let at = choose|at: int| 0 <= at < a.len() && a[at] == v;
        assert(both[at] == v);
    }
    if b.contains(v) {
        let at = choose|at: int| 0 <= at < b.len() && b[at] == v;
        assert(both[a.len() + at] == v);
    }
}

/// Names that are among names that are among `c` are among `c`.
pub proof fn lemma_among_trans(a: Seq<Seq<char>>, b: Seq<Seq<char>>, c: Seq<Seq<char>>)
    requires
        all_among(a, b),
        all_among(b, c),
    ensures
        all_among(a, c),
        forall|v: Seq<char>| a.contains(v) ==> #[trigger] b.contains(v),
{
    assert forall|v: Seq<char>| a.contains(v) implies #[trigger] b.contains(v) by {
        let i = choose|i: int| 0 <= i < a.len() && a[i] == v;
        assert(b.contains(a[i]));
    }
    assert forall|k: int| 0 <= k < a.len() implies c.contains(#[trigger] a[k]) by {
        assert(b.contains(a[k]));
        let i = choose|i: int| 0 <= i < b.len() && b[i] == a[k];
        assert(c.contains(b[i]));
    }
}

/// What was settled stays settled where more has been seen.
pub proof fn lemma_settled_more(
    g: GraphModel,
    seen: Seq<Seq<char>>,
    more: Seq<Seq<char>>,
    node: Seq<char>,
    n: int,
)
    requires
        all_among(seen, more),
        settled_upto(g, seen, node, n),
    ensures
        settled_upto(g, more, node, n),
{
    assert forall|k: int| 0 <= k < n && k < successors(g, node).len() implies more.contains(
        #[trigger] successors(g, node)[k],
    ) by {
        let name = successors(g, node)[k];
        assert(seen.contains(name));
        let i = choose|i: int| 0 <= i < seen.len() && seen[i] == name;
        assert(more.contains(seen[i]));
    }
}

/// A path with one more edge at its start.
pub proof fn lemma_prepend_path(
    g: GraphModel,
    path: Seq<Seq<char>>,
    from: Seq<char>,
    to: Seq<char>,
    before: Seq<char>,
)
    requires
        connects(g, path, from, to),
        edge(g, before, from),
    ensures
        connects(g, seq![before] + path, before, to),
{
    let longer = seq![before] + path;
    assert forall|i: int| 0 <= i < longer.len() - 1 implies edge(
        g,
        #[trigger] longer[i],
        longer[i + 1],
    ) by {
        if i > 0 {
            assert(edge(g, path[i - 1], path[i - 1 + 1]));
        }
    }
}

/// Two paths, of which the second starts where the first ends, as one.
pub proof fn lemma_join_paths(
    g: GraphModel,
    first: Seq<Seq<char>>,
    second: Seq<Seq<char>>,
    from: Seq<char>,
    by: Seq<char>,
    to: Seq<char>,
)
    requires
        connects(g, first, from, by),
        connects(g, second, by, to),
    ensures
        connects(g, first + second.drop_first(), from, to),
{
    let joined = first + second.drop_first();
    assert forall|i: int| 0 <= i < joined.len() - 1 implies edge(
        g,
        #[trigger] joined[i],
        joined[i + 1],
    ) by {
        if i < first.len() - 1 {
            assert(edge(g, first[i], first[i + 1]));
        } else {
            let k = i - (first.len() - 1);
            assert(edge(g, second[k], second[k + 1]));
        }
    }
}

/// Adds the name to the names unless it is among them.
pub fn insert_name(names: &mut Vec<String>, name: &str)
    ensures
        texts(final(names)@) == texts(old(names)@) || texts(final(names)@) == texts(
            old(names)@,
        ).push(name@),
        texts(old(names)@).contains(name@) <==> texts(final(names)@) == texts(old(names)@),
        texts(final(names)@).contains(name@),
        all_among(texts(old(names)@), texts(final(names)@)),
        forall|v: Seq<char>|
            texts(final(names)@).contains(v) <==> texts(old(names)@).contains(v) || v == name@,
{
    let ghost before = texts(names@);
    if !contains_name(names, name) {
        names.push(String::from_str(name));
        proof {
            let after = texts(names@);
            assert(after =~= before.push(name@));
            assert(after[before.len() as int] == name@);
            assert forall|k: int| 0 <= k < before.len() implies after.contains(
                #[trigger] before[k],
            ) by {
                assert(after[k] == before[k]);
            }
            assert forall|v: Seq<char>| after.contains(v) <==> before.contains(v) || v == name@ by {
                if after.contains(v) {
                    let i = choose|i: int| 0 <= i < after.len() && after[i] == v;
                    if i < before.len() {
                        assert(before[i] == v);
                    }
                }
                if before.contains(v) {
                    let i = choose|i: int| 0 <= i < before.len() && before[i] == v;
                    assert(after[i] == v);
                }
            }
        }
    } else {
        assert forall|k: int| 0 <= k < before.len() implies before.contains(#[trigger] before[k]) by {}
    }
}

/// How many of the names of `all` have not been seen.
pub open spec fn unseen(all: Seq<Seq<char>>, seen: Seq<Seq<char>>) -> nat {
    all.to_set().difference(seen.to_set()).len()
}

/// Where more has been seen and no more names are counted, no more names
/// are unseen; and fewer are, where a name that was unseen has been seen.
pub proof fn lemma_unseen(
    all: Seq<Seq<char>>,
    seen: Seq<Seq<char>>,
    fewer: Seq<Seq<char>>,
    more: Seq<Seq<char>>,
)
    requires
        all_among(fewer, all),
        all_among(seen, more),
    ensures
        unseen(fewer, more) <= unseen(all, seen),
        forall|x: Seq<char>|
            all.contains(x) && !seen.contains(x) && #[trigger] more.contains(x) ==> unseen(
                fewer,
                more,
            ) < unseen(all, seen),
{
    let large = all.to_set().difference(seen.to_set());
    let small = fewer.to_set().difference(more.to_set());
    vstd::seq_lib::seq_to_set_is_finite(all);
    vstd::set_lib::lemma_len_subset(large, all.to_set());
    assert forall|v: Seq<char>| small.contains(v) implies large.contains(v) by {
        let i = choose|i: int| 0 <= i < fewer.len() && fewer[i] == v;
        assert(all.contains(fewer[i]));
        if seen.contains(v) {
            let j = choose|j: int| 0 <= j < seen.len() && seen[j] == v;
            assert(more.contains(seen[j]));
        }
    }
    assert(small.subset_of(large));
    vstd::set_lib::lemma_len_subset(small, large);
    assert forall|x: Seq<char>|
        all.contains(x) && !seen.contains(x) && #[trigger] more.contains(x) implies unseen(
        fewer,
        more,
    ) < unseen(all, seen) by {
        small.lemma_subset_not_in_lt(large, x);
    }
}

/// Whether the name is among the names.
pub fn contains_name(names: &Vec<String>, name: &str) -> (r: bool)
    ensures
        r == texts(names@).contains(name@),
{
    let mut i: usize = 0;
    while i < names.len()
        invariant
            i <= names.len(),
            forall|j: int| 0 <= j < i ==> #[trigger] texts(names@)[j] != name@,
        decreases names.len() - i,
    {
        assert(texts(names@)[i as int] == names@[i as int]@);
        if same_text(names[i].as_str(), name) {
            return true;
        }
        i += 1;
    }
    false
}

impl Graph {
    /// The graph without nodes.
    pub fn new() -> (g: Graph)
        ensures
            g@ == Map::<Seq<char>, Seq<Seq<char>>>::empty(),
            g.entries@.len() == 0,
    {
        Graph { entries: Vec::new() }
    }

    /// Gives `node` the edges to `neighbors`, in place of those that it had.
    pub fn insert(&mut self, node: String, neighbors: Vec<String>)
        ensures
            final(self)@ == old(self)@.insert(node@, texts(neighbors@)),
    {
        let ghost before = self.entries@;
        self.entries.push((node, neighbors));
        proof {
            lemma_adjacency_prefix(before, self.entries@, before.len());
        }
    }

    /// The nodes that the edges of `node` lead to, if the node has an entry.
    pub fn get(&self, node: &str) -> (r: Option<&Vec<String>>)
        ensures
            match r {
                Some(list) => self@.dom().contains(node@) && self@[node@] == texts(list@),
                None => !self@.dom().contains(node@),
            },
    {
        let mut i: usize = self.entries.len();
        while i > 0
            invariant
                i <= self.entries.len(),
                forall|j: int| i <= j < self.entries.len() ==> #[trigger] self.entries@[j].0@ != node@,
            decreases i,
        {
            i -= 1;
            if same_text(self.entries[i].0.as_str(), node) {
                proof {
                    lemma_adjacency(self.entries@, self.entries@.len(), node@);
                }
                return Some(&self.entries[i].1);
            }
        }
        proof {
            lemma_adjacency(self.entries@, self.entries@.len(), node@);
        }
        None
    }
}

/// Two lists of entries that agree on their first `n` entries make the
/// same mapping from them.
pub proof fn lemma_adjacency_prefix(
    a: Seq<(String, Vec<String>)>,
    b: Seq<(String, Vec<String>)>,
    n: nat,
)
    requires
        n <= a.len(),
        n <= b.len(),
        forall|i: int| 0 <= i < n ==> a[i] == b[i],
    ensures
        adjacency(a, n) == adjacency(b, n),
        mentioned(a, n) == mentioned(b, n),
    decreases n,
{
    if n > 0 {
        lemma_adjacency_prefix(a, b, (n - 1) as nat);
    }
}

/// Whether no later entry is for the node of the `i`-th entry, so that the
/// `i`-th entry says what the edges of its node are.
pub open spec fn is_last(entries: Seq<(String, Vec<String>)>, i: int) -> bool {
    forall|j: int| i < j < entries.len() ==> #[trigger] entries[j].0@ != entries[i].0@
}

/// Whether the entry that counts for `node` is among the first `n`.
pub open spec fn finished(entries: Seq<(String, Vec<String>)>, n: int, node: Seq<char>) -> bool {
    exists|j: int| 0 <= j < n && j < entries.len() && #[trigger] entries[j].0@ == node && is_last(entries, j)
}

/// A node that has an entry has one that counts.
pub proof fn lemma_has_last(entries: Seq<(String, Vec<String>)>, n: nat, node: Seq<char>)
    requires
        n <= entries.len(),
        exists|i: int| 0 <= i < n && #[trigger] entries[i].0@ == node,
    ensures
        exists|i: int|
            0 <= i < n && #[trigger] entries[i].0@ == node && (forall|j: int|
                i < j < n ==> #[trigger] entries[j].0@ != node),
    decreases n,
{
    if entries[n - 1].0@ == node {
        assert(entries[n - 1].0@ == node && (forall|j: int|
            n - 1 < j < n ==> #[trigger] entries[j].0@ != node));
    } else {
        let w = choose|i: int| 0 <= i < n && #[trigger] entries[i].0@ == node;
        assert(w < n - 1);
        lemma_has_last(entries, (n - 1) as nat, node);
        let i = choose|i: int|
            0 <= i < n - 1 && #[trigger] entries[i].0@ == node && (forall|j: int|
                i < j < n - 1 ==> #[trigger] entries[j].0@ != node);
        assert(forall|j: int| i < j < n ==> #[trigger] entries[j].0@ != node);
    }
}

impl Graph {
    /// Whether the `i`-th entry is the one that counts for its node.
    fn counts(&self, i: usize) -> (r: bool)
        requires
            i < self.entries.len(),
        ensures
            r == is_last(self.entries@, i as int),
    {
        let mut j: usize = i + 1;
        while j < self.entries.len()
            invariant
                i < j <= self.entries.len(),
                forall|t: int| i < t < j ==> #[trigger] self.entries@[t].0@ != self.entries@[i as int].0@,
            decreases self.entries.len() - j,
        {
            if same_text(self.entries[j].0.as_str(), self.entries[i].0.as_str()) {
                return false;
            }
            j += 1;
        }
        true
    }

    /// The graph with every edge turned round.
    pub fn reversed(&self) -> (r: Graph)
        ensures
            forall|a: Seq<char>, b: Seq<char>| #[trigger] edge(r@, b, a) <==> edge(self@, a, b),
    {
        let ghost g = self@;
        let ghost entries = self.entries@;
        let mut rev = Graph::new();
        let mut i: usize = 0;
        while i < self.entries.len()
            invariant
                g == self@,
                entries == self.entries@,
                i <= self.entries.len(),
                forall|a: Seq<char>, b: Seq<char>|
                    #[trigger] edge(rev@, b, a) <==> edge(g, a, b) && finished(entries, i as int, a),
            decreases self.entries.len() - i,
        {
            let ghost name = entries[i as int].0@;
            if self.counts(i) {
                let node = self.entries[i].0.as_str();
                let neighbors = &self.entries[i].1;
                let ghost list = texts(neighbors@);
                proof {
                    lemma_adjacency(entries, entries.len(), name);
                    assert(successors(g, name) == list);
                    assert(!finished(entries, i as int, name));
                }
                let mut k: usize = 0;
                while k < neighbors.len()
                    invariant
                        g == self@,
                        entries == self.entries@,
                        i < self.entries.len(),
                        k <= neighbors.len(),
                        name == entries[i as int].0@,
                        node@ == name,
                        list == texts(neighbors@),
                        successors(g, name) == list,
                        !finished(entries, i as int, name),
                        forall|a: Seq<char>, b: Seq<char>|
                            #[trigger] edge(rev@, b, a) <==> (edge(g, a, b) && finished(
                                entries,
                                i as int,
                                a,
                            )) || (a == name && exists|t: int| 0 <= t < k && list[t] == b),
                    decreases neighbors.len() - k,
                {
                    let neighbor = neighbors[k].as_str();
                    let ghost before = rev@;
                    let ghost old_list = successors(before, neighbor@);
                    let mut sources: Vec<String> = match rev.get(neighbor) {
                        Some(known) => copy_names(known),
                        None => Vec::new(),
                    };
                    proof {
                        assert(texts(sources@) =~= old_list);
                    }
                    sources.push(String::from_str(node));
                    proof {
                        assert(texts(sources@) =~= old_list.push(name));
                        assert(list[k as int] == neighbor@);
                    }
                    rev.insert(String::from_str(neighbor), sources);
                    proof {
                        let new_list = old_list.push(name);
                        assert forall|a: Seq<char>, b: Seq<char>| #[trigger] edge(rev@, b, a) <==> (
                        edge(g, a, b) && finished(entries, i as int, a)) || (a == name && exists|
                            t: int,
                        |
                            0 <= t < k + 1 && list[t] == b) by {
                            let was = edge(before, b, a);
                            assert(was <==> (edge(g, a, b) && finished(entries, i as int, a)) || (a
                                == name && exists|t: int| 0 <= t < k && list[t] == b));
                            if b == neighbor@ {
                                assert(successors(rev@, b) == new_list);
                                if new_list.contains(a) {
                                    let at = choose|at: int|
                                        0 <= at < new_list.len() && new_list[at] == a;
                                    if at < old_list.len() {
                                        assert(old_list[at] == a);
                                        assert(was);
                                    } else {
                                        assert(a == name);
                                        assert(list[k as int] == b);
                                    }
                                }
                                if was {
                                    let at = choose|at: int|
                                        0 <= at < old_list.len() && old_list[at] == a;
                                    assert(new_list[at] == a);
                                }
                                if a == name {
                                    assert(new_list[old_list.len() as int] == a);
                                }
                            } else {
                                assert(successors(rev@, b) == successors(before, b));
                                if a == name && exists|t: int| 0 <= t < k + 1 && list[t] == b {
                                    let t = choose|t: int| 0 <= t < k + 1 && list[t] == b;
                                    assert(t < k);
                                }
                            }
                        }
                    }
                    k += 1;
                }
                proof {
                    assert(finished(entries, i + 1, name)) by {
                        assert(entries[i as int].0@ == name && is_last(entries, i as int));
                    }
                    assert forall|a: Seq<char>, b: Seq<char>| #[trigger] edge(rev@, b, a) <==> edge(
                        g,
                        a,
                        b,
                    ) && finished(entries, i + 1, a) by {
                        if a == name {
                            if edge(g, a, b) {
                                let t = choose|t: int| 0 <= t < list.len() && list[t] == b;
                                assert(0 <= t < k && list[t] == b);
                            }
                        } else {
                            if finished(entries, i + 1, a) {
                                let j = choose|j: int|
                                    0 <= j < i + 1 && j < entries.len() && #[trigger] entries[j].0@
                                        == a && is_last(entries, j);
                                assert(j < i);
                            }
                            if finished(entries, i as int, a) {
                                let j = choose|j: int|
                                    0 <= j < i && j < entries.len() && #[trigger] entries[j].0@ == a
                                        && is_last(entries, j);
                                assert(0 <= j < i + 1);
                            }
                        }
                    }
                }
            } else {
                proof {
                    assert forall|a: Seq<char>| finished(entries, i + 1, a) <==> finished(
                        entries,
                        i as int,
                        a,
                    ) by {
                        if finished(entries, i + 1, a) {
                            let j = choose|j: int|
                                0 <= j < i + 1 && j < entries.len() && #[trigger] entries[j].0@ == a
                                    && is_last(entries, j);
                            assert(j < i);
                        }
                        if finished(entries, i as int, a) {
                            let j = choose|j: int|
                                0 <= j < i && j < entries.len() && #[trigger] entries[j].0@ == a
                                    && is_last(entries, j);
                            assert(0 <= j < i + 1);
                        }
                    }
                }
            }
            i += 1;
        }
        proof {
            assert forall|a: Seq<char>, b: Seq<char>| #[trigger] edge(rev@, b, a) <==> edge(
                g,
                a,
                b,
            ) by {
                if edge(g, a, b) {
                    assert(g.dom().contains(a));
                    lemma_adjacency(entries, entries.len(), a);
                    lemma_has_last(entries, entries.len(), a);
                    let j = choose|j: int|
                        0 <= j < entries.len() && #[trigger] entries[j].0@ == a && (forall|t: int|
                            j < t < entries.len() ==> #[trigger] entries[t].0@ != a);
                    assert(is_last(entries, j));
                    assert(finished(entries, entries.len() as int, a));
                }
            }
        }
        rev
    }
}

} // verus!
