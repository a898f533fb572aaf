//! Greedy graph search that keeps its results in a list.

use vstd::multiset::Multiset;
use vstd::prelude::*;

use crate::beam::{is_graph, lemma_below_len, listed_below, Nodes, Space};
use crate::heap::{is_least, least, lemma_least_exists, MinHeap, Ranked};
use crate::reach::{edge, lemma_reach_closed, lemma_reach_self, lemma_reach_step, reachable};
use crate::sorting::{
    ascending, lemma_stable_sort, lemma_stable_sort_contains, sort_by_key, stable_sort,
};
use crate::table::rows;

verus! {

/// The state of a search.
#[verifier::ext_equal]
pub ghost struct Hunt {
    /// The nodes met so far.
    pub visited: Set<u32>,
    /// The nodes to expand, the best one least.
    pub frontier: Multiset<Ranked>,
    /// The results, in no particular order.
    pub best: Seq<(u64, u32)>,
}

/// The position of the greatest key; of equal ones, the last.
pub open spec fn last_greatest(s: Seq<(u64, u32)>) -> nat
    recommends
        s.len() > 0,
    decreases s.len(),
{
    if s.len() <= 1 {
        0
    } else {
        let p = last_greatest(s.drop_last());
        if s[p as int].0 <= s.last().0 {
            (s.len() - 1) as nat
        } else {
            p
        }
    }
}

/// A node as an entry of the frontier.
pub open spec fn waiting(nodes: Nodes, id: u32) -> Ranked {
    (nodes.rank_of(id), id as usize)
}

/// The state after a node was met. One that is not admitted is not walked
/// through either.
pub open spec fn meet(nodes: Nodes, ef: usize, h: Hunt, id: u32) -> Hunt {
    if h.visited.contains(id) {
        h
    } else if !nodes.admits(id) {
        Hunt { visited: h.visited.insert(id), ..h }
    } else {
        let r = nodes.rank_of(id);
        let w = last_greatest(h.best) as int;
        if h.best.len() < ef {
            Hunt {
                visited: h.visited.insert(id),
                frontier: h.frontier.insert(waiting(nodes, id)),
                best: h.best.push((r, id)),
            }
        } else if r < h.best[w].0 {
            Hunt {
                visited: h.visited.insert(id),
                frontier: h.frontier.insert(waiting(nodes, id)),
                best: h.best.update(w, (r, id)),
            }
        } else {
            Hunt { visited: h.visited.insert(id), ..h }
        }
    }
}

/// The state after the nodes of a list were met.
pub open spec fn meet_all(nodes: Nodes, ef: usize, h: Hunt, ids: Seq<u32>) -> Hunt
    decreases ids.len(),
{
    if ids.len() == 0 {
        h
    } else {
        meet(nodes, ef, meet_all(nodes, ef, h, ids.drop_last()), ids.last())
    }
}

/// There are enough results, and a node with rank `r` is worse than all of them.
pub open spec fn settled(ef: usize, best: Seq<(u64, u32)>, r: u64) -> bool {
    best.len() >= ef && r > best[last_greatest(best) as int].0
}

/// The state in which a search ends that may expand `fuel` nodes more.
pub open spec fn walk(nodes: Nodes, ef: usize, adj: Seq<Seq<u32>>, h: Hunt, fuel: nat) -> Hunt
    decreases fuel,
{
    if fuel == 0 || h.frontier.len() == 0 {
        h
    } else {
        let c = least(h.frontier);
        let rest = Hunt { frontier: h.frontier.remove(c), ..h };
        if settled(ef, h.best, c.0) {
            rest
        } else {
            walk(nodes, ef, adj, meet_all(nodes, ef, rest, adj[c.1 as int]), (fuel - 1) as nat)
        }
    }
}

/// A search that starts at one node. The node is a result even if it is not
/// admitted.
pub open spec fn start(nodes: Nodes, entry: u32) -> Hunt {
    Hunt {
        visited: Set::empty().insert(entry),
        frontier: Multiset::empty().insert(waiting(nodes, entry)),
        best: seq![(nodes.rank_of(entry), entry)],
    }
}

/// What a search returns: ranks and nodes, by ascending rank.
pub open spec fn hunted(nodes: Nodes, ef: usize, adj: Seq<Seq<u32>>, entry: u32) -> Seq<(u64, u32)> {
    stable_sort(walk(nodes, ef, adj, start(nodes, entry), nodes.size()).best)
}

/// The entries of a state stand for nodes that were met, under their ranks, and
/// no node is a result twice.
spec fn sound(nodes: Nodes, entry: u32, h: Hunt) -> bool {
    &&& h.visited.finite()
    &&& forall|id: u32| #[trigger] h.visited.contains(id) ==> id < nodes.size()
    &&& forall|x: Ranked| #[trigger]
        h.frontier.contains(x) ==> x == waiting(nodes, x.1 as u32) && h.visited.contains(
            x.1 as u32,
        ) && (x.1 as u32 == entry || nodes.admits(x.1 as u32))
    &&& forall|i: int|
        0 <= i < h.best.len() ==> {
            let x = #[trigger] h.best[i];
            &&& x.0 == nodes.rank_of(x.1)
            &&& h.visited.contains(x.1)
            &&& x.1 == entry || nodes.admits(x.1)
        }
    &&& forall|i: int, j: int|
        0 <= i < j < h.best.len() ==> (#[trigger] h.best[i]).1 != (#[trigger] h.best[j]).1
    &&& h.frontier.len() <= h.visited.len()
    &&& 1 <= h.best.len() <= h.visited.len()
}

/// The greatest key.
proof fn lemma_last_greatest(s: Seq<(u64, u32)>)
    requires
        s.len() > 0,
    ensures
        last_greatest(s) < s.len(),
        forall|i: int| 0 <= i < s.len() ==> (#[trigger] s[i]).0 <= s[last_greatest(s) as int].0,
    decreases s.len(),
{
    if s.len() > 1 {
        let t = s.drop_last();
        lemma_last_greatest(t);
        assert forall|i: int| 0 <= i < s.len() implies (#[trigger] s[i]).0 <= s[last_greatest(
            s,
        ) as int].0 by {
            if i < t.len() {
                assert(t[i] == s[i]);
            }
        }
    }
}

proof fn lemma_meet_sound(nodes: Nodes, ef: usize, entry: u32, h: Hunt, id: u32)
    requires
        sound(nodes, entry, h),
        id < nodes.size(),
    ensures
        sound(nodes, entry, meet(nodes, ef, h, id)),
        meet(nodes, ef, h, id).visited == h.visited.insert(id),
        meet(nodes, ef, h, id).frontier.len() - h.frontier.len() <= meet(
            nodes,
            ef,
            h,
            id,
        ).visited.len() - h.visited.len(),
{
    broadcast use vstd::multiset::group_multiset_axioms;
    broadcast use vstd::set::group_set_axioms;

    let a = meet(nodes, ef, h, id);
    if h.visited.contains(id) {
        assert(h.visited.insert(id) =~= h.visited);
    } else {
        lemma_last_greatest(h.best);
        assert(a.visited.len() == h.visited.len() + 1);
        assert forall|x: Ranked| #[trigger] a.frontier.contains(x) implies x == waiting(
            nodes,
            x.1 as u32,
        ) && a.visited.contains(x.1 as u32) && (x.1 as u32 == entry || nodes.admits(
            x.1 as u32,
        )) by {
            if h.frontier.contains(x) {
            } else {
                assert(x == waiting(nodes, id));
            }
        }
        assert forall|i: int| 0 <= i < a.best.len() implies {
            let x = #[trigger] a.best[i];
            &&& x.0 == nodes.rank_of(x.1)
            &&& a.visited.contains(x.1)
            &&& x.1 == entry || nodes.admits(x.1)
        } by {
            if a.best[i].1 != id {
                assert(a.best[i] == h.best[i]);
            }
        }
        assert forall|i: int, j: int| 0 <= i < j < a.best.len() implies (#[trigger] a.best[i]).1
            != (#[trigger] a.best[j]).1 by {
            if i < h.best.len() {
                assert(h.visited.contains(h.best[i].1));
            }
            if j < h.best.len() {
                assert(h.visited.contains(h.best[j].1));
            }
        }
    }
}

proof fn lemma_meet_all_sound(nodes: Nodes, ef: usize, entry: u32, h: Hunt, ids: Seq<u32>)
    requires
        sound(nodes, entry, h),
        listed_below(ids, nodes.size()),
    ensures
        sound(nodes, entry, meet_all(nodes, ef, h, ids)),
        h.visited.subset_of(meet_all(nodes, ef, h, ids).visited),
        forall|i: int|
            0 <= i < ids.len() ==> meet_all(nodes, ef, h, ids).visited.contains(#[trigger] ids[i]),
        meet_all(nodes, ef, h, ids).frontier.len() - h.frontier.len() <= meet_all(
            nodes,
            ef,
            h,
            ids,
        ).visited.len() - h.visited.len(),
    decreases ids.len(),
{
    if ids.len() > 0 {
        let t = ids.drop_last();
        assert forall|i: int| 0 <= i < t.len() implies (#[trigger] t[i]) < nodes.size() by {
            assert(t[i] == ids[i]);
        }
        lemma_meet_all_sound(nodes, ef, entry, h, t);
        lemma_meet_sound(nodes, ef, entry, meet_all(nodes, ef, h, t), ids.last());
        let a = meet_all(nodes, ef, h, ids);
        assert forall|i: int| 0 <= i < ids.len() implies a.visited.contains(#[trigger] ids[i]) by {
            if i < t.len() {
                assert(t[i] == ids[i]);
            }
        }
    }
}

/// The node that is expanded next was met.
proof fn lemma_next(nodes: Nodes, entry: u32, h: Hunt)
    requires
        sound(nodes, entry, h),
        h.frontier.len() > 0,
    ensures
        is_least(h.frontier, least(h.frontier)),
        h.frontier.contains(least(h.frontier)),
        sound(nodes, entry, (Hunt { frontier: h.frontier.remove(least(h.frontier)), ..h })),
        least(h.frontier).1 < nodes.size(),
        least(h.frontier).1 <= u32::MAX,
{
    broadcast use vstd::multiset::group_multiset_axioms;

    lemma_least_exists(h.frontier);
    let c = least(h.frontier);
    let rest = h.frontier.remove(c);
    assert forall|x: Ranked| #[trigger] rest.contains(x) implies h.frontier.contains(x) by {}
}

proof fn lemma_start_sound(nodes: Nodes, entry: u32)
    requires
        entry < nodes.size(),
    ensures
        sound(nodes, entry, start(nodes, entry)),
{
    broadcast use vstd::multiset::group_multiset_axioms;
    broadcast use vstd::set::group_set_axioms;

    let h = start(nodes, entry);
    assert(h.visited.len() == 1);
    assert forall|x: Ranked| #[trigger] h.frontier.contains(x) implies x == waiting(
        nodes,
        entry,
    ) by {}
}

/// A search in progress.
struct Hunter {
    visited: Vec<bool>,
    frontier: MinHeap,
    best: Vec<(u64, u32)>,
}

impl View for Hunter {
    type V = Hunt;

    closed spec fn view(&self) -> Hunt {
        Hunt {
            visited: Set::new(|id: u32| id < self.visited@.len() && self.visited@[id as int]),
            frontier: self.frontier@,
            best: self.best@,
        }
    }
}

/// Finds the position of the greatest key.
fn find_last_greatest(s: &[(u64, u32)]) -> (p: usize)
    requires
        s@.len() > 0,
    ensures
        p == last_greatest(s@),
        p < s@.len(),
{
    let n: usize = s.len();
    let mut p: usize = 0;
    let mut i: usize = 1;
    while i < n
        invariant
            1 <= i <= n,
            n == s@.len(),
            p < i,
            p == last_greatest(s@.take(i as int)),
        decreases n - i,
    {
        proof {
            assert(s@.take(i + 1).drop_last() =~= s@.take(i as int));
        }
        if s[p].0 <= s[i].0 {
            p = i;
        }
        i += 1;
    }
    assert(s@.take(n as int) =~= s@);
    p
}

impl Hunter {
    fn new<S: Space>(n: usize, space: &S, entry: u32) -> (w: Hunter)
        requires
            n == space.nodes().size(),
            entry < n,
        ensures
            w.visited@.len() == n,
            w@ == start(space.nodes(), entry),
    {
        let mut visited: Vec<bool> = Vec::new();
        let mut i: usize = 0;
        while i < n
            invariant
                i <= n,
                visited@ =~= Seq::new(i as nat, |j: int| j == entry),
            decreases n - i,
        {
            visited.push(i == entry as usize);
            i += 1;
        }
        let r: u64 = space.rank(entry);
        let mut frontier = MinHeap::new();
        frontier.push((r, entry as usize));
        let best: Vec<(u64, u32)> = vec![(r, entry)];
        let w = Hunter { visited, frontier, best };
        proof {
            assert(w@.visited =~= Set::empty().insert(entry));
            assert(w@.best =~= seq![(r, entry)]);
            assert(w@ =~= start(space.nodes(), entry));
        }
        w
    }

    fn visit<S: Space>(&mut self, space: &S, ef: usize, id: u32)
        requires
            old(self).visited@.len() == space.nodes().size(),
            id < space.nodes().size(),
            old(self).best@.len() > 0,
        ensures
            final(self).visited@.len() == old(self).visited@.len(),
            final(self)@ == meet(space.nodes(), ef, old(self)@, id),
            final(self).best@.len() > 0,
    {
        if self.visited[id as usize] {
            assert(self@.visited.contains(id));
            return ;
        }
        assert(!self@.visited.contains(id));
        self.visited.set(id as usize, true);
        if space.allow(id) {
            let r: u64 = space.rank(id);
            if self.best.len() < ef {
                self.best.push((r, id));
                self.frontier.push((r, id as usize));
            } else {
                let w: usize = find_last_greatest(self.best.as_slice());
                if r < self.best[w].0 {
                    self.best.set(w, (r, id));
                    self.frontier.push((r, id as usize));
                }
            }
        }
        proof {
            assert(self@.visited =~= old(self)@.visited.insert(id));
            assert(self@ =~= meet(space.nodes(), ef, old(self)@, id));
        }
    }

    fn visit_all<S: Space>(&mut self, space: &S, ef: usize, ids: &[u32])
        requires
            old(self).visited@.len() == space.nodes().size(),
            listed_below(ids@, space.nodes().size()),
            old(self).best@.len() > 0,
        ensures
            final(self).visited@.len() == old(self).visited@.len(),
            final(self)@ == meet_all(space.nodes(), ef, old(self)@, ids@),
            final(self).best@.len() > 0,
    {
        let n: usize = ids.len();
        let mut i: usize = 0;
        assert(ids@.take(0) =~= Seq::empty());
        while i < n
            invariant
                i <= n,
                n == ids@.len(),
                listed_below(ids@, space.nodes().size()),
                self.visited@.len() == space.nodes().size(),
                self.visited@.len() == old(self).visited@.len(),
                self.best@.len() > 0,
                self@ == meet_all(space.nodes(), ef, old(self)@, ids@.take(i as int)),
            decreases n - i,
        {
            proof {
                assert(ids@.take(i + 1).drop_last() =~= ids@.take(i as int));
                assert(ids@.take(i + 1).last() == ids@[i as int]);
            }
            self.visit(space, ef, ids[i]);
            i += 1;
        }
        assert(ids@.take(n as int) =~= ids@);
    }

    fn run<S: Space>(&mut self, space: &S, ef: usize, adj: &Vec<Vec<u32>>, entry: u32)
        requires
            old(self).visited@.len() == space.nodes().size(),
            is_graph(rows(adj@), space.nodes().size()),
            sound(space.nodes(), entry, old(self)@),
        ensures
            final(self)@ == walk(space.nodes(), ef, rows(adj@), old(self)@, space.nodes().size()),
    {
        let ghost n = space.nodes().size();
        let ghost mut fuel: nat = n;
        let ghost all = walk(space.nodes(), ef, rows(adj@), old(self)@, n);
        let mut more: bool = true;
        proof {
            lemma_below_len(self@.visited, n);
        }
        while more
            invariant
                n == space.nodes().size(),
                self.visited@.len() == n,
                is_graph(rows(adj@), n),
                sound(space.nodes(), entry, self@),
                self@.frontier.len() + n - self@.visited.len() <= fuel,
                more ==> all == walk(space.nodes(), ef, rows(adj@), self@, fuel),
                !more ==> all == self@,
                self@.visited.len() <= n,
            decreases fuel + if more {
                1nat
            } else {
                0nat
            },
        {
            let ghost h = self@;
            match self.frontier.pop() {
                None => {
                    more = false;
                    assert(self@ =~= h);
                },
                Some(c) => {
                    proof {
                        lemma_next(space.nodes(), entry, h);
                        assert(self@ =~= Hunt { frontier: h.frontier.remove(c), ..h });
                    }
                    let stop: bool = if self.best.len() >= ef {
                        let w: usize = find_last_greatest(self.best.as_slice());
                        c.0 > self.best[w].0
                    } else {
                        false
                    };
                    if stop {
                        more = false;
                    } else {
                        assert(rows(adj@)[c.1 as int] == adj@[c.1 as int]@);
                        proof {
                            lemma_meet_all_sound(
                                space.nodes(),
                                ef,
                                entry,
                                self@,
                                adj@[c.1 as int]@,
                            );
                        }
                        self.visit_all(space, ef, adj[c.1].as_slice());
                        proof {
                            lemma_below_len(self@.visited, n);
                            fuel = (fuel - 1) as nat;
                        }
                    }
                },
            }
        }
    }
}

/// Searches from one node.
pub fn hunt<S: Space>(space: &S, ef: usize, adj: &Vec<Vec<u32>>, entry: u32) -> (r: Vec<(u64, u32)>)
    requires
        is_graph(rows(adj@), space.nodes().size()),
        entry < space.nodes().size(),
    ensures
        r@ == hunted(space.nodes(), ef, rows(adj@), entry),
{
    let mut w = Hunter::new(adj.len(), space, entry);
    proof {
        lemma_start_sound(space.nodes(), entry);
    }
    w.run(space, ef, adj, entry);
    sort_by_key(w.best.as_slice())
}

/// The graph without the edges to nodes that are not admitted.
pub open spec fn pruned(nodes: Nodes, adj: Seq<Seq<u32>>) -> Seq<Seq<u32>> {
    Seq::new(adj.len(), |a: int| adj[a].filter(|x: u32| nodes.admits(x)))
}

/// An edge of the pruned graph is an edge to a node that is admitted.
proof fn lemma_pruned_edge(nodes: Nodes, adj: Seq<Seq<u32>>, a: u32, b: u32)
    ensures
        edge(pruned(nodes, adj), a, b) <==> edge(adj, a, b) && nodes.admits(b),
{
    if a < adj.len() {
        let test = |x: u32| nodes.admits(x);
        let list = adj[a as int];
        let kept = list.filter(test);
        assert(pruned(nodes, adj)[a as int] == kept);
        if kept.contains(b) {
            let i = choose|i: int| 0 <= i < kept.len() && kept[i] == b;
            list.lemma_filter_pred(test, i);
            list.lemma_filter_contains_rev(test, b);
        }
        if list.contains(b) && nodes.admits(b) {
            let i = choose|i: int| 0 <= i < list.len() && list[i] == b;
            list.lemma_filter_contains(test, i);
        }
    }
}

/// What holds of every state: nodes that are not passed over were reached on
/// admitted nodes, there are not too many results, and one of them is as good
/// as the entry node.
spec fn lawful(nodes: Nodes, ef: usize, adj: Seq<Seq<u32>>, entry: u32, h: Hunt) -> bool {
    &&& sound(nodes, entry, h)
    &&& forall|id: u32| #[trigger]
        h.visited.contains(id) && (id == entry || nodes.admits(id)) ==> reachable(
            pruned(nodes, adj),
            entry,
            id,
        )
    &&& h.best.len() <= ef || h.best.len() == 1
    &&& exists|i: int| 0 <= i < h.best.len() && (#[trigger] h.best[i]).0 <= nodes.rank_of(entry)
}

proof fn lemma_meet_lawful(
    nodes: Nodes,
    ef: usize,
    adj: Seq<Seq<u32>>,
    entry: u32,
    h: Hunt,
    id: u32,
)
    requires
        lawful(nodes, ef, adj, entry, h),
        id < nodes.size(),
        nodes.admits(id) ==> reachable(pruned(nodes, adj), entry, id),
    ensures
        lawful(nodes, ef, adj, entry, meet(nodes, ef, h, id)),
{
    lemma_meet_sound(nodes, ef, entry, h, id);
    lemma_reach_self(pruned(nodes, adj), entry);
    lemma_last_greatest(h.best);
    let a = meet(nodes, ef, h, id);
    let i = choose|i: int| 0 <= i < h.best.len() && (#[trigger] h.best[i]).0 <= nodes.rank_of(entry);
    assert(a.best[i].0 <= h.best[i].0);
}

proof fn lemma_meet_all_lawful(
    nodes: Nodes,
    ef: usize,
    adj: Seq<Seq<u32>>,
    entry: u32,
    h: Hunt,
    ids: Seq<u32>,
)
    requires
        lawful(nodes, ef, adj, entry, h),
        listed_below(ids, nodes.size()),
        forall|i: int|
            0 <= i < ids.len() && nodes.admits(#[trigger] ids[i]) ==> reachable(
                pruned(nodes, adj),
                entry,
                ids[i],
            ),
    ensures
        lawful(nodes, ef, adj, entry, meet_all(nodes, ef, h, ids)),
    decreases ids.len(),
{
    if ids.len() > 0 {
        let t = ids.drop_last();
        assert forall|i: int| 0 <= i < t.len() implies (#[trigger] t[i]) < nodes.size() && (
        nodes.admits(t[i]) ==> reachable(pruned(nodes, adj), entry, t[i])) by {
            assert(t[i] == ids[i]);
        }
        lemma_meet_all_lawful(nodes, ef, adj, entry, h, t);
        let id = ids[ids.len() - 1];
        assert(id < nodes.size());
        lemma_meet_lawful(nodes, ef, adj, entry, meet_all(nodes, ef, h, t), id);
    }
}

proof fn lemma_walk_lawful(
    nodes: Nodes,
    ef: usize,
    adj: Seq<Seq<u32>>,
    entry: u32,
    h: Hunt,
    fuel: nat,
)
    requires
        lawful(nodes, ef, adj, entry, h),
        is_graph(adj, nodes.size()),
    ensures
        lawful(nodes, ef, adj, entry, walk(nodes, ef, adj, h, fuel)),
    decreases fuel,
{
    if fuel > 0 && h.frontier.len() > 0 {
        lemma_next(nodes, entry, h);
        let c = least(h.frontier);
        let rest = Hunt { frontier: h.frontier.remove(c), ..h };
        assert(lawful(nodes, ef, adj, entry, rest)) by {
            let i = choose|i: int|
                0 <= i < h.best.len() && (#[trigger] h.best[i]).0 <= nodes.rank_of(entry);
            assert(rest.best[i].0 <= nodes.rank_of(entry));
        }
        if !settled(ef, h.best, c.0) {
            let id = c.1 as u32;
            let ids = adj[id as int];
            assert(h.frontier.contains(c));
            assert(reachable(pruned(nodes, adj), entry, id));
            assert forall|i: int| 0 <= i < ids.len() && nodes.admits(#[trigger] ids[i]) implies
                reachable(pruned(nodes, adj), entry, ids[i]) by {
                assert(ids.contains(ids[i]));
                lemma_pruned_edge(nodes, adj, id, ids[i]);
                lemma_reach_step(pruned(nodes, adj), entry, id, ids[i]);
            }
            lemma_meet_all_lawful(nodes, ef, adj, entry, rest, ids);
            lemma_walk_lawful(
                nodes,
                ef,
                adj,
                entry,
                meet_all(nodes, ef, rest, ids),
                (fuel - 1) as nat,
            );
        }
    }
}

/// What a search returns: different nodes with their ranks, by ascending rank,
/// each reached from the entry node over admitted nodes. There is at least one,
/// no more than asked for, and the first is as good as the entry node.
pub proof fn lemma_hunted(nodes: Nodes, ef: usize, adj: Seq<Seq<u32>>, entry: u32)
    requires
        is_graph(adj, nodes.size()),
        entry < nodes.size(),
    ensures
        ({
            let out = hunted(nodes, ef, adj, entry);
            &&& ascending(out)
            &&& forall|i: int|
                0 <= i < out.len() ==> {
                    let x = #[trigger] out[i];
                    &&& x.1 < nodes.size()
                    &&& x.0 == nodes.rank_of(x.1)
                    &&& x.1 == entry || nodes.admits(x.1)
                    &&& reachable(pruned(nodes, adj), entry, x.1)
                }
            &&& forall|i: int, j: int|
                0 <= i < j < out.len() ==> (#[trigger] out[i]).1 != (#[trigger] out[j]).1
            &&& 1 <= out.len()
            &&& out.len() <= ef || out.len() == 1
            &&& out[0].0 <= nodes.rank_of(entry)
        }),
{
    let h = start(nodes, entry);
    lemma_start_sound(nodes, entry);
    lemma_reach_self(pruned(nodes, adj), entry);
    assert(h.best[0].0 <= nodes.rank_of(entry));
    lemma_walk_lawful(nodes, ef, adj, entry, h, nodes.size());
    let best = walk(nodes, ef, adj, h, nodes.size()).best;
    let out = hunted(nodes, ef, adj, entry);
    lemma_stable_sort(best);
    assert forall|i: int| 0 <= i < out.len() implies {
        let x = #[trigger] out[i];
        &&& x.1 < nodes.size()
        &&& x.0 == nodes.rank_of(x.1)
        &&& x.1 == entry || nodes.admits(x.1)
        &&& reachable(pruned(nodes, adj), entry, x.1)
    } by {
        assert(out.contains(out[i]));
        lemma_stable_sort_contains(best, out[i]);
        let j = choose|j: int| 0 <= j < best.len() && best[j] == out[i];
        assert(best[j] == out[i]);
    }
    assert(best.no_duplicates()) by {
        assert forall|i: int, j: int| 0 <= i < best.len() && 0 <= j < best.len() && i != j implies
            best[i] != best[j] by {
            if i < j {
                assert(best[i].1 != best[j].1);
            } else {
                assert(best[j].1 != best[i].1);
            }
        }
    }
    best.lemma_multiset_has_no_duplicates();
    out.lemma_multiset_has_no_duplicates_conv();
    assert forall|i: int, j: int| 0 <= i < j < out.len() implies (#[trigger] out[i]).1 != (
    #[trigger] out[j]).1 by {
        assert(out[i] != out[j]);
    }
    let k = choose|k: int| 0 <= k < best.len() && (#[trigger] best[k]).0 <= nodes.rank_of(entry);
    assert(best.contains(best[k]));
    lemma_stable_sort_contains(best, best[k]);
    let z = choose|z: int| 0 <= z < out.len() && out[z] == best[k];
    assert(out[0].0 <= out[z].0);
}

/// Every node that was met and not passed over is a result, and is in the
/// frontier or has its neighbours met.
spec fn covering(nodes: Nodes, adj: Seq<Seq<u32>>, entry: u32, h: Hunt, except: Option<u32>) -> bool {
    forall|id: u32| #[trigger]
        h.visited.contains(id) && (id == entry || nodes.admits(id)) ==> {
            &&& h.best.contains((nodes.rank_of(id), id))
            &&& Some(id) == except || h.frontier.contains(waiting(nodes, id)) || opened(adj, h, id)
        }
}

spec fn opened(adj: Seq<Seq<u32>>, h: Hunt, id: u32) -> bool {
    forall|y: u32| edge(adj, id, y) ==> h.visited.contains(y)
}

proof fn lemma_meet_wide(
    nodes: Nodes,
    ef: usize,
    adj: Seq<Seq<u32>>,
    entry: u32,
    h: Hunt,
    id: u32,
    except: Option<u32>,
)
    requires
        sound(nodes, entry, h),
        ef >= nodes.size(),
        id < nodes.size(),
        id != entry || h.visited.contains(id),
        covering(nodes, adj, entry, h, except),
    ensures
        covering(nodes, adj, entry, meet(nodes, ef, h, id), except),
{
    broadcast use vstd::multiset::group_multiset_axioms;
    broadcast use vstd::set::group_set_axioms;

    let a = meet(nodes, ef, h, id);
    if !h.visited.contains(id) {
        let v = h.visited.insert(id);
        lemma_meet_sound(nodes, ef, entry, h, id);
        lemma_below_len(v, nodes.size());
        assert(v.len() == h.visited.len() + 1);
        assert(h.best.len() < ef);
        assert forall|x: u32| #[trigger] a.visited.contains(x) && (x == entry || nodes.admits(
            x,
        )) implies {
            &&& a.best.contains((nodes.rank_of(x), x))
            &&& Some(x) == except || a.frontier.contains(waiting(nodes, x)) || opened(adj, a, x)
        } by {
            if x == id {
                assert(a.best[a.best.len() - 1] == (nodes.rank_of(x), x));
            } else {
                assert(h.visited.contains(x));
                let k = choose|k: int|
                    0 <= k < h.best.len() && h.best[k] == (nodes.rank_of(x), x);
                assert(a.best[k] == (nodes.rank_of(x), x));
                if opened(adj, h, x) {
                    assert(opened(adj, a, x));
                } else if h.frontier.contains(waiting(nodes, x)) {
                    assert(a.frontier.count(waiting(nodes, x)) >= h.frontier.count(
                        waiting(nodes, x),
                    ));
                }
            }
        }
    }
}

proof fn lemma_meet_all_wide(
    nodes: Nodes,
    ef: usize,
    adj: Seq<Seq<u32>>,
    entry: u32,
    h: Hunt,
    ids: Seq<u32>,
    except: Option<u32>,
)
    requires
        sound(nodes, entry, h),
        ef >= nodes.size(),
        listed_below(ids, nodes.size()),
        h.visited.contains(entry),
        covering(nodes, adj, entry, h, except),
    ensures
        covering(nodes, adj, entry, meet_all(nodes, ef, h, ids), except),
    decreases ids.len(),
{
    if ids.len() > 0 {
        let t = ids.drop_last();
        assert forall|i: int| 0 <= i < t.len() implies (#[trigger] t[i]) < nodes.size() by {
            assert(t[i] == ids[i]);
        }
        lemma_meet_all_wide(nodes, ef, adj, entry, h, t, except);
        lemma_meet_all_sound(nodes, ef, entry, h, t);
        let id = ids[ids.len() - 1];
        assert(id < nodes.size());
        lemma_meet_wide(nodes, ef, adj, entry, meet_all(nodes, ef, h, t), id, except);
    }
}

proof fn lemma_walk_wide(
    nodes: Nodes,
    ef: usize,
    adj: Seq<Seq<u32>>,
    entry: u32,
    h: Hunt,
    fuel: nat,
)
    requires
        sound(nodes, entry, h),
        covering(nodes, adj, entry, h, None),
        h.visited.contains(entry),
        ef >= nodes.size(),
        is_graph(adj, nodes.size()),
        h.frontier.len() + nodes.size() - h.visited.len() <= fuel,
    ensures
        ({
            let a = walk(nodes, ef, adj, h, fuel);
            &&& a.visited.contains(entry)
            &&& forall|id: u32| #[trigger]
                a.visited.contains(id) && (id == entry || nodes.admits(id)) ==> a.best.contains(
                    (nodes.rank_of(id), id),
                ) && opened(adj, a, id)
        }),
    decreases fuel,
{
    broadcast use vstd::multiset::group_multiset_axioms;

    lemma_below_len(h.visited, nodes.size());
    if h.frontier.len() == 0 {
        assert(h.frontier =~= Multiset::empty());
        assert forall|id: u32| #[trigger] h.visited.contains(id) && (id == entry || nodes.admits(
            id,
        )) implies opened(adj, h, id) by {
            assert(!h.frontier.contains(waiting(nodes, id)));
        }
    } else {
        lemma_next(nodes, entry, h);
        let c = least(h.frontier);
        let rest = Hunt { frontier: h.frontier.remove(c), ..h };
        let id = c.1 as u32;
        if settled(ef, h.best, c.0) {
            assert forall|x: u32| #[trigger] rest.visited.contains(x) implies opened(
                adj,
                rest,
                x,
            ) by {
                assert forall|y: u32| edge(adj, x, y) implies rest.visited.contains(y) by {
                    let ids = adj[x as int];
                    let i = choose|i: int| 0 <= i < ids.len() && ids[i] == y;
                    assert(ids[i] < nodes.size());
                    if !rest.visited.contains(y) {
                        assert forall|z: u32| #[trigger]
                            rest.visited.insert(y).contains(z) implies z < nodes.size() by {}
                        lemma_below_len(rest.visited.insert(y), nodes.size());
                    }
                }
            }
        } else {
            let ids = adj[id as int];
            assert(covering(nodes, adj, entry, rest, Some(id))) by {
                assert forall|x: u32| #[trigger] rest.visited.contains(x) && (x == entry
                    || nodes.admits(x)) implies {
                    &&& rest.best.contains((nodes.rank_of(x), x))
                    &&& Some(x) == Some(id) || rest.frontier.contains(waiting(nodes, x)) || opened(
                        adj,
                        rest,
                        x,
                    )
                } by {
                    assert(h.visited.contains(x));
                    if x != id {
                        if h.frontier.contains(waiting(nodes, x)) {
                            assert(waiting(nodes, x) != c);
                            assert(rest.frontier.count(waiting(nodes, x)) == h.frontier.count(
                                waiting(nodes, x),
                            ));
                        } else {
                            assert(opened(adj, h, x));
                            assert(opened(adj, rest, x));
                        }
                    }
                }
            }
            lemma_meet_all_wide(nodes, ef, adj, entry, rest, ids, Some(id));
            lemma_meet_all_sound(nodes, ef, entry, rest, ids);
            let a = meet_all(nodes, ef, rest, ids);
            assert(opened(adj, a, id)) by {
                assert forall|y: u32| edge(adj, id, y) implies a.visited.contains(y) by {
                    let i = choose|i: int| 0 <= i < ids.len() && ids[i] == y;
                    assert(a.visited.contains(ids[i]));
                }
            }
            assert(covering(nodes, adj, entry, a, None));
            lemma_walk_wide(nodes, ef, adj, entry, a, (fuel - 1) as nat);
        }
    }
}

/// A search that is as wide as the graph is exact: it returns every node that
/// the entry node leads to over admitted nodes.
pub proof fn lemma_hunted_exact(
    nodes: Nodes,
    ef: usize,
    adj: Seq<Seq<u32>>,
    entry: u32,
    id: u32,
)
    requires
        is_graph(adj, nodes.size()),
        entry < nodes.size(),
        ef >= nodes.size(),
    ensures
        hunted(nodes, ef, adj, entry).contains((nodes.rank_of(id), id)) <==> reachable(
            pruned(nodes, adj),
            entry,
            id,
        ),
{
    broadcast use vstd::multiset::group_multiset_axioms;
    broadcast use vstd::set::group_set_axioms;

    let h = start(nodes, entry);
    lemma_start_sound(nodes, entry);
    assert(covering(nodes, adj, entry, h, None)) by {
        assert(h.best[0] == (nodes.rank_of(entry), entry));
        assert(h.frontier.contains(waiting(nodes, entry)));
    }
    lemma_walk_wide(nodes, ef, adj, entry, h, nodes.size());
    let a = walk(nodes, ef, adj, h, nodes.size());
    let x = (nodes.rank_of(id), id);
    lemma_stable_sort_contains(a.best, x);
    if reachable(pruned(nodes, adj), entry, id) {
        let s = Set::new(|y: u32| a.visited.contains(y) && (y == entry || nodes.admits(y)));
        assert forall|u: u32, v: u32| s.contains(u) && #[trigger] edge(
            pruned(nodes, adj),
            u,
            v,
        ) implies s.contains(v) by {
            lemma_pruned_edge(nodes, adj, u, v);
            assert(opened(adj, a, u));
        }
        lemma_reach_closed(pruned(nodes, adj), s, entry, id);
        assert(a.visited.contains(id));
    }
    if hunted(nodes, ef, adj, entry).contains(x) {
        lemma_hunted(nodes, ef, adj, entry);
    }
}

/// A node that was met and may be a result is one, unless there are enough results and
/// none of them is worse.
spec fn keeps_best(nodes: Nodes, ef: usize, h: Hunt) -> bool {
    forall|id: u32| #[trigger]
        h.visited.contains(id) && nodes.admits(id) ==> {
            ||| h.best.contains((nodes.rank_of(id), id))
            ||| h.best.len() >= ef && forall|i: int|
                0 <= i < h.best.len() ==> (#[trigger] h.best[i]).0 <= nodes.rank_of(id)
        }
}

/// Every result but one is in the frontier or has its neighbours met.
spec fn awaiting(nodes: Nodes, adj: Seq<Seq<u32>>, h: Hunt, except: Option<u32>) -> bool {
    forall|i: int|
        0 <= i < h.best.len() ==> {
            let id = (#[trigger] h.best[i]).1;
            Some(id) == except || h.frontier.contains(waiting(nodes, id)) || opened(adj, h, id)
        }
}

proof fn lemma_meet_keeps(
    nodes: Nodes,
    ef: usize,
    adj: Seq<Seq<u32>>,
    entry: u32,
    h: Hunt,
    id: u32,
    except: Option<u32>,
)
    requires
        sound(nodes, entry, h),
        id < nodes.size(),
        keeps_best(nodes, ef, h),
        awaiting(nodes, adj, h, except),
    ensures
        keeps_best(nodes, ef, meet(nodes, ef, h, id)),
        awaiting(nodes, adj, meet(nodes, ef, h, id), except),
{
    broadcast use vstd::multiset::group_multiset_axioms;
    broadcast use vstd::set::group_set_axioms;

    let a = meet(nodes, ef, h, id);
    lemma_last_greatest(h.best);
    if !h.visited.contains(id) {
        let r = nodes.rank_of(id);
        let w = last_greatest(h.best) as int;
        assert forall|x: u32| #[trigger] a.visited.contains(x) && nodes.admits(x) implies {
            ||| a.best.contains((nodes.rank_of(x), x))
            ||| a.best.len() >= ef && forall|i: int|
                0 <= i < a.best.len() ==> (#[trigger] a.best[i]).0 <= nodes.rank_of(x)
        } by {
            let own = (nodes.rank_of(x), x);
            if x == id {
                if h.best.len() < ef {
                    assert(a.best[h.best.len() as int] == own);
                } else if r < h.best[w].0 {
                    assert(a.best[w] == own);
                }
            } else {
                assert(h.visited.contains(x));
                if h.best.contains(own) {
                    let j = choose|j: int| 0 <= j < h.best.len() && h.best[j] == own;
                    if a.best[j] == own {
                        assert(a.best.contains(own));
                    }
                }
            }
        }
        assert forall|i: int| 0 <= i < a.best.len() implies {
            let x = (#[trigger] a.best[i]).1;
            Some(x) == except || a.frontier.contains(waiting(nodes, x)) || opened(adj, a, x)
        } by {
            let x = a.best[i].1;
            if i < h.best.len() && a.best[i] == h.best[i] {
                if h.frontier.contains(waiting(nodes, x)) {
                    assert(a.frontier.count(waiting(nodes, x)) >= h.frontier.count(
                        waiting(nodes, x),
                    ));
                } else if Some(x) != except {
                    assert(opened(adj, h, x));
                }
            } else {
                assert(x == id);
                assert(a.frontier.contains(waiting(nodes, id)));
            }
        }
    }
}

proof fn lemma_meet_all_keeps(
    nodes: Nodes,
    ef: usize,
    adj: Seq<Seq<u32>>,
    entry: u32,
    h: Hunt,
    ids: Seq<u32>,
    except: Option<u32>,
)
    requires
        sound(nodes, entry, h),
        listed_below(ids, nodes.size()),
        keeps_best(nodes, ef, h),
        awaiting(nodes, adj, h, except),
    ensures
        keeps_best(nodes, ef, meet_all(nodes, ef, h, ids)),
        awaiting(nodes, adj, meet_all(nodes, ef, h, ids), except),
    decreases ids.len(),
{
    if ids.len() > 0 {
        let t = ids.drop_last();
        assert forall|i: int| 0 <= i < t.len() implies (#[trigger] t[i]) < nodes.size() by {
            assert(t[i] == ids[i]);
        }
        lemma_meet_all_keeps(nodes, ef, adj, entry, h, t, except);
        lemma_meet_all_sound(nodes, ef, entry, h, t);
        assert(ids[ids.len() - 1] < nodes.size());
        lemma_meet_keeps(nodes, ef, adj, entry, meet_all(nodes, ef, h, t), ids.last(), except);
    }
}

proof fn lemma_walk_keeps(
    nodes: Nodes,
    ef: usize,
    adj: Seq<Seq<u32>>,
    entry: u32,
    h: Hunt,
    fuel: nat,
)
    requires
        sound(nodes, entry, h),
        keeps_best(nodes, ef, h),
        awaiting(nodes, adj, h, None),
        is_graph(adj, nodes.size()),
        h.frontier.len() + nodes.size() - h.visited.len() <= fuel,
    ensures
        ({
            let a = walk(nodes, ef, adj, h, fuel);
            &&& keeps_best(nodes, ef, a)
            &&& forall|i: int| 0 <= i < a.best.len() ==> opened(adj, a, (#[trigger] a.best[i]).1)
        }),
    decreases fuel,
{
    broadcast use vstd::multiset::group_multiset_axioms;

    lemma_below_len(h.visited, nodes.size());
    if h.frontier.len() == 0 {
        assert(h.frontier =~= Multiset::empty());
        assert(walk(nodes, ef, adj, h, fuel) == h);
        assert forall|i: int| 0 <= i < h.best.len() implies opened(
            adj,
            h,
            (#[trigger] h.best[i]).1,
        ) by {
            assert(!h.frontier.contains(waiting(nodes, h.best[i].1)));
        }
    } else {
        lemma_next(nodes, entry, h);
        let c = least(h.frontier);
        let rest = Hunt { frontier: h.frontier.remove(c), ..h };
        let id = c.1 as u32;
        if settled(ef, h.best, c.0) {
            lemma_last_greatest(h.best);
            assert(keeps_best(nodes, ef, rest)) by {
                assert forall|x: u32| #[trigger]
                    rest.visited.contains(x) && nodes.admits(x) implies {
                    ||| rest.best.contains((nodes.rank_of(x), x))
                    ||| rest.best.len() >= ef && forall|i: int|
                        0 <= i < rest.best.len() ==> (#[trigger] rest.best[i]).0 <= nodes.rank_of(x)
                } by {
                    assert(h.visited.contains(x));
                }
            }
            assert forall|i: int| 0 <= i < rest.best.len() implies opened(
                adj,
                rest,
                (#[trigger] rest.best[i]).1,
            ) by {
                let x = h.best[i].1;
                if h.frontier.contains(waiting(nodes, x)) {
                    assert(crate::heap::before(c, waiting(nodes, x)));
                    assert(h.best[i].0 == nodes.rank_of(x));
                }
                assert(opened(adj, h, x));
            }
        } else {
            let ids = adj[c.1 as int];
            assert(c == waiting(nodes, id));
            assert(keeps_best(nodes, ef, rest)) by {
                assert forall|x: u32| #[trigger]
                    rest.visited.contains(x) && nodes.admits(x) implies {
                    ||| rest.best.contains((nodes.rank_of(x), x))
                    ||| rest.best.len() >= ef && forall|i: int|
                        0 <= i < rest.best.len() ==> (#[trigger] rest.best[i]).0 <= nodes.rank_of(x)
                } by {
                    assert(h.visited.contains(x));
                }
            }
            assert(awaiting(nodes, adj, rest, Some(id))) by {
                assert forall|i: int| 0 <= i < rest.best.len() implies {
                    let x = (#[trigger] rest.best[i]).1;
                    Some(x) == Some(id) || rest.frontier.contains(waiting(nodes, x)) || opened(
                        adj,
                        rest,
                        x,
                    )
                } by {
                    let x = h.best[i].1;
                    if h.frontier.contains(waiting(nodes, x)) {
                        if x != id {
                            assert(waiting(nodes, x) != c);
                            assert(rest.frontier.count(waiting(nodes, x)) == h.frontier.count(
                                waiting(nodes, x),
                            ));
                        }
                    } else {
                        assert(opened(adj, h, x));
                    }
                }
            }
            lemma_meet_all_keeps(nodes, ef, adj, entry, rest, ids, Some(id));
            lemma_meet_all_sound(nodes, ef, entry, rest, ids);
            let a = meet_all(nodes, ef, rest, ids);
            assert(opened(adj, a, id)) by {
                assert forall|y: u32| edge(adj, id, y) implies a.visited.contains(y) by {
                    let i = choose|i: int| 0 <= i < ids.len() && ids[i] == y;
                    assert(a.visited.contains(ids[i]));
                }
            }
            assert(awaiting(nodes, adj, a, None)) by {
                assert forall|i: int| 0 <= i < a.best.len() implies {
                    let x = (#[trigger] a.best[i]).1;
                    None::<u32> == Some(x) || a.frontier.contains(waiting(nodes, x)) || opened(
                        adj,
                        a,
                        x,
                    )
                } by {
                    assert(Some(a.best[i].1) == Some(id) || a.frontier.contains(
                        waiting(nodes, a.best[i].1),
                    ) || opened(adj, a, a.best[i].1));
                }
            }
            lemma_walk_keeps(nodes, ef, adj, entry, a, (fuel - 1) as nat);
        }
    }
}

/// A search cannot get better from what it found: a neighbour of a result that may be a
/// result is one too, or there are as many results as were asked for and none of them
/// is worse.
pub proof fn lemma_hunt_settles(nodes: Nodes, ef: usize, adj: Seq<Seq<u32>>, entry: u32)
    requires
        is_graph(adj, nodes.size()),
        entry < nodes.size(),
    ensures
        ({
            let out = hunted(nodes, ef, adj, entry);
            forall|i: int, y: u32|
                0 <= i < out.len() && edge(adj, (#[trigger] out[i]).1, y) && #[trigger] nodes.admits(
                    y,
                ) ==> {
                    ||| out.contains((nodes.rank_of(y), y))
                    ||| out.len() >= ef && out.last().0 <= nodes.rank_of(y)
                }
        }),
{
    broadcast use vstd::multiset::group_multiset_axioms;
    broadcast use vstd::set::group_set_axioms;

    let h = start(nodes, entry);
    lemma_start_sound(nodes, entry);
    assert(h.best[0] == (nodes.rank_of(entry), entry));
    assert(h.frontier.contains(waiting(nodes, entry)));
    assert(h.visited.len() == 1 && h.frontier.len() == 1);
    assert(keeps_best(nodes, ef, h)) by {
        assert forall|x: u32| #[trigger] h.visited.contains(x) && nodes.admits(x) implies {
            ||| h.best.contains((nodes.rank_of(x), x))
            ||| h.best.len() >= ef && forall|i: int|
                0 <= i < h.best.len() ==> (#[trigger] h.best[i]).0 <= nodes.rank_of(x)
        } by {
            assert(x == entry);
        }
    }
    lemma_walk_keeps(nodes, ef, adj, entry, h, nodes.size());
    let a = walk(nodes, ef, adj, h, nodes.size());
    let out = hunted(nodes, ef, adj, entry);
    lemma_stable_sort(a.best);
    assert forall|i: int, y: u32|
        0 <= i < out.len() && edge(adj, (#[trigger] out[i]).1, y) && #[trigger] nodes.admits(
            y,
        ) implies {
        ||| out.contains((nodes.rank_of(y), y))
        ||| out.len() >= ef && out.last().0 <= nodes.rank_of(y)
    } by {
        assert(out.contains(out[i]));
        lemma_stable_sort_contains(a.best, out[i]);
        let j = choose|j: int| 0 <= j < a.best.len() && a.best[j] == out[i];
        assert(opened(adj, a, a.best[j].1));
        assert(a.visited.contains(y));
        lemma_stable_sort_contains(a.best, (nodes.rank_of(y), y));
        if !a.best.contains((nodes.rank_of(y), y)) {
            let last = out[out.len() - 1];
            assert(out.contains(last));
            lemma_stable_sort_contains(a.best, last);
            let z = choose|z: int| 0 <= z < a.best.len() && a.best[z] == last;
            assert(a.best[z].0 <= nodes.rank_of(y));
        }
    }
}

} // verus!
