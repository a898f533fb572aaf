//! Best-first beam search over an adjacency list.
//!
//! A search walks a graph from one or more entry nodes. It keeps a frontier of
//! nodes to expand and a bounded set of results, and stops when the best node
//! of the frontier is worse than the worst result.

use vstd::multiset::Multiset;
use vstd::prelude::*;

use crate::heap::{in_order, is_least, least, MinHeap, Ranked};
use crate::table::rows;

verus! {

/// The nodes of a graph as one query sees them.
pub ghost struct Nodes {
    /// The number of nodes.
    pub count: nat,
    /// The rank of a node; the smaller rank is the better one.
    pub ranks: spec_fn(u32) -> u64,
    /// Whether a node may be a result. Other nodes are only walked through.
    pub allowed: spec_fn(u32) -> bool,
}

impl Nodes {
    /// The number of nodes.
    pub open spec fn size(self) -> nat {
        self.count
    }

    /// The rank of a node.
    pub open spec fn rank_of(self, id: u32) -> u64 {
        (self.ranks)(id)
    }

    /// Whether a node may be a result.
    pub open spec fn admits(self, id: u32) -> bool {
        (self.allowed)(id)
    }
}

/// Computes what a search asks of the nodes.
pub trait Space {
    /// The nodes.
    spec fn nodes(&self) -> Nodes;

    /// Computes the rank of a node.
    fn rank(&self, id: u32) -> (r: u64)
        requires
            id < self.nodes().size(),
        ensures
            r == self.nodes().rank_of(id),
    ;

    /// Decides whether a node may be a result.
    fn allow(&self, id: u32) -> (b: bool)
        requires
            id < self.nodes().size(),
        ensures
            b == self.nodes().admits(id),
    ;
}

/// How a search treats the nodes that it meets.
#[derive(Clone, Copy)]
pub struct Rules {
    /// The number of results that are kept.
    pub ef: usize,
    /// Only a node that improves the results enters the frontier.
    pub selective: bool,
    /// A node competes for a place among the results by rank and number. Where
    /// this is off, only a node that improves the results gets one.
    pub contested: bool,
    /// Among nodes with one rank, the one with the greatest number is expanded
    /// first.
    pub high_first: bool,
    /// Among nodes with one rank, the one with the greatest number stays
    /// longest.
    pub high_wins: bool,
}

/// The state of a search.
#[verifier::ext_equal]
pub ghost struct Beam {
    /// The nodes met so far.
    pub visited: Set<u32>,
    /// The nodes to expand, the best one least.
    pub frontier: Multiset<Ranked>,
    /// The results, the worst one least.
    pub results: Multiset<Ranked>,
}

/// A node number as a slot, in the same or in the opposite order.
pub open spec fn slot_of(opposite: bool, id: u32) -> usize {
    if opposite {
        (u32::MAX - id) as usize
    } else {
        id as usize
    }
}

/// The node that a slot stands for.
pub open spec fn node_of(opposite: bool, slot: usize) -> u32 {
    if opposite {
        (u32::MAX - slot) as u32
    } else {
        slot as u32
    }
}

/// A node as an entry of the frontier.
pub open spec fn ahead(space: Nodes, rules: Rules, id: u32) -> Ranked {
    (space.rank_of(id), slot_of(rules.high_first, id))
}

/// A node as an entry of the results.
pub open spec fn found(space: Nodes, rules: Rules, id: u32) -> Ranked {
    ((u64::MAX - space.rank_of(id)) as u64, slot_of(!rules.high_wins, id))
}

/// The rank of the worst result.
pub open spec fn worst(results: Multiset<Ranked>) -> u64 {
    (u64::MAX - least(results).0) as u64
}

/// A node with rank `r` would improve the results.
pub open spec fn improves(rules: Rules, results: Multiset<Ranked>, r: u64) -> bool {
    results.len() < rules.ef || results.len() == 0 || r < worst(results)
}

/// The results without the worst one, where there are too many.
pub open spec fn trimmed(rules: Rules, results: Multiset<Ranked>) -> Multiset<Ranked> {
    if results.len() > rules.ef {
        results.remove(least(results))
    } else {
        results
    }
}

/// The state after a node was met.
pub open spec fn meet(space: Nodes, rules: Rules, b: Beam, id: u32) -> Beam {
    if b.visited.contains(id) {
        b
    } else {
        let better = improves(rules, b.results, space.rank_of(id));
        Beam {
            visited: b.visited.insert(id),
            frontier: if better || !rules.selective {
                b.frontier.insert(ahead(space, rules, id))
            } else {
                b.frontier
            },
            results: if space.admits(id) && (better || rules.contested) {
                trimmed(rules, b.results.insert(found(space, rules, id)))
            } else {
                b.results
            },
        }
    }
}

/// The state after the nodes of a list were met.
pub open spec fn meet_all(space: Nodes, rules: Rules, b: Beam, ids: Seq<u32>) -> Beam
    decreases ids.len(),
{
    if ids.len() == 0 {
        b
    } else {
        meet(space, rules, meet_all(space, rules, b, ids.drop_last()), ids.last())
    }
}

/// The best node of the frontier is worse than every result.
pub open spec fn exhausted(rules: Rules, results: Multiset<Ranked>, r: u64) -> bool {
    results.len() >= rules.ef && results.len() > 0 && r > worst(results)
}

/// The state in which a search ends that may expand `fuel` nodes more.
pub open spec fn walk(
    space: Nodes,
    rules: Rules,
    adj: Seq<Seq<u32>>,
    b: Beam,
    fuel: nat,
) -> Beam
    decreases fuel,
{
    if fuel == 0 || b.frontier.len() == 0 {
        b
    } else {
        let c = least(b.frontier);
        let rest = Beam { frontier: b.frontier.remove(c), ..b };
        if exhausted(rules, b.results, c.0) {
            rest
        } else {
            let id = node_of(rules.high_first, c.1);
            walk(
                space,
                rules,
                adj,
                meet_all(space, rules, rest, adj[id as int]),
                (fuel - 1) as nat,
            )
        }
    }
}

/// A search that has met nothing yet.
pub open spec fn nothing_met() -> Beam {
    Beam { visited: Set::empty(), frontier: Multiset::empty(), results: Multiset::empty() }
}

/// A search that starts at one node. The node is a result if it is admitted.
pub open spec fn start(space: Nodes, rules: Rules, entry: u32) -> Beam {
    Beam {
        visited: Set::empty().insert(entry),
        frontier: Multiset::empty().insert(ahead(space, rules, entry)),
        results: if space.admits(entry) {
            Multiset::empty().insert(found(space, rules, entry))
        } else {
            Multiset::empty()
        },
    }
}

/// The results by ascending rank.
pub open spec fn best_first(rules: Rules, results: Multiset<Ranked>) -> Seq<(u64, u32)> {
    in_order(results).reverse().map_values(
        |x: Ranked| ((u64::MAX - x.0) as u64, node_of(!rules.high_wins, x.1)),
    )
}

/// What a search that starts at one node returns.
pub open spec fn search_from(
    space: Nodes,
    rules: Rules,
    adj: Seq<Seq<u32>>,
    entry: u32,
) -> Seq<(u64, u32)> {
    best_first(rules, walk(space, rules, adj, start(space, rules, entry), space.size()).results)
}

/// What a search returns that starts at each node of a list.
pub open spec fn search_from_all(
    space: Nodes,
    rules: Rules,
    adj: Seq<Seq<u32>>,
    entries: Seq<u32>,
) -> Seq<(u64, u32)> {
    best_first(
        rules,
        walk(space, rules, adj, meet_all(space, rules, nothing_met(), entries), space.size()).results,
    )
}

/// Every node that is listed exists.
pub open spec fn listed_below(ids: Seq<u32>, n: nat) -> bool {
    forall|i: int| 0 <= i < ids.len() ==> (#[trigger] ids[i]) < n
}

/// There is one list per node, and every neighbour exists.
pub open spec fn is_graph(adj: Seq<Seq<u32>>, n: nat) -> bool {
    adj.len() == n && forall|i: int| 0 <= i < n ==> listed_below(#[trigger] adj[i], n)
}

/// The entries of a state stand for nodes that were met, under their ranks,
/// and no node is a result twice.
pub open spec fn sound(space: Nodes, rules: Rules, b: Beam) -> bool {
    &&& b.visited.finite()
    &&& forall|id: u32| b.visited.contains(id) ==> id < space.size()
    &&& forall|x: Ranked| #[trigger]
        b.frontier.contains(x) ==> {
            let id = node_of(rules.high_first, x.1);
            b.visited.contains(id) && x == ahead(space, rules, id)
        }
    &&& forall|x: Ranked| #[trigger]
        b.results.contains(x) ==> {
            let id = node_of(!rules.high_wins, x.1);
            &&& b.visited.contains(id)
            &&& space.admits(id)
            &&& x == found(space, rules, id)
            &&& b.results.count(x) == 1
        }
    &&& b.frontier.len() <= b.visited.len()
    &&& b.results.len() <= b.visited.len()
}

/// Slots and nodes stand for one another.
pub proof fn lemma_node_of_slot(opposite: bool, id: u32)
    ensures
        node_of(opposite, slot_of(opposite, id)) == id,
{
}

/// Meeting a node keeps a state sound.
pub proof fn lemma_meet_sound(space: Nodes, rules: Rules, b: Beam, id: u32)
    requires
        sound(space, rules, b),
        id < space.size(),
    ensures
        sound(space, rules, meet(space, rules, b, id)),
        meet(space, rules, b, id).visited == b.visited.insert(id),
        meet(space, rules, b, id).frontier.len() - b.frontier.len() <= meet(
            space,
            rules,
            b,
            id,
        ).visited.len() - b.visited.len(),
{
    broadcast use vstd::multiset::group_multiset_axioms;
    broadcast use vstd::set::group_set_axioms;

    let a = meet(space, rules, b, id);
    if b.visited.contains(id) {
        assert(b.visited.insert(id) =~= b.visited);
    } else {
        lemma_node_of_slot(rules.high_first, id);
        lemma_node_of_slot(!rules.high_wins, id);
        assert(a.visited.len() == b.visited.len() + 1);
        let f = found(space, rules, id);
        let grown = b.results.insert(f);
        assert(grown.len() == b.results.len() + 1);
        crate::heap::lemma_least_exists(grown);
        assert(!b.results.contains(f)) by {
            if b.results.contains(f) {
                assert(b.visited.contains(node_of(!rules.high_wins, f.1)));
            }
        }
        assert forall|x: Ranked| #[trigger] a.results.contains(x) implies {
            let n = node_of(!rules.high_wins, x.1);
            &&& a.visited.contains(n)
            &&& space.admits(n)
            &&& x == found(space, rules, n)
            &&& a.results.count(x) == 1
        } by {
            if x == f && !b.results.contains(x) {
            } else {
                assert(b.results.contains(x));
                assert(grown.count(x) == b.results.count(x));
            }
        }
        assert forall|x: Ranked| #[trigger] a.frontier.contains(x) implies {
            let n = node_of(rules.high_first, x.1);
            a.visited.contains(n) && x == ahead(space, rules, n)
        } by {
            if x == ahead(space, rules, id) {
            } else {
                assert(b.frontier.contains(x));
            }
        }
    }
}

/// Meeting the nodes of a list keeps a state sound.
pub proof fn lemma_meet_all_sound(space: Nodes, rules: Rules, b: Beam, ids: Seq<u32>)
    requires
        sound(space, rules, b),
        listed_below(ids, space.size()),
    ensures
        sound(space, rules, meet_all(space, rules, b, ids)),
        meet_all(space, rules, b, ids).visited == b.visited.union(ids.to_set()),
        meet_all(space, rules, b, ids).frontier.len() - b.frontier.len() <= meet_all(
            space,
            rules,
            b,
            ids,
        ).visited.len() - b.visited.len(),
    decreases ids.len(),
{
    if ids.len() == 0 {
        assert(b.visited.union(ids.to_set()) =~= b.visited);
    } else {
        let t = ids.drop_last();
        assert forall|i: int| 0 <= i < t.len() implies (#[trigger] t[i]) < space.size() by {
            assert(t[i] == ids[i]);
        }
        lemma_meet_all_sound(space, rules, b, t);
        lemma_meet_sound(space, rules, meet_all(space, rules, b, t), ids.last());
        assert(ids.to_set() =~= t.to_set().insert(ids.last())) by {
            assert(ids =~= t.push(ids.last()));
            assert forall|x: u32| ids.contains(x) implies t.contains(x) || x == ids.last() by {
                let i = choose|i: int| 0 <= i < ids.len() && ids[i] == x;
                if i < t.len() {
                    assert(t[i] == x);
                }
            }
            assert forall|x: u32| t.contains(x) implies ids.contains(x) by {
                let i = choose|i: int| 0 <= i < t.len() && t[i] == x;
                assert(ids[i] == x);
            }
        }
        assert(b.visited.union(t.to_set()).insert(ids.last()) =~= b.visited.union(ids.to_set()));
    }
}

/// The node that is expanded next was met.
pub proof fn lemma_next(space: Nodes, rules: Rules, b: Beam)
    requires
        sound(space, rules, b),
        b.frontier.len() > 0,
    ensures
        is_least(b.frontier, least(b.frontier)),
        ({
            let c = least(b.frontier);
            &&& sound(space, rules, Beam { frontier: b.frontier.remove(c), ..b })
            &&& b.visited.contains(node_of(rules.high_first, c.1))
            &&& node_of(rules.high_first, c.1) < space.size()
            &&& c == ahead(space, rules, node_of(rules.high_first, c.1))
        }),
{
    broadcast use vstd::multiset::group_multiset_axioms;

    crate::heap::lemma_least_exists(b.frontier);
    let c = least(b.frontier);
    let rest = b.frontier.remove(c);
    assert forall|x: Ranked| #[trigger] rest.contains(x) implies b.frontier.contains(x) by {}
}

/// A set of numbers below `n` has at most `n` elements.
pub proof fn lemma_below_len(s: Set<u32>, n: nat)
    requires
        s.finite(),
        forall|id: u32| s.contains(id) ==> id < n,
    ensures
        s.len() <= n,
    decreases n,
{
    if n == 0 {
        assert(s =~= Set::empty()) by {
            assert forall|id: u32| !s.contains(id) by {}
        }
    } else if n <= u32::MAX + 1 && s.contains((n - 1) as u32) {
        let t = s.remove((n - 1) as u32);
        assert forall|id: u32| t.contains(id) implies id < n - 1 by {}
        lemma_below_len(t, (n - 1) as nat);
    } else {
        assert forall|id: u32| s.contains(id) implies id < n - 1 by {}
        lemma_below_len(s, (n - 1) as nat);
    }
}

/// Different nodes below `n` other than `a` are fewer than `n`.
pub proof fn lemma_few_others(list: Seq<u32>, a: u32, n: nat)
    requires
        list.no_duplicates(),
        listed_below(list, n),
        !list.contains(a),
        a < n,
    ensures
        list.len() < n,
{
    let all = list.push(a);
    assert(all.no_duplicates()) by {
        assert forall|i: int, j: int| 0 <= i < all.len() && 0 <= j < all.len() && i != j implies
            all[i] != all[j] by {
            if i == list.len() {
                assert(list.contains(list[j]));
            } else if j == list.len() {
                assert(list.contains(list[i]));
            }
        }
    }
    all.unique_seq_to_set();
    assert forall|id: u32| all.to_set().contains(id) implies id < n by {
        let i = choose|i: int| 0 <= i < all.len() && all[i] == id;
        if i < list.len() {
            assert(list[i] < n);
        }
    }
    lemma_below_len(all.to_set(), n);
}

/// The slot of a node.
fn slot(opposite: bool, id: u32) -> (s: usize)
    ensures
        s == slot_of(opposite, id),
{
    if opposite {
        (u32::MAX - id) as usize
    } else {
        id as usize
    }
}

/// The node of a slot.
fn node(opposite: bool, slot: usize) -> (id: u32)
    requires
        slot <= u32::MAX,
    ensures
        id == node_of(opposite, slot),
{
    if opposite {
        (u32::MAX as usize - slot) as u32
    } else {
        slot as u32
    }
}

/// A search in progress.
pub struct Walk {
    visited: Vec<bool>,
    frontier: MinHeap,
    results: MinHeap,
}

impl View for Walk {
    type V = Beam;

    closed spec fn view(&self) -> Beam {
        Beam {
            visited: Set::new(|id: u32| id < self.visited@.len() && self.visited@[id as int]),
            frontier: self.frontier@,
            results: self.results@,
        }
    }
}

impl Walk {
    /// The number of nodes of the graph.
    pub closed spec fn nodes(&self) -> nat {
        self.visited@.len()
    }

    /// A search over `n` nodes that has met none of them.
    pub fn new(n: usize) -> (w: Walk)
        ensures
            w.nodes() == n,
            w@ == nothing_met(),
    {
        let mut visited: Vec<bool> = Vec::new();
        let mut i: usize = 0;
        while i < n
            invariant
                i <= n,
                visited@.len() == i,
                forall|j: int| 0 <= j < i ==> !(#[trigger] visited@[j]),
            decreases n - i,
        {
            visited.push(false);
            i += 1;
        }
        let w = Walk { visited, frontier: MinHeap::new(), results: MinHeap::new() };
        assert(w@.visited =~= Set::<u32>::empty());
        w
    }

    /// Starts at one node.
    pub fn enter<S: Space>(&mut self, space: &S, rules: Rules, entry: u32)
        requires
            old(self).nodes() == space.nodes().size(),
            old(self)@ == nothing_met(),
            entry < space.nodes().size(),
        ensures
            final(self).nodes() == old(self).nodes(),
            final(self)@ == start(space.nodes(), rules, entry),
    {
        self.visited.set(entry as usize, true);
        let r: u64 = space.rank(entry);
        self.frontier.push((r, slot(rules.high_first, entry)));
        if space.allow(entry) {
            self.results.push((u64::MAX - r, slot(!rules.high_wins, entry)));
        }
        proof {
            assert forall|id: u32| id != entry implies !self@.visited.contains(id) by {
                assert(!old(self)@.visited.contains(id));
            }
            assert(self@.visited =~= Set::empty().insert(entry));
            assert(self@ =~= start(space.nodes(), rules, entry));
        }
    }

    /// Meets a node.
    pub fn visit<S: Space>(&mut self, space: &S, rules: Rules, id: u32)
        requires
            old(self).nodes() == space.nodes().size(),
            id < space.nodes().size(),
        ensures
            final(self).nodes() == old(self).nodes(),
            final(self)@ == meet(space.nodes(), rules, old(self)@, id),
    {
        broadcast use vstd::multiset::group_multiset_axioms;

        if self.visited[id as usize] {
            assert(self@.visited.contains(id));
            return ;
        }
        assert(!self@.visited.contains(id));
        self.visited.set(id as usize, true);
        let r: u64 = space.rank(id);
        let better: bool = match self.results.peek() {
            None => true,
            Some(w) => self.results.len() < rules.ef || r < u64::MAX - w.0,
        };
        proof {
            assert(better == improves(rules, old(self)@.results, r));
        }
        if better || !rules.selective {
            self.frontier.push((r, slot(rules.high_first, id)));
        }
        if better || rules.contested {
            if space.allow(id) {
                self.results.push((u64::MAX - r, slot(!rules.high_wins, id)));
                if self.results.len() > rules.ef {
                    let _ = self.results.pop();
                }
            }
        }
        proof {
            assert(self@.visited =~= old(self)@.visited.insert(id));
            assert(self@.results =~= meet(space.nodes(), rules, old(self)@, id).results);
            assert(self@ =~= meet(space.nodes(), rules, old(self)@, id));
        }
    }

    /// Meets the nodes of a list, in order.
    pub fn visit_all<S: Space>(&mut self, space: &S, rules: Rules, ids: &[u32])
        requires
            old(self).nodes() == space.nodes().size(),
            listed_below(ids@, space.nodes().size()),
        ensures
            final(self).nodes() == old(self).nodes(),
            final(self)@ == meet_all(space.nodes(), rules, old(self)@, ids@),
    {
        let n: usize = ids.len();
        let mut i: usize = 0;
        assert(ids@.take(0) =~= Seq::empty());
        while i < n
            invariant
                i <= n,
                n == ids@.len(),
                listed_below(ids@, space.nodes().size()),
                self.nodes() == space.nodes().size(),
                self.nodes() == old(self).nodes(),
                self@ == meet_all(space.nodes(), rules, old(self)@, ids@.take(i as int)),
            decreases n - i,
        {
            proof {
                assert(ids@.take(i + 1).drop_last() =~= ids@.take(i as int));
                assert(ids@.take(i + 1).last() == ids@[i as int]);
            }
            self.visit(space, rules, ids[i]);
            i += 1;
        }
        assert(ids@.take(n as int) =~= ids@);
    }

    /// Expands nodes until the frontier is empty or exhausted.
    pub fn run<S: Space>(&mut self, space: &S, rules: Rules, adj: &Vec<Vec<u32>>)
        requires
            old(self).nodes() == space.nodes().size(),
            is_graph(rows(adj@), space.nodes().size()),
            sound(space.nodes(), rules, old(self)@),
        ensures
            final(self).nodes() == old(self).nodes(),
            final(self)@ == walk(space.nodes(), rules, rows(adj@), old(self)@, space.nodes().size()),
            sound(space.nodes(), rules, final(self)@),
    {
        let ghost mut fuel: nat = space.nodes().size();
        let ghost all = walk(space.nodes(), rules, rows(adj@), old(self)@, space.nodes().size());
        let mut more: bool = true;
        proof {
            lemma_below_len(self@.visited, space.nodes().size());
        }
        while more
            invariant
                self.nodes() == space.nodes().size(),
                self.nodes() == old(self).nodes(),
                is_graph(rows(adj@), space.nodes().size()),
                sound(space.nodes(), rules, self@),
                self@.frontier.len() + space.nodes().size() - self@.visited.len() <= fuel,
                more ==> all == walk(space.nodes(), rules, rows(adj@), self@, fuel),
                !more ==> all == self@,
                self@.visited.len() <= space.nodes().size(),
            decreases fuel + if more {
                1nat
            } else {
                0nat
            },
        {
            let ghost b = self@;
            match self.frontier.pop() {
                None => {
                    more = false;
                    proof {
                        assert(self@ =~= b);
                        assert(b.frontier.len() == 0);
                    }
                },
                Some(c) => {
                    proof {
                        lemma_next(space.nodes(), rules, b);
                        assert(self@ =~= Beam { frontier: b.frontier.remove(c), ..b });
                    }
                    let stop: bool = match self.results.peek() {
                        None => false,
                        Some(w) => self.results.len() >= rules.ef && c.0 > u64::MAX - w.0,
                    };
                    assert(stop == exhausted(rules, b.results, c.0)) by {
                        broadcast use vstd::multiset::group_multiset_axioms;

                    }
                    if stop {
                        more = false;
                    } else {
                        let id: u32 = node(rules.high_first, c.1);
                        assert(rows(adj@)[id as int] == adj@[id as int]@);
                        proof {
                            lemma_meet_all_sound(space.nodes(), rules, self@, adj@[id as int]@);
                        }
                        self.visit_all(space, rules, adj[id as usize].as_slice());
                        proof {
                            lemma_below_len(self@.visited, space.nodes().size());
                            fuel = (fuel - 1) as nat;
                        }
                    }
                },
            }
        }
    }

    /// The results by ascending rank.
    fn into_results<S: Space>(self, space: &S, rules: Rules) -> (r: Vec<(u64, u32)>)
        requires
            sound(space.nodes(), rules, self@),
        ensures
            r@ == best_first(rules, self@.results),
    {
        let sorted = self.results.into_sorted();
        proof {
            crate::heap::lemma_in_order(self.results@);
            crate::heap::lemma_in_order_contains(self.results@);
        }
        let n: usize = sorted.len();
        let mut out: Vec<(u64, u32)> = Vec::new();
        let mut i: usize = 0;
        let ghost all = best_first(rules, self@.results);
        while i < n
            invariant
                i <= n,
                n == sorted@.len(),
                sorted@ == in_order(self@.results),
                all == best_first(rules, self@.results),
                forall|j: int| 0 <= j < n ==> self@.results.contains(#[trigger] sorted@[j]),
                sound(space.nodes(), rules, self@),
                out@ =~= all.take(i as int),
            decreases n - i,
        {
            let x: Ranked = sorted[n - 1 - i];
            assert(self@.results.contains(sorted@[n - 1 - i]));
            out.push((u64::MAX - x.0, node(!rules.high_wins, x.1)));
            i += 1;
        }
        assert(all.take(n as int) =~= all);
        out
    }
}

/// Searches from one node.
pub fn search_one<S: Space>(space: &S, rules: Rules, adj: &Vec<Vec<u32>>, entry: u32) -> (r: Vec<
    (u64, u32),
>)
    requires
        is_graph(rows(adj@), space.nodes().size()),
        entry < space.nodes().size(),
    ensures
        r@ == search_from(space.nodes(), rules, rows(adj@), entry),
{
    let mut w = Walk::new(adj.len());
    w.enter(space, rules, entry);
    proof {
        lemma_start_sound(space.nodes(), rules, entry);
    }
    w.run(space, rules, adj);
    w.into_results(space, rules)
}

/// Searches from each node of a list.
pub fn search_many<S: Space>(space: &S, rules: Rules, adj: &Vec<Vec<u32>>, entries: &[u32]) -> (r:
    Vec<(u64, u32)>)
    requires
        is_graph(rows(adj@), space.nodes().size()),
        listed_below(entries@, space.nodes().size()),
    ensures
        r@ == search_from_all(space.nodes(), rules, rows(adj@), entries@),
{
    let mut w = Walk::new(adj.len());
    proof {
        lemma_nothing_sound(space.nodes(), rules);
        lemma_meet_all_sound(space.nodes(), rules, nothing_met(), entries@);
    }
    w.visit_all(space, rules, entries);
    w.run(space, rules, adj);
    w.into_results(space, rules)
}

/// A search that has met nothing is sound.
pub proof fn lemma_nothing_sound(space: Nodes, rules: Rules)
    ensures
        sound(space, rules, nothing_met()),
{
    broadcast use vstd::multiset::group_multiset_axioms;

}

/// A search that starts at one node is sound.
pub proof fn lemma_start_sound(space: Nodes, rules: Rules, entry: u32)
    requires
        entry < space.size(),
    ensures
        sound(space, rules, start(space, rules, entry)),
{
    broadcast use vstd::multiset::group_multiset_axioms;
    broadcast use vstd::set::group_set_axioms;

    lemma_node_of_slot(rules.high_first, entry);
    lemma_node_of_slot(!rules.high_wins, entry);
    let b = start(space, rules, entry);
    assert(b.visited.len() == 1);
    assert forall|x: Ranked| #[trigger] b.frontier.contains(x) implies x == ahead(
        space,
        rules,
        entry,
    ) by {}
    assert forall|x: Ranked| #[trigger] b.results.contains(x) implies x == found(
        space,
        rules,
        entry,
    ) && b.results.count(x) == 1 by {}
}

} // verus!
