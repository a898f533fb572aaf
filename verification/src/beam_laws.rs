//! What holds of every beam search.

use vstd::multiset::Multiset;
use vstd::prelude::*;

use crate::beam::{
    ahead, best_first, exhausted, found, improves, is_graph, lemma_below_len, lemma_meet_all_sound,
    lemma_meet_sound, lemma_next, lemma_node_of_slot, lemma_nothing_sound, lemma_start_sound,
    listed_below, meet, meet_all, node_of, nothing_met, search_from, search_from_all, sound, start,
    walk, Beam, Nodes, Rules,
};
use crate::heap::{
    in_order, least, lemma_in_order, lemma_in_order_contains, lemma_least_exists, Ranked,
};
use crate::reach::{edge, lemma_reach_closed, lemma_reach_self, lemma_reach_step, reachable};
use crate::sorting::ascending;

verus! {

/// Some entry node leads to `id`.
pub open spec fn reached(adj: Seq<Seq<u32>>, entries: Seq<u32>, id: u32) -> bool {
    exists|i: int| 0 <= i < entries.len() && reachable(adj, #[trigger] entries[i], id)
}

/// A node that was met and may be a result is one, unless the results are
/// complete and none of them is worse.
pub open spec fn keeps_best(space: Nodes, rules: Rules, b: Beam) -> bool {
    forall|id: u32|
        b.visited.contains(id) && space.admits(id) && !b.results.contains(
            #[trigger] found(space, rules, id),
        ) ==> {
            &&& b.results.len() >= rules.ef
            &&& forall|x: Ranked| #[trigger]
                b.results.contains(x) ==> u64::MAX - x.0 <= space.rank_of(id)
        }
}

/// What holds of every state of a search.
pub open spec fn lawful(
    space: Nodes,
    rules: Rules,
    adj: Seq<Seq<u32>>,
    entries: Seq<u32>,
    most: nat,
    b: Beam,
) -> bool {
    &&& sound(space, rules, b)
    &&& keeps_best(space, rules, b)
    &&& forall|id: u32| #[trigger] b.visited.contains(id) ==> reached(adj, entries, id)
    &&& b.results.len() <= most
}

proof fn lemma_meet_keeps_best(space: Nodes, rules: Rules, b: Beam, id: u32)
    requires
        sound(space, rules, b),
        keeps_best(space, rules, b),
        id < space.size(),
    ensures
        keeps_best(space, rules, meet(space, rules, b, id)),
{
    broadcast use vstd::multiset::group_multiset_axioms;

    let a = meet(space, rules, b, id);
    if !b.visited.contains(id) {
        let f = found(space, rules, id);
        let grown = b.results.insert(f);
        let r = space.rank_of(id);
        assert(grown.len() == b.results.len() + 1);
        lemma_least_exists(grown);
        let w = least(grown);
        if b.results.len() > 0 {
            lemma_least_exists(b.results);
        }
        let better = improves(rules, b.results, r);
        let enters = space.admits(id) && (better || rules.contested);
        assert forall|other: u32|
            a.visited.contains(other) && space.admits(other) && !a.results.contains(
                #[trigger] found(space, rules, other),
            ) implies {
            &&& a.results.len() >= rules.ef
            &&& forall|x: Ranked| #[trigger]
                a.results.contains(x) ==> u64::MAX - x.0 <= space.rank_of(other)
        } by {
            let g = found(space, rules, other);
            if !enters {
                if other == id {
                    assert forall|x: Ranked| #[trigger] a.results.contains(x) implies u64::MAX - x.0
                        <= r by {
                        assert(crate::heap::before(least(b.results), x));
                    }
                }
            } else {
                assert(grown.contains(f));
                if grown.len() > rules.ef {
                    assert(a.results == grown.remove(w));
                    assert(a.results.len() == grown.len() - 1);
                    assert forall|x: Ranked| #[trigger] a.results.contains(x) implies u64::MAX - x.0
                        <= space.rank_of(other) by {
                        assert(grown.contains(x));
                        assert(crate::heap::before(w, x));
                        if grown.contains(g) {
                            assert(w == g);
                        } else {
                            assert(!b.results.contains(g));
                            assert(other != id);
                            assert(b.visited.contains(other));
                            if b.results.contains(x) {
                            } else {
                                assert(x == f);
                                assert(w != f);
                                assert(b.results.contains(w));
                            }
                        }
                    }
                } else {
                    assert(a.results == grown);
                    assert(!b.results.contains(g));
                    assert(other != id);
                    assert(b.visited.contains(other));
                }
            }
        }
    }
}

proof fn lemma_meet_most(space: Nodes, rules: Rules, b: Beam, id: u32, most: nat)
    requires
        b.results.len() <= most,
        rules.ef <= most,
    ensures
        meet(space, rules, b, id).results.len() <= most,
{
    broadcast use vstd::multiset::group_multiset_axioms;

    let grown = b.results.insert(found(space, rules, id));
    assert(grown.len() == b.results.len() + 1);
    lemma_least_exists(grown);
}

/// Meeting the nodes of a list keeps a state lawful.
pub proof fn lemma_meet_all_lawful(
    space: Nodes,
    rules: Rules,
    adj: Seq<Seq<u32>>,
    entries: Seq<u32>,
    most: nat,
    b: Beam,
    ids: Seq<u32>,
)
    requires
        lawful(space, rules, adj, entries, most, b),
        rules.ef <= most,
        listed_below(ids, space.size()),
        forall|i: int| 0 <= i < ids.len() ==> reached(adj, entries, #[trigger] ids[i]),
    ensures
        lawful(space, rules, adj, entries, most, meet_all(space, rules, b, ids)),
        b.visited.subset_of(meet_all(space, rules, b, ids).visited),
        forall|i: int|
            0 <= i < ids.len() ==> meet_all(space, rules, b, ids).visited.contains(
                #[trigger] ids[i],
            ),
    decreases ids.len(),
{
    if ids.len() > 0 {
        let t = ids.drop_last();
        assert forall|i: int| 0 <= i < t.len() implies (#[trigger] t[i]) < space.size() && reached(
            adj,
            entries,
            t[i],
        ) by {
            assert(t[i] == ids[i]);
        }
        lemma_meet_all_lawful(space, rules, adj, entries, most, b, t);
        let c = meet_all(space, rules, b, t);
        let id = ids[ids.len() - 1];
        assert(reached(adj, entries, id));
        lemma_meet_sound(space, rules, c, id);
        lemma_meet_keeps_best(space, rules, c, id);
        lemma_meet_most(space, rules, c, id, most);
        assert forall|i: int| 0 <= i < ids.len() implies meet_all(space, rules, b, ids).visited.contains(
            #[trigger] ids[i],
        ) by {
            if i < t.len() {
                assert(c.visited.contains(t[i]));
            }
        }
    }
}

/// A walk keeps a state lawful.
pub proof fn lemma_walk_lawful(
    space: Nodes,
    rules: Rules,
    adj: Seq<Seq<u32>>,
    entries: Seq<u32>,
    most: nat,
    b: Beam,
    fuel: nat,
)
    requires
        lawful(space, rules, adj, entries, most, b),
        rules.ef <= most,
        is_graph(adj, space.size()),
    ensures
        lawful(space, rules, adj, entries, most, walk(space, rules, adj, b, fuel)),
        b.visited.subset_of(walk(space, rules, adj, b, fuel).visited),
    decreases fuel,
{
    if fuel > 0 && b.frontier.len() > 0 {
        lemma_next(space, rules, b);
        let c = least(b.frontier);
        let rest = Beam { frontier: b.frontier.remove(c), ..b };
        let id = node_of(rules.high_first, c.1);
        assert(lawful(space, rules, adj, entries, most, rest));
        if !exhausted(rules, b.results, c.0) {
            let ids = adj[id as int];
            assert(reached(adj, entries, id));
            let e = choose|e: int| 0 <= e < entries.len() && reachable(adj, #[trigger] entries[e], id);
            assert forall|i: int| 0 <= i < ids.len() implies reached(
                adj,
                entries,
                #[trigger] ids[i],
            ) by {
                assert(ids.contains(ids[i]));
                assert(edge(adj, id, ids[i]));
                lemma_reach_step(adj, entries[e], id, ids[i]);
            }
            lemma_meet_all_lawful(space, rules, adj, entries, most, rest, ids);
            lemma_meet_all_sound(space, rules, rest, ids);
            lemma_walk_lawful(
                space,
                rules,
                adj,
                entries,
                most,
                meet_all(space, rules, rest, ids),
                (fuel - 1) as nat,
            );
        }
    }
}

/// Every node that was met is in the frontier or has its neighbours met, and is
/// a result if it may be one.
spec fn covering(space: Nodes, rules: Rules, adj: Seq<Seq<u32>>, b: Beam) -> bool {
    &&& forall|id: u32| #[trigger]
        b.visited.contains(id) ==> b.frontier.contains(ahead(space, rules, id)) || opened(adj, b, id)
    &&& forall|id: u32|
        b.visited.contains(id) && space.admits(id) ==> b.results.contains(
            #[trigger] found(space, rules, id),
        )
}

/// The neighbours of a node were met.
pub open spec fn opened(adj: Seq<Seq<u32>>, b: Beam, id: u32) -> bool {
    forall|y: u32| edge(adj, id, y) ==> b.visited.contains(y)
}

proof fn lemma_meet_wide(space: Nodes, rules: Rules, b: Beam, id: u32)
    requires
        sound(space, rules, b),
        rules.ef >= space.size(),
        id < space.size(),
    ensures
        b.frontier.subset_of(meet(space, rules, b, id).frontier),
        b.results.subset_of(meet(space, rules, b, id).results),
        !b.visited.contains(id) ==> meet(space, rules, b, id).frontier.contains(
            ahead(space, rules, id),
        ),
        !b.visited.contains(id) && space.admits(id) ==> meet(space, rules, b, id).results.contains(
            found(space, rules, id),
        ),
{
    broadcast use vstd::multiset::group_multiset_axioms;
    broadcast use vstd::set::group_set_axioms;

    if !b.visited.contains(id) {
        let v = b.visited.insert(id);
        lemma_below_len(v, space.size());
        assert(v.len() == b.visited.len() + 1);
        assert(improves(rules, b.results, space.rank_of(id)));
        assert(b.results.insert(found(space, rules, id)).len() <= rules.ef);
    }
}

proof fn lemma_meet_all_wide(
    space: Nodes,
    rules: Rules,
    adj: Seq<Seq<u32>>,
    b: Beam,
    ids: Seq<u32>,
    except: u32,
)
    requires
        sound(space, rules, b),
        rules.ef >= space.size(),
        listed_below(ids, space.size()),
        forall|id: u32|
            #[trigger] b.visited.contains(id) && id != except ==> b.frontier.contains(
                ahead(space, rules, id),
            ) || opened(adj, b, id),
        forall|id: u32|
            b.visited.contains(id) && space.admits(id) ==> b.results.contains(
                #[trigger] found(space, rules, id),
            ),
    ensures
        ({
            let a = meet_all(space, rules, b, ids);
            &&& forall|id: u32| #[trigger]
                a.visited.contains(id) && id != except ==> a.frontier.contains(
                    ahead(space, rules, id),
                ) || opened(adj, a, id)
            &&& forall|id: u32|
                a.visited.contains(id) && space.admits(id) ==> a.results.contains(
                    #[trigger] found(space, rules, id),
                )
        }),
    decreases ids.len(),
{
    if ids.len() > 0 {
        let t = ids.drop_last();
        assert forall|i: int| 0 <= i < t.len() implies (#[trigger] t[i]) < space.size() by {
            assert(t[i] == ids[i]);
        }
        lemma_meet_all_wide(space, rules, adj, b, t, except);
        lemma_meet_all_sound(space, rules, b, t);
        let c = meet_all(space, rules, b, t);
        let id = ids[ids.len() - 1];
        let a = meet(space, rules, c, id);
        lemma_meet_wide(space, rules, c, id);
        lemma_meet_sound(space, rules, c, id);
        assert forall|x: u32| #[trigger] a.visited.contains(x) && x != except implies (
        a.frontier.contains(ahead(space, rules, x)) || opened(adj, a, x)) by {
            if c.visited.contains(x) {
                if c.frontier.contains(ahead(space, rules, x)) {
                    assert(a.frontier.count(ahead(space, rules, x)) >= c.frontier.count(
                        ahead(space, rules, x),
                    ));
                } else {
                    assert(opened(adj, c, x));
                }
            }
        }
        assert forall|x: u32| a.visited.contains(x) && space.admits(x) implies a.results.contains(
            #[trigger] found(space, rules, x),
        ) by {
            if c.visited.contains(x) {
                assert(c.results.contains(found(space, rules, x)));
                assert(a.results.count(found(space, rules, x)) >= c.results.count(
                    found(space, rules, x),
                ));
            }
        }
    }
}

/// A set of as many nodes as there are holds every node.
proof fn lemma_full(s: Set<u32>, n: nat, id: u32)
    requires
        s.finite(),
        forall|x: u32| s.contains(x) ==> x < n,
        s.len() >= n,
        id < n,
    ensures
        s.contains(id),
{
    if !s.contains(id) {
        lemma_below_len(s.insert(id), n);
    }
}

proof fn lemma_walk_wide(
    space: Nodes,
    rules: Rules,
    adj: Seq<Seq<u32>>,
    b: Beam,
    fuel: nat,
)
    requires
        sound(space, rules, b),
        covering(space, rules, adj, b),
        rules.ef >= space.size(),
        is_graph(adj, space.size()),
        b.frontier.len() + space.size() - b.visited.len() <= fuel,
    ensures
        ({
            let a = walk(space, rules, adj, b, fuel);
            &&& sound(space, rules, a)
            &&& b.visited.subset_of(a.visited)
            &&& forall|id: u32| #[trigger] a.visited.contains(id) ==> opened(adj, a, id)
            &&& forall|id: u32|
                a.visited.contains(id) && space.admits(id) ==> a.results.contains(
                    #[trigger] found(space, rules, id),
                )
        }),
    decreases fuel,
{
    broadcast use vstd::multiset::group_multiset_axioms;

    lemma_below_len(b.visited, space.size());
    if b.frontier.len() == 0 {
        assert(b.frontier =~= Multiset::empty());
        let a = walk(space, rules, adj, b, fuel);
        assert(a == b);
        assert forall|id: u32| #[trigger] a.visited.contains(id) implies opened(adj, a, id) by {
            assert(!b.frontier.contains(ahead(space, rules, id)));
        }
    } else {
        lemma_next(space, rules, b);
        let c = least(b.frontier);
        let rest = Beam { frontier: b.frontier.remove(c), ..b };
        let id = node_of(rules.high_first, c.1);
        if exhausted(rules, b.results, c.0) {
            assert forall|x: u32| #[trigger] rest.visited.contains(x) implies opened(
                adj,
                rest,
                x,
            ) by {
                assert forall|y: u32| edge(adj, x, y) implies rest.visited.contains(y) by {
                    let ids = adj[x as int];
                    let i = choose|i: int| 0 <= i < ids.len() && ids[i] == y;
                    assert(ids[i] < space.size());
                    lemma_full(rest.visited, space.size(), y);
                }
            }
        } else {
            let ids = adj[id as int];
            assert forall|x: u32| #[trigger] rest.visited.contains(x) && x != id implies (
            rest.frontier.contains(ahead(space, rules, x)) || opened(adj, rest, x)) by {
                assert(b.visited.contains(x));
                if b.frontier.contains(ahead(space, rules, x)) {
                    lemma_node_of_slot(rules.high_first, x);
                    assert(ahead(space, rules, x) != c);
                    assert(rest.frontier.count(ahead(space, rules, x)) == b.frontier.count(
                        ahead(space, rules, x),
                    ));
                } else {
                    assert(opened(adj, b, x));
                }
            }
            lemma_meet_all_wide(space, rules, adj, rest, ids, id);
            lemma_meet_all_sound(space, rules, rest, ids);
            let a = meet_all(space, rules, rest, ids);
            assert(opened(adj, a, id)) by {
                assert forall|y: u32| edge(adj, id, y) implies a.visited.contains(y) by {
                    assert(ids.contains(y));
                    assert(ids.to_set().contains(y));
                }
            }
            assert(covering(space, rules, adj, a));
            lemma_walk_wide(space, rules, adj, a, (fuel - 1) as nat);
        }
    }
}

/// The results of a sound state come out by ascending rank, each once.
pub proof fn lemma_best_first(space: Nodes, rules: Rules, b: Beam)
    requires
        sound(space, rules, b),
    ensures
        ({
            let out = best_first(rules, b.results);
            &&& out.len() == b.results.len()
            &&& ascending(out)
            &&& forall|i: int|
                0 <= i < out.len() ==> {
                    let x = #[trigger] out[i];
                    &&& b.visited.contains(x.1)
                    &&& space.admits(x.1)
                    &&& x.0 == space.rank_of(x.1)
                    &&& b.results.contains(found(space, rules, x.1))
                }
            &&& forall|i: int, j: int|
                0 <= i < j < out.len() ==> (#[trigger] out[i]).1 != (#[trigger] out[j]).1
            &&& forall|id: u32|
                b.results.contains(#[trigger] found(space, rules, id)) ==> out.contains(
                    (space.rank_of(id), id),
                )
        }),
{
    broadcast use vstd::multiset::group_multiset_axioms;

    let m = b.results;
    let s = in_order(m);
    let out = best_first(rules, m);
    lemma_in_order(m);
    lemma_in_order_contains(m);
    let n = s.len() as int;
    assert forall|i: int| 0 <= i < n implies {
        let x = #[trigger] out[i];
        &&& s[n - 1 - i] == found(space, rules, x.1)
        &&& x.0 == space.rank_of(x.1)
        &&& b.visited.contains(x.1)
        &&& space.admits(x.1)
        &&& m.contains(found(space, rules, x.1))
    } by {
        assert(m.contains(s[n - 1 - i]));
    }
    assert forall|i: int, j: int| 0 <= i <= j < out.len() implies (#[trigger] out[i]).0 <= (
    #[trigger] out[j]).0 by {
        assert(crate::heap::before(s[n - 1 - j], s[n - 1 - i]));
    }
    assert forall|i: int, j: int| 0 <= i < j < out.len() implies (#[trigger] out[i]).1 != (
    #[trigger] out[j]).1 by {
        if out[i].1 == out[j].1 {
            let x = s[n - 1 - i];
            assert(s[n - 1 - j] == x);
            assert(m.count(x) == 1);
            lemma_twice(s, n - 1 - j, n - 1 - i);
        }
    }
    assert forall|id: u32| m.contains(#[trigger] found(space, rules, id)) implies out.contains(
        (space.rank_of(id), id),
    ) by {
        let x = found(space, rules, id);
        assert(s.contains(x));
        let i = choose|i: int| 0 <= i < s.len() && s[i] == x;
        lemma_node_of_slot(!rules.high_wins, id);
        assert(out[n - 1 - i] == (space.rank_of(id), id));
    }
}

/// What stands at two places counts twice.
proof fn lemma_twice<A>(s: Seq<A>, i: int, j: int)
    requires
        0 <= i < j < s.len(),
        s[i] == s[j],
    ensures
        s.to_multiset().count(s[i]) >= 2,
{
    broadcast use vstd::multiset::group_multiset_axioms;

    let x = s[i];
    let t = s.remove(j);
    s.to_multiset_ensures();
    t.to_multiset_ensures();
    assert(t[i] == x);
    assert(t.contains(x));
    assert(t.to_multiset().count(x) > 0);
    assert(t.to_multiset() =~= s.to_multiset().remove(x));
    assert(s.contains(s[j]));
}

/// The results of a search, whatever its width: they come by ascending rank,
/// each node once, each reachable from the entry node, admitted and under its
/// own rank, and no more of them than the width. If the entry node is admitted,
/// the first result is at least as good.
pub proof fn lemma_search_from(space: Nodes, rules: Rules, adj: Seq<Seq<u32>>, entry: u32)
    requires
        is_graph(adj, space.size()),
        entry < space.size(),
    ensures
        ({
            let out = search_from(space, rules, adj, entry);
            &&& ascending(out)
            &&& forall|i: int|
                0 <= i < out.len() ==> {
                    let x = #[trigger] out[i];
                    &&& x.1 < space.size()
                    &&& reachable(adj, entry, x.1)
                    &&& space.admits(x.1)
                    &&& x.0 == space.rank_of(x.1)
                }
            &&& forall|i: int, j: int|
                0 <= i < j < out.len() ==> (#[trigger] out[i]).1 != (#[trigger] out[j]).1
            &&& out.len() <= if rules.ef > 0 {
                rules.ef as int
            } else {
                1
            }
            &&& space.admits(entry) && rules.ef > 0 ==> out.len() > 0 && out[0].0 <= space.rank_of(
                entry,
            )
        }),
{
    broadcast use vstd::multiset::group_multiset_axioms;

    let b = start(space, rules, entry);
    let entries = seq![entry];
    let most: nat = if rules.ef > 0 {
        rules.ef as nat
    } else {
        1
    };
    lemma_start_sound(space, rules, entry);
    lemma_reach_self(adj, entry);
    assert(reachable(adj, entries[0], entry));
    lemma_walk_lawful(space, rules, adj, entries, most, b, space.size());
    let a = walk(space, rules, adj, b, space.size());
    lemma_best_first(space, rules, a);
    let out = search_from(space, rules, adj, entry);
    assert forall|i: int| 0 <= i < out.len() implies reachable(adj, entry, (#[trigger] out[i]).1) by {
        assert(reached(adj, entries, out[i].1));
    }
    if space.admits(entry) && rules.ef > 0 {
        assert(b.visited.contains(entry));
        if a.results.contains(found(space, rules, entry)) {
            let i = choose|i: int| 0 <= i < out.len() && out[i] == (space.rank_of(entry), entry);
            assert(out[0].0 <= out[i].0);
        } else {
            assert(a.results.contains(found(space, rules, out[0].1)));
        }
    }
}

/// The results of a search from several entry nodes, whatever its width. The
/// first result is at least as good as every entry node that is admitted.
pub proof fn lemma_search_from_all(
    space: Nodes,
    rules: Rules,
    adj: Seq<Seq<u32>>,
    entries: Seq<u32>,
)
    requires
        is_graph(adj, space.size()),
        listed_below(entries, space.size()),
    ensures
        ({
            let out = search_from_all(space, rules, adj, entries);
            &&& ascending(out)
            &&& forall|i: int|
                0 <= i < out.len() ==> {
                    let x = #[trigger] out[i];
                    &&& x.1 < space.size()
                    &&& reached(adj, entries, x.1)
                    &&& space.admits(x.1)
                    &&& x.0 == space.rank_of(x.1)
                }
            &&& forall|i: int, j: int|
                0 <= i < j < out.len() ==> (#[trigger] out[i]).1 != (#[trigger] out[j]).1
            &&& out.len() <= rules.ef
            &&& forall|i: int|
                0 <= i < entries.len() && rules.ef > 0 && space.admits(#[trigger] entries[i])
                    ==> out.len() > 0 && out[0].0 <= space.rank_of(entries[i])
        }),
{
    broadcast use vstd::multiset::group_multiset_axioms;

    lemma_nothing_sound(space, rules);
    assert forall|i: int| 0 <= i < entries.len() implies reached(adj, entries, #[trigger] entries[i]) by {
        lemma_reach_self(adj, entries[i]);
    }
    lemma_meet_all_lawful(space, rules, adj, entries, rules.ef as nat, nothing_met(), entries);
    let b = meet_all(space, rules, nothing_met(), entries);
    lemma_walk_lawful(space, rules, adj, entries, rules.ef as nat, b, space.size());
    let a = walk(space, rules, adj, b, space.size());
    lemma_best_first(space, rules, a);
    let out = search_from_all(space, rules, adj, entries);
    assert forall|e: int|
        0 <= e < entries.len() && rules.ef > 0 && space.admits(#[trigger] entries[e]) implies out.len()
        > 0 && out[0].0 <= space.rank_of(entries[e]) by {
        let entry = entries[e];
        assert(b.visited.contains(entry));
        if a.results.contains(found(space, rules, entry)) {
            let i = choose|i: int| 0 <= i < out.len() && out[i] == (space.rank_of(entry), entry);
            assert(out[0].0 <= out[i].0);
        } else {
            assert(a.results.contains(found(space, rules, out[0].1)));
        }
    }
}

/// A search that is as wide as the graph is exact: it returns every admitted
/// node that the entry node leads to.
pub proof fn lemma_search_from_exact(
    space: Nodes,
    rules: Rules,
    adj: Seq<Seq<u32>>,
    entry: u32,
    id: u32,
)
    requires
        is_graph(adj, space.size()),
        entry < space.size(),
        rules.ef >= space.size(),
    ensures
        search_from(space, rules, adj, entry).contains((space.rank_of(id), id)) <==> (
        space.admits(id) && reachable(adj, entry, id)),
{
    broadcast use vstd::multiset::group_multiset_axioms;
    broadcast use vstd::set::group_set_axioms;

    let b = start(space, rules, entry);
    lemma_start_sound(space, rules, entry);
    assert(covering(space, rules, adj, b));
    lemma_walk_wide(space, rules, adj, b, space.size());
    let a = walk(space, rules, adj, b, space.size());
    lemma_best_first(space, rules, a);
    let out = search_from(space, rules, adj, entry);
    if space.admits(id) && reachable(adj, entry, id) {
        assert forall|x: u32, y: u32| a.visited.contains(x) && #[trigger] edge(
            adj,
            x,
            y,
        ) implies a.visited.contains(y) by {
            assert(opened(adj, a, x));
        }
        assert(b.visited.contains(entry));
        lemma_reach_closed(adj, a.visited, entry, id);
        assert(a.results.contains(found(space, rules, id)));
    }
    if out.contains((space.rank_of(id), id)) {
        lemma_search_from(space, rules, adj, entry);
    }
}

/// A search from several nodes that is as wide as the graph is exact.
pub proof fn lemma_search_from_all_exact(
    space: Nodes,
    rules: Rules,
    adj: Seq<Seq<u32>>,
    entries: Seq<u32>,
    id: u32,
)
    requires
        is_graph(adj, space.size()),
        listed_below(entries, space.size()),
        rules.ef >= space.size(),
    ensures
        search_from_all(space, rules, adj, entries).contains((space.rank_of(id), id)) <==> (
        space.admits(id) && reached(adj, entries, id)),
{
    broadcast use vstd::multiset::group_multiset_axioms;
    broadcast use vstd::set::group_set_axioms;

    lemma_nothing_sound(space, rules);
    lemma_meet_all_sound(space, rules, nothing_met(), entries);
    if space.size() > 0 {
        lemma_meet_all_wide(space, rules, adj, nothing_met(), entries, 0);
        lemma_meet_all_wide(space, rules, adj, nothing_met(), entries, 1);
    } else {
        assert(entries.len() == 0) by {
            if entries.len() > 0 {
                assert(entries[0] < space.size());
            }
        }
    }
    let b = meet_all(space, rules, nothing_met(), entries);
    assert(covering(space, rules, adj, b));
    lemma_below_len(b.visited, space.size());
    lemma_walk_wide(space, rules, adj, b, space.size());
    let a = walk(space, rules, adj, b, space.size());
    lemma_best_first(space, rules, a);
    let out = search_from_all(space, rules, adj, entries);
    if space.admits(id) && reached(adj, entries, id) {
        let e = choose|e: int| 0 <= e < entries.len() && reachable(adj, #[trigger] entries[e], id);
        assert forall|x: u32, y: u32| a.visited.contains(x) && #[trigger] edge(
            adj,
            x,
            y,
        ) implies a.visited.contains(y) by {
            assert(opened(adj, a, x));
        }
        assert(entries.to_set().contains(entries[e]));
        assert(b.visited.contains(entries[e]));
        lemma_reach_closed(adj, a.visited, entries[e], id);
        assert(a.results.contains(found(space, rules, id)));
    }
    if out.contains((space.rank_of(id), id)) {
        lemma_search_from_all(space, rules, adj, entries);
    }
}

} // verus!
