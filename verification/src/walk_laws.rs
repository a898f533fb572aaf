//! A beam search stops only where it cannot get better from what it found.

use vstd::multiset::Multiset;
use vstd::prelude::*;

use crate::beam::{
    ahead, exhausted, found, is_graph, lemma_below_len, lemma_meet_all_sound,
    lemma_meet_sound, lemma_next, lemma_node_of_slot, lemma_nothing_sound, lemma_start_sound,
    listed_below, meet, meet_all, node_of, nothing_met, search_from, search_from_all, sound, start,
    walk, worst, Beam, Nodes, Rules,
};
use crate::beam_laws::{
    lawful, lemma_best_first, lemma_meet_all_lawful, lemma_walk_lawful, opened, reached,
};
use crate::heap::{least, lemma_least_exists};
use crate::reach::{edge, lemma_reach_self};

verus! {

/// Every result but those in `done` is in the frontier or has its neighbours met.
spec fn awaiting(
    space: Nodes,
    rules: Rules,
    adj: Seq<Seq<u32>>,
    b: Beam,
    done: Set<u32>,
) -> bool {
    forall|id: u32|
        b.visited.contains(id) && !done.contains(id) && b.results.contains(
            #[trigger] found(space, rules, id),
        ) ==> b.frontier.contains(ahead(space, rules, id)) || opened(adj, b, id)
}

proof fn lemma_meet_awaiting(
    space: Nodes,
    rules: Rules,
    adj: Seq<Seq<u32>>,
    b: Beam,
    id: u32,
    done: Set<u32>,
)
    requires
        sound(space, rules, b),
        !(rules.selective && rules.contested),
        awaiting(space, rules, adj, b, done),
        id < space.size(),
    ensures
        awaiting(space, rules, adj, meet(space, rules, b, id), done),
{
    broadcast use vstd::multiset::group_multiset_axioms;
    broadcast use vstd::set::group_set_axioms;

    let a = meet(space, rules, b, id);
    lemma_meet_sound(space, rules, b, id);
    if !b.visited.contains(id) {
        let f = found(space, rules, id);
        let grown = b.results.insert(f);
        lemma_least_exists(grown);
        assert forall|x: u32|
            a.visited.contains(x) && !done.contains(x) && a.results.contains(
                #[trigger] found(space, rules, x),
            ) implies a.frontier.contains(ahead(space, rules, x)) || opened(adj, a, x) by {
            let g = found(space, rules, x);
            lemma_node_of_slot(!rules.high_wins, x);
            lemma_node_of_slot(!rules.high_wins, id);
            if x == id {
                assert(!b.results.contains(f)) by {
                    if b.results.contains(f) {
                        assert(b.visited.contains(node_of(!rules.high_wins, f.1)));
                    }
                }
                assert(a.frontier.contains(ahead(space, rules, id)));
            } else {
                assert(g != f);
                assert(grown.count(g) == b.results.count(g));
                assert(b.results.contains(g));
                if b.frontier.contains(ahead(space, rules, x)) {
                    assert(a.frontier.count(ahead(space, rules, x)) >= b.frontier.count(
                        ahead(space, rules, x),
                    ));
                } else {
                    assert(opened(adj, b, x));
                }
            }
        }
    }
}

proof fn lemma_meet_all_awaiting(
    space: Nodes,
    rules: Rules,
    adj: Seq<Seq<u32>>,
    b: Beam,
    ids: Seq<u32>,
    done: Set<u32>,
)
    requires
        sound(space, rules, b),
        !(rules.selective && rules.contested),
        awaiting(space, rules, adj, b, done),
        listed_below(ids, space.size()),
    ensures
        awaiting(space, rules, adj, meet_all(space, rules, b, ids), done),
    decreases ids.len(),
{
    if ids.len() > 0 {
        let t = ids.drop_last();
        assert forall|i: int| 0 <= i < t.len() implies (#[trigger] t[i]) < space.size() by {
            assert(t[i] == ids[i]);
        }
        lemma_meet_all_awaiting(space, rules, adj, b, t, done);
        lemma_meet_all_sound(space, rules, b, t);
        assert(ids[ids.len() - 1] < space.size());
        lemma_meet_awaiting(
            space,
            rules,
            adj,
            meet_all(space, rules, b, t),
            ids.last(),
            done,
        );
    }
}

/// Where a walk ends, every result has its neighbours met.
proof fn lemma_walk_opens(
    space: Nodes,
    rules: Rules,
    adj: Seq<Seq<u32>>,
    b: Beam,
    fuel: nat,
)
    requires
        sound(space, rules, b),
        !(rules.selective && rules.contested),
        awaiting(space, rules, adj, b, Set::empty()),
        is_graph(adj, space.size()),
        b.frontier.len() + space.size() - b.visited.len() <= fuel,
    ensures
        ({
            let a = walk(space, rules, adj, b, fuel);
            forall|id: u32|
                a.visited.contains(id) && a.results.contains(#[trigger] found(space, rules, id))
                    ==> opened(adj, a, id)
        }),
    decreases fuel,
{
    broadcast use vstd::multiset::group_multiset_axioms;

    lemma_below_len(b.visited, space.size());
    if b.frontier.len() == 0 {
        assert(b.frontier =~= Multiset::empty());
        let a = walk(space, rules, adj, b, fuel);
        assert(a == b);
        assert forall|id: u32|
            a.visited.contains(id) && a.results.contains(
                #[trigger] found(space, rules, id),
            ) implies opened(adj, a, id) by {
            assert(!b.frontier.contains(ahead(space, rules, id)));
        }
    } else {
        lemma_next(space, rules, b);
        let c = least(b.frontier);
        let rest = Beam { frontier: b.frontier.remove(c), ..b };
        let id = node_of(rules.high_first, c.1);
        if exhausted(rules, b.results, c.0) {
            lemma_least_exists(b.results);
            assert forall|x: u32|
                rest.visited.contains(x) && rest.results.contains(
                    #[trigger] found(space, rules, x),
                ) implies opened(adj, rest, x) by {
                assert(crate::heap::before(least(b.results), found(space, rules, x)));
                assert(space.rank_of(x) <= worst(b.results));
                if b.frontier.contains(ahead(space, rules, x)) {
                    assert(crate::heap::before(c, ahead(space, rules, x)));
                }
                assert(opened(adj, b, x));
            }
        } else {
            let ids = adj[id as int];
            let done = Set::empty().insert(id);
            assert(awaiting(space, rules, adj, rest, done)) by {
                assert forall|x: u32|
                    rest.visited.contains(x) && !done.contains(x) && rest.results.contains(
                        #[trigger] found(space, rules, x),
                    ) implies rest.frontier.contains(ahead(space, rules, x)) || opened(
                    adj,
                    rest,
                    x,
                ) by {
                    if b.frontier.contains(ahead(space, rules, x)) {
                        lemma_node_of_slot(rules.high_first, x);
                        assert(ahead(space, rules, x) != c);
                        assert(rest.frontier.count(ahead(space, rules, x)) == b.frontier.count(
                            ahead(space, rules, x),
                        ));
                    } else {
                        assert(opened(adj, b, x));
                    }
                }
            }
            lemma_meet_all_awaiting(space, rules, adj, rest, ids, done);
            lemma_meet_all_sound(space, rules, rest, ids);
            let a = meet_all(space, rules, rest, ids);
            assert(opened(adj, a, id)) by {
                assert forall|y: u32| edge(adj, id, y) implies a.visited.contains(y) by {
                    assert(ids.contains(y));
                    assert(ids.to_set().contains(y));
                }
            }
            assert(awaiting(space, rules, adj, a, Set::empty()));
            lemma_walk_opens(space, rules, adj, a, (fuel - 1) as nat);
        }
    }
}

/// A search cannot get better from what it found: a neighbour of a result that may be a
/// result is one too, or there are as many results as were asked for and none of them
/// is worse.
pub open spec fn settled_on(
    space: Nodes,
    rules: Rules,
    adj: Seq<Seq<u32>>,
    out: Seq<(u64, u32)>,
) -> bool {
    forall|i: int, y: u32|
        0 <= i < out.len() && edge(adj, (#[trigger] out[i]).1, y) && #[trigger] space.admits(y)
            ==> {
            ||| out.contains((space.rank_of(y), y))
            ||| out.len() >= rules.ef && out.last().0 <= space.rank_of(y)
        }
}

proof fn lemma_settled(
    space: Nodes,
    rules: Rules,
    adj: Seq<Seq<u32>>,
    entries: Seq<u32>,
    most: nat,
    a: Beam,
)
    requires
        lawful(space, rules, adj, entries, most, a),
        forall|id: u32|
            a.visited.contains(id) && a.results.contains(#[trigger] found(space, rules, id))
                ==> opened(adj, a, id),
    ensures
        settled_on(space, rules, adj, crate::beam::best_first(rules, a.results)),
{
    let out = crate::beam::best_first(rules, a.results);
    lemma_best_first(space, rules, a);
    assert forall|i: int, y: u32|
        0 <= i < out.len() && edge(adj, (#[trigger] out[i]).1, y) && #[trigger] space.admits(
            y,
        ) implies {
        ||| out.contains((space.rank_of(y), y))
        ||| out.len() >= rules.ef && out.last().0 <= space.rank_of(y)
    } by {
        let x = out[i].1;
        assert(a.results.contains(found(space, rules, x)));
        assert(opened(adj, a, x));
        assert(a.visited.contains(y));
        if !a.results.contains(found(space, rules, y)) {
            let last = out[out.len() - 1];
            assert(a.results.contains(found(space, rules, last.1)));
        }
    }
}

/// A search from one node settles.
pub proof fn lemma_search_settles(space: Nodes, rules: Rules, adj: Seq<Seq<u32>>, entry: u32)
    requires
        is_graph(adj, space.size()),
        entry < space.size(),
        rules.ef > 0,
        !(rules.selective && rules.contested),
    ensures
        settled_on(space, rules, adj, search_from(space, rules, adj, entry)),
{
    broadcast use vstd::multiset::group_multiset_axioms;
    broadcast use vstd::set::group_set_axioms;

    let b = start(space, rules, entry);
    let entries = seq![entry];
    lemma_start_sound(space, rules, entry);
    lemma_reach_self(adj, entry);
    assert(crate::reach::reachable(adj, entries[0], entry));
    assert(lawful(space, rules, adj, entries, rules.ef as nat, b));
    lemma_walk_lawful(space, rules, adj, entries, rules.ef as nat, b, space.size());
    assert(awaiting(space, rules, adj, b, Set::empty()));
    assert(b.visited.len() == 1 && b.frontier.len() == 1);
    lemma_walk_opens(space, rules, adj, b, space.size());
    let a = walk(space, rules, adj, b, space.size());
    lemma_settled(space, rules, adj, entries, rules.ef as nat, a);
}

/// A search from several nodes settles.
pub proof fn lemma_search_all_settles(
    space: Nodes,
    rules: Rules,
    adj: Seq<Seq<u32>>,
    entries: Seq<u32>,
)
    requires
        is_graph(adj, space.size()),
        listed_below(entries, space.size()),
        rules.ef > 0,
        !(rules.selective && rules.contested),
    ensures
        settled_on(space, rules, adj, search_from_all(space, rules, adj, entries)),
{
    broadcast use vstd::multiset::group_multiset_axioms;
    broadcast use vstd::set::group_set_axioms;

    lemma_nothing_sound(space, rules);
    assert forall|i: int| 0 <= i < entries.len() implies reached(
        adj,
        entries,
        #[trigger] entries[i],
    ) by {
        lemma_reach_self(adj, entries[i]);
    }
    let most = rules.ef as nat;
    lemma_meet_all_lawful(space, rules, adj, entries, most, nothing_met(), entries);
    lemma_meet_all_sound(space, rules, nothing_met(), entries);
    assert(awaiting(space, rules, adj, nothing_met(), Set::empty()));
    lemma_meet_all_awaiting(space, rules, adj, nothing_met(), entries, Set::empty());
    let b = meet_all(space, rules, nothing_met(), entries);
    lemma_walk_lawful(space, rules, adj, entries, most, b, space.size());
    lemma_walk_opens(space, rules, adj, b, space.size());
    let a = walk(space, rules, adj, b, space.size());
    lemma_settled(space, rules, adj, entries, most, a);
}

} // verus!
