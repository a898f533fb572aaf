//! A binary min-heap of ranked slots.
//!
//! A ranked slot is a pair of a rank and a slot number. Pairs are ordered by
//! rank, and by slot where the ranks are equal.

use vstd::multiset::Multiset;
use vstd::prelude::*;
use vstd::relations::*;

verus! {

/// A rank, and the number of the slot that it belongs to.
pub type Ranked = (u64, usize);

/// The order of the heap: by rank, then by slot.
pub open spec fn before(a: Ranked, b: Ranked) -> bool {
    a.0 < b.0 || (a.0 == b.0 && a.1 <= b.1)
}

/// `x` is in `m`, and nothing in `m` comes before it.
pub open spec fn is_least(m: Multiset<Ranked>, x: Ranked) -> bool {
    m.contains(x) && forall|y: Ranked| m.contains(y) ==> before(x, y)
}

/// The first element of `m`.
pub open spec fn least(m: Multiset<Ranked>) -> Ranked {
    choose|x: Ranked| is_least(m, x)
}

/// The elements of `m` in order.
pub open spec fn in_order(m: Multiset<Ranked>) -> Seq<Ranked>
    decreases m.len(),
{
    if m.len() == 0 || !m.contains(least(m)) {
        Seq::empty()
    } else {
        seq![least(m)] + in_order(m.remove(least(m)))
    }
}

/// A first element is the only one.
pub proof fn lemma_least_unique(m: Multiset<Ranked>, x: Ranked)
    requires
        is_least(m, x),
    ensures
        least(m) == x,
{
    assert(is_least(m, least(m)));
    assert(before(x, least(m)) && before(least(m), x));
}

/// A multiset that is not empty has a first element.
pub proof fn lemma_least_exists(m: Multiset<Ranked>)
    requires
        m.len() > 0,
    ensures
        is_least(m, least(m)),
    decreases m.len(),
{
    broadcast use vstd::multiset::group_multiset_axioms;

    let x = m.choose();
    let rest = m.remove(x);
    if rest.len() == 0 {
        assert forall|y: Ranked| m.contains(y) implies before(x, y) by {
            if y != x {
                assert(rest.count(y) == m.count(y));
                assert(rest.count(y) <= rest.len());
            }
        }
        assert(is_least(m, x));
    } else {
        lemma_least_exists(rest);
        let r = least(rest);
        let w = if before(x, r) {
            x
        } else {
            r
        };
        assert forall|y: Ranked| m.contains(y) implies before(w, y) by {
            if y != x {
                assert(rest.count(y) == m.count(y));
                assert(rest.contains(y));
            }
        }
        assert(is_least(m, w));
    }
}

/// `in_order` keeps every element and puts them in order.
pub proof fn lemma_in_order(m: Multiset<Ranked>)
    ensures
        in_order(m).len() == m.len(),
        in_order(m).to_multiset() == m,
        forall|i: int, j: int|
            0 <= i <= j < m.len() ==> before(#[trigger] in_order(m)[i], #[trigger] in_order(m)[j]),
    decreases m.len(),
{
    broadcast use vstd::multiset::group_multiset_axioms;

    if m.len() == 0 {
        assert(m =~= Multiset::empty());
        assert(in_order(m) =~= Seq::empty());
        in_order(m).to_multiset_ensures();
        assert(in_order(m).to_multiset() =~= m) by {
            assert forall|x: Ranked| in_order(m).to_multiset().count(x) == 0 by {
                assert(!in_order(m).contains(x));
            }
        }
    } else {
        lemma_least_exists(m);
        let x = least(m);
        let rest = m.remove(x);
        lemma_in_order(rest);
        let s = in_order(m);
        assert(s =~= seq![x] + in_order(rest));
        vstd::seq_lib::lemma_multiset_commutative(seq![x], in_order(rest));
        assert(seq![x] =~= Seq::<Ranked>::empty().push(x));
        Seq::<Ranked>::empty().to_multiset_ensures();
        assert(Seq::<Ranked>::empty().to_multiset() =~= Multiset::empty());
        assert(seq![x].to_multiset() =~= Multiset::singleton(x));
        assert(s.to_multiset() =~= m);
        assert forall|i: int, j: int| 0 <= i <= j < m.len() implies before(
            #[trigger] s[i],
            #[trigger] s[j],
        ) by {
            if i == 0 && j > 0 {
                in_order(rest).to_multiset_ensures();
                assert(in_order(rest).contains(in_order(rest)[j - 1]));
                assert(rest.contains(s[j]));
                assert(m.contains(s[j]));
            } else if i > 0 {
                assert(before(in_order(rest)[i - 1], in_order(rest)[j - 1]));
            }
        }
    }
}

/// What comes out in order was there before.
pub proof fn lemma_in_order_contains(m: Multiset<Ranked>)
    ensures
        forall|i: int| 0 <= i < m.len() ==> m.contains(#[trigger] in_order(m)[i]),
        forall|x: Ranked| m.contains(x) ==> in_order(m).contains(x),
{
    lemma_in_order(m);
    let s = in_order(m);
    s.to_multiset_ensures();
    assert forall|i: int| 0 <= i < m.len() implies m.contains(#[trigger] s[i]) by {
        assert(s.contains(s[i]));
        assert(s.to_multiset().count(s[i]) > 0);
    }
    assert forall|x: Ranked| m.contains(x) implies s.contains(x) by {
        assert(s.to_multiset().count(x) > 0);
    }
}

/// A sequence in order is the ordered sequence of its own elements.
pub proof fn lemma_in_order_unique(s: Seq<Ranked>)
    requires
        forall|i: int, j: int| 0 <= i <= j < s.len() ==> before(#[trigger] s[i], #[trigger] s[j]),
    ensures
        in_order(s.to_multiset()) == s,
{
    let leq = |a: Ranked, b: Ranked| before(a, b);
    let t = in_order(s.to_multiset());
    lemma_in_order(s.to_multiset());
    s.to_multiset_ensures();
    assert(sorted_by(s, leq));
    assert(sorted_by(t, leq));
    assert(total_ordering(leq));
    vstd::seq_lib::lemma_sorted_unique(t, s, leq);
}

/// Exchanging two elements keeps the multiset.
proof fn lemma_update_multiset<A>(s: Seq<A>, i: int, v: A)
    requires
        0 <= i < s.len(),
    ensures
        s.update(i, v).to_multiset() =~= s.to_multiset().remove(s[i]).insert(v),
{
    broadcast use vstd::multiset::group_multiset_axioms;

    let u = s.update(i, v);
    assert(u.remove(i) =~= s.remove(i));
    u.to_multiset_ensures();
    s.to_multiset_ensures();
    assert(u[i] == v);
    assert(u.contains(v));
    assert(u.remove(i).to_multiset() =~= u.to_multiset().remove(v));
}

proof fn lemma_swap_multiset<A>(s: Seq<A>, i: int, j: int)
    requires
        0 <= i < s.len(),
        0 <= j < s.len(),
    ensures
        s.update(i, s[j]).update(j, s[i]).to_multiset() =~= s.to_multiset(),
{
    broadcast use vstd::multiset::group_multiset_axioms;

    lemma_update_multiset(s, i, s[j]);
    lemma_update_multiset(s.update(i, s[j]), j, s[i]);
    s.to_multiset_ensures();
    assert(s.contains(s[i]));
    assert(s.contains(s[j]));
}

/// Whether `a` comes before `b` or equals it.
pub fn comes_before(a: Ranked, b: Ranked) -> (r: bool)
    ensures
        r == before(a, b),
{
    a.0 < b.0 || (a.0 == b.0 && a.1 <= b.1)
}

/// The position of the parent of position `i`.
pub open spec fn parent(i: int) -> int {
    (i - 1) / 2
}

/// A binary min-heap.
pub struct MinHeap {
    data: Vec<Ranked>,
}

impl View for MinHeap {
    type V = Multiset<Ranked>;

    closed spec fn view(&self) -> Multiset<Ranked> {
        self.data@.to_multiset()
    }
}

impl MinHeap {
    /// No element comes before its parent.
    #[verifier::type_invariant]
    closed spec fn heaped(&self) -> bool {
        forall|j: int|
            0 < j < self.data@.len() ==> before(self.data@[parent(j)], #[trigger] self.data@[j])
    }

    proof fn lemma_root(s: Seq<Ranked>, j: int)
        requires
            forall|j: int| 0 < j < s.len() ==> before(s[parent(j)], #[trigger] s[j]),
            0 <= j < s.len(),
        ensures
            before(s[0], s[j]),
        decreases j,
    {
        if j > 0 {
            Self::lemma_root(s, parent(j));
            assert(before(s[parent(j)], s[j]));
        }
    }

    /// An empty heap.
    pub fn new() -> (h: Self)
        ensures
            h@ == Multiset::<Ranked>::empty(),
            h@.len() == 0,
    {
        let h = MinHeap { data: Vec::new() };
        proof {
            broadcast use vstd::multiset::group_multiset_axioms;

            h.data@.to_multiset_ensures();
            assert forall|x: Ranked| h@.count(x) == 0 by {
                assert(!h.data@.contains(x));
            }
            assert(h@ =~= Multiset::empty());
        }
        h
    }

    /// The number of elements.
    pub fn len(&self) -> (n: usize)
        ensures
            n == self@.len(),
    {
        proof {
            self.data@.to_multiset_ensures();
        }
        self.data.len()
    }

    /// The first element, which stays in the heap.
    pub fn peek(&self) -> (r: Option<Ranked>)
        ensures
            self@.len() == 0 ==> r is None,
            self@.len() > 0 ==> r == Some(least(self@)),
            self@.len() > 0 ==> is_least(self@, least(self@)),
    {
        proof {
            self.data@.to_multiset_ensures();
            use_type_invariant(self);
        }
        if self.data.len() == 0 {
            None
        } else {
            proof {
                let s = self.data@;
                assert forall|y: Ranked| self@.contains(y) implies before(s[0], y) by {
                    let j = choose|j: int| 0 <= j < s.len() && s[j] == y;
                    assert(s.contains(y));
                    Self::lemma_root(s, j);
                }
                assert(s.contains(s[0]));
                assert(is_least(self@, s[0]));
                lemma_least_unique(self@, s[0]);
            }
            Some(self.data[0])
        }
    }

    /// Adds an element.
    pub fn push(&mut self, x: Ranked)
        ensures
            final(self)@ == old(self)@.insert(x),
            final(self)@.len() == old(self)@.len() + 1,
    {
        proof {
            use_type_invariant(&*self);
        }
        let mut data: Vec<Ranked> = Vec::new();
        std::mem::swap(&mut data, &mut self.data);
        let ghost before_push = data@;
        data.push(x);
        proof {
            before_push.to_multiset_ensures();
        }
        let mut i: usize = data.len() - 1;
        while i > 0
            invariant
                0 <= i < data@.len(),
                data@.to_multiset() == before_push.to_multiset().insert(x),
                forall|j: int|
                    0 < j < data@.len() && j != i ==> before(data@[parent(j)], #[trigger] data@[j]),
                i > 0 ==> forall|j: int|
                    0 < j < data@.len() && parent(j) == i ==> before(
                        data@[parent(i as int)],
                        #[trigger] data@[j],
                    ),
            ensures
                data@.to_multiset() == before_push.to_multiset().insert(x),
                forall|j: int|
                    0 < j < data@.len() ==> before(data@[parent(j)], #[trigger] data@[j]),
            decreases i,
        {
            let p: usize = (i - 1) / 2;
            let up: Ranked = data[p];
            let me: Ranked = data[i];
            if comes_before(up, me) {
                break ;
            }
            let ghost s = data@;
            data.set(i, up);
            data.set(p, me);
            proof {
                lemma_swap_multiset(s, i as int, p as int);
                let t = data@;
                assert forall|j: int| 0 < j < t.len() && j != p implies before(
                    t[parent(j)],
                    #[trigger] t[j],
                ) by {
                    if j == i {
                    } else if parent(j) == i {
                        assert(before(s[parent(i as int)], s[j]));
                    } else if parent(j) == p {
                        assert(before(s[parent(j)], s[j]));
                    } else {
                        assert(before(s[parent(j)], s[j]));
                    }
                }
                if p > 0 {
                    assert forall|j: int| 0 < j < t.len() && parent(j) == p implies before(
                        t[parent(p as int)],
                        #[trigger] t[j],
                    ) by {
                        assert(before(s[parent(p as int)], s[p as int]));
                        if j != i {
                            assert(before(s[parent(j)], s[j]));
                        }
                    }
                }
            }
            i = p;
        }
        proof {
            broadcast use vstd::multiset::group_multiset_axioms;

            assert(before_push.to_multiset() == old(self)@);
        }
        self.data = data;
    }

    /// Takes the first element out.
    pub fn pop(&mut self) -> (r: Option<Ranked>)
        ensures
            old(self)@.len() == 0 ==> r is None && final(self)@ == old(self)@,
            old(self)@.len() > 0 ==> {
                &&& r == Some(least(old(self)@))
                &&& is_least(old(self)@, least(old(self)@))
                &&& final(self)@ == old(self)@.remove(least(old(self)@))
                &&& final(self)@.len() == old(self)@.len() - 1
            },
    {
        proof {
            use_type_invariant(&*self);
            self.data@.to_multiset_ensures();
        }
        let top = self.peek();
        if self.data.len() == 0 {
            return None;
        }
        let mut data: Vec<Ranked> = Vec::new();
        std::mem::swap(&mut data, &mut self.data);
        let ghost full = data@;
        let first: Ranked = data[0];
        assert(first == least(old(self)@)) by {
            assert forall|y: Ranked| full.to_multiset().contains(y) implies before(full[0], y) by {
                let j = choose|j: int| 0 <= j < full.len() && full[j] == y;
                assert(full.contains(y));
                Self::lemma_root(full, j);
            }
            assert(full.contains(full[0]));
            assert(is_least(full.to_multiset(), full[0]));
            lemma_least_unique(full.to_multiset(), full[0]);
        }
        let last = data.pop();
        let ghost shorter = data@;
        if data.len() > 0 {
            let moved: Ranked = last.unwrap();
            proof {
                broadcast use vstd::multiset::group_multiset_axioms;

                assert(full =~= shorter.push(moved));
                shorter.to_multiset_ensures();
                lemma_update_multiset(shorter, 0, moved);
                assert(shorter.contains(shorter[0]));
                assert(full.to_multiset().remove(first) =~= shorter.update(0, moved).to_multiset());
            }
            data.set(0, moved);
            let mut i: usize = 0;
            assert forall|j: int| 0 < j < data@.len() && parent(j) != i implies before(
                data@[parent(j)],
                #[trigger] data@[j],
            ) by {
                assert(before(full[parent(j)], full[j]));
            }
            let n: usize = data.len();
            while i < n / 2
                invariant
                    0 <= i < data@.len(),
                    n == data@.len(),
                    data@.to_multiset() == full.to_multiset().remove(first),
                    forall|j: int|
                        0 < j < data@.len() && parent(j) != i ==> before(
                            data@[parent(j)],
                            #[trigger] data@[j],
                        ),
                    i > 0 ==> forall|j: int|
                        0 < j < data@.len() && parent(j) == i ==> before(
                            data@[parent(i as int)],
                            #[trigger] data@[j],
                        ),
                ensures
                    data@.to_multiset() == full.to_multiset().remove(first),
                    forall|j: int|
                        0 < j < data@.len() ==> before(data@[parent(j)], #[trigger] data@[j]),
                decreases n - i,
            {
                let left: usize = 2 * i + 1;
                let right: usize = left + 1;
                let child: usize = if right < n && !comes_before(data[left], data[right]) {
                    right
                } else {
                    left
                };
                let down: Ranked = data[child];
                let me: Ranked = data[i];
                let ghost s = data@;
                if comes_before(me, down) {
                    assert forall|j: int| 0 < j < s.len() implies before(
                        s[parent(j)],
                        #[trigger] s[j],
                    ) by {
                        if parent(j) == i {
                            assert(j == left || j == right);
                        }
                    }
                    break ;
                }
                data.set(i, down);
                data.set(child, me);
                proof {
                    lemma_swap_multiset(s, i as int, child as int);
                    let t = data@;
                    assert forall|j: int| 0 < j < t.len() && parent(j) != child implies before(
                        t[parent(j)],
                        #[trigger] t[j],
                    ) by {
                        if parent(j) == i {
                            assert(j == left || j == right);
                        } else if j == i {
                            assert(parent(child as int) == i);
                            assert(before(s[parent(i as int)], s[child as int]));
                        } else {
                            assert(j != child);
                            assert(before(s[parent(j)], s[j]));
                        }
                    }
                    assert forall|j: int| 0 < j < t.len() && parent(j) == child implies before(
                        t[parent(child as int)],
                        #[trigger] t[j],
                    ) by {
                        assert(before(s[parent(j)], s[j]));
                    }
                }
                i = child;
            }
        } else {
            proof {
                broadcast use vstd::multiset::group_multiset_axioms;

                assert(full =~= shorter.push(first));
                shorter.to_multiset_ensures();
                assert(data@.to_multiset() =~= full.to_multiset().remove(first));
            }
        }
        proof {
            data@.to_multiset_ensures();
            full.to_multiset_ensures();
        }
        self.data = data;
        Some(first)
    }

    /// Takes all elements out, in order.
    pub fn into_sorted(self) -> (r: Vec<Ranked>)
        ensures
            r@ == in_order(self@),
            r@.len() == self@.len(),
    {
        let mut heap = self;
        let mut out: Vec<Ranked> = Vec::new();
        let ghost all = heap@;
        loop
            invariant
                in_order(all) == out@ + in_order(heap@),
            ensures
                out@ == in_order(all),
            decreases heap@.len(),
        {
            let ghost m = heap@;
            match heap.pop() {
                None => {
                    assert(out@ + in_order(heap@) =~= out@);
                    break ;
                },
                Some(x) => {
                    assert(in_order(m) == seq![x] + in_order(heap@));
                    let ghost prev = out@;
                    out.push(x);
                    assert(out@ + in_order(heap@) =~= prev + in_order(m));
                },
            }
        }
        proof {
            lemma_in_order(all);
        }
        out
    }
}

} // verus!
