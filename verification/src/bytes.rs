//! Counting the memory that a structure holds.

use vstd::layout::size_of;
use vstd::prelude::*;

use crate::table::rows;

verus! {

/// The number of cells of a table.
pub open spec fn cells<A>(table: Seq<Seq<A>>) -> nat
    decreases table.len(),
{
    if table.len() == 0 {
        0
    } else {
        cells(table.drop_last()) + table.last().len()
    }
}

/// The first rows of a table have no more cells than all of them.
pub proof fn lemma_cells_take<A>(table: Seq<Seq<A>>, i: int)
    requires
        0 <= i <= table.len(),
    ensures
        cells(table.take(i)) <= cells(table),
    decreases table.len(),
{
    if i < table.len() {
        lemma_cells_take(table.drop_last(), i);
        assert(table.drop_last().take(i) =~= table.take(i));
    } else {
        assert(table.take(i) =~= table);
    }
}

/// Counts the cells of a table.
pub fn count_cells<A>(table: &[Vec<A>]) -> (r: usize)
    requires
        cells(rows(table@)) <= usize::MAX,
    ensures
        r == cells(rows(table@)),
{
    let n: usize = table.len();
    let mut r: usize = 0;
    let mut i: usize = 0;
    while i < n
        invariant
            i <= n,
            n == table@.len(),
            cells(rows(table@)) <= usize::MAX,
            r == cells(rows(table@).take(i as int)),
        decreases n - i,
    {
        proof {
            lemma_cells_take(rows(table@), i + 1);
            assert(rows(table@).take(i + 1).drop_last() =~= rows(table@).take(i as int));
        }
        r += table[i].len();
        i += 1;
    }
    assert(rows(table@).take(n as int) =~= rows(table@));
    r
}

/// The greatest number that fits, where `x` does not.
pub open spec fn clamped(x: nat) -> nat {
    if x <= usize::MAX {
        x
    } else {
        usize::MAX as nat
    }
}

/// `room` can be the number of elements of type `A` that a vector with `len` of
/// them has room for: it is no less, and elements that take space take no more
/// than `isize::MAX` bytes.
pub open spec fn fits<A>(len: nat, room: usize) -> bool {
    &&& len <= room
    &&& size_of::<A>() > 0 ==> room * size_of::<A>() <= isize::MAX
}

/// `rooms` can be what the rows of a table have room for.
pub open spec fn rooms_fit<A>(table: Seq<Seq<A>>, rooms: Seq<usize>) -> bool {
    &&& rooms.len() == table.len()
    &&& forall|i: int| 0 <= i < table.len() ==> fits::<A>(table[i].len(), #[trigger] rooms[i])
}

/// The sum of the first `n` rooms.
pub open spec fn room_total(rooms: Seq<usize>, n: nat) -> nat
    decreases n,
{
    if n == 0 {
        0
    } else {
        room_total(rooms, (n - 1) as nat) + rooms[n - 1] as nat
    }
}

/// Four bytes for each element that there is room for, and `each` for each of the
/// rooms.
pub open spec fn held(rooms: Seq<usize>, each: nat) -> nat {
    4 * room_total(rooms, rooms.len()) + each * rooms.len()
}

/// The bytes of several sets of rooms.
pub open spec fn held_by_all(sets: Seq<Seq<usize>>, each: nat) -> nat
    decreases sets.len(),
{
    if sets.len() == 0 {
        0
    } else {
        held_by_all(sets.drop_last(), each) + held(sets.last(), each)
    }
}

/// The rows have no more cells than there is room for.
pub proof fn lemma_rooms_fit<A>(table: Seq<Seq<A>>, rooms: Seq<usize>)
    requires
        rooms_fit(table, rooms),
    ensures
        cells(table) <= room_total(rooms, rooms.len()),
    decreases table.len(),
{
    if table.len() > 0 {
        let n = (table.len() - 1) as nat;
        let t = table.drop_last();
        let few = rooms.drop_last();
        assert forall|i: int| 0 <= i < t.len() implies fits::<A>(t[i].len(), #[trigger] few[i]) by {
            assert(few[i] == rooms[i]);
        }
        lemma_rooms_fit(t, few);
        lemma_room_total_same(few, rooms, n);
        assert(fits::<A>(table[n as int].len(), rooms[n as int]));
    }
}

/// Equal rooms have equal sums.
pub proof fn lemma_room_total_same(a: Seq<usize>, b: Seq<usize>, n: nat)
    requires
        forall|i: int| 0 <= i < n ==> a[i] == b[i],
    ensures
        room_total(a, n) == room_total(b, n),
    decreases n,
{
    if n > 0 {
        lemma_room_total_same(a, b, (n - 1) as nat);
    }
}

/// The sum over one more room.
pub proof fn lemma_room_total_push(rooms: Seq<usize>, room: usize)
    ensures
        room_total(rooms.push(room), rooms.len() + 1) == room_total(rooms, rooms.len()) + room,
{
    lemma_room_total_same(rooms.push(room), rooms, rooms.len());
}

/// The sum over two sets of rooms.
pub proof fn lemma_room_total_add(a: Seq<usize>, b: Seq<usize>)
    ensures
        room_total(a + b, a.len() + b.len()) == room_total(a, a.len()) + room_total(b, b.len()),
    decreases b.len(),
{
    if b.len() == 0 {
        assert(a + b =~= a);
    } else {
        let t = b.drop_last();
        lemma_room_total_add(a, t);
        lemma_room_total_push(a + t, b.last());
        lemma_room_total_push(t, b.last());
        assert(a + b =~= (a + t).push(b.last()));
        assert(b =~= t.push(b.last()));
    }
}

/// A room for 32-bit numbers takes no more than `isize::MAX` bytes.
pub proof fn lemma_word_room(len: nat, room: usize)
    requires
        fits::<u32>(len, room),
    ensures
        4 * room <= isize::MAX,
{
    broadcast use vstd::layout::layout_of_primitives;

    assert(size_of::<u32>() == 4);
}

/// Lists of 32-bit numbers hold no more than `isize::MAX` bytes each, beside what is
/// counted for the list itself.
pub proof fn lemma_held_bound(table: Seq<Seq<u32>>, rooms: Seq<usize>, each: nat)
    requires
        rooms_fit(table, rooms),
    ensures
        held(rooms, each) <= rooms.len() * (isize::MAX as nat + each),
{
    lemma_room_total_bound(table, rooms, rooms.len());
    assert(rooms.len() * (isize::MAX as nat + each) == rooms.len() * isize::MAX as nat + each
        * rooms.len()) by (nonlinear_arith);
}

proof fn lemma_room_total_bound(table: Seq<Seq<u32>>, rooms: Seq<usize>, n: nat)
    requires
        rooms_fit(table, rooms),
        n <= rooms.len(),
    ensures
        4 * room_total(rooms, n) <= n * isize::MAX as nat,
    decreases n,
{
    if n > 0 {
        let m = (n - 1) as nat;
        lemma_room_total_bound(table, rooms, m);
        assert(fits::<u32>(table[m as int].len(), rooms[m as int]));
        lemma_word_room(table[m as int].len(), rooms[m as int]);
        assert(n * isize::MAX as nat == m * isize::MAX as nat + isize::MAX as nat) by (nonlinear_arith)
            requires
                n == m + 1,
        ;
    }
}

/// The number of elements that `Vec::capacity` reports room for. It is never less
/// than the length, and where elements take space, no vector holds more than
/// `isize::MAX` bytes. How much it is between the two, the allocator decides;
/// nothing more is claimed of it.
#[verifier::external_body]
pub(crate) fn room<A>(v: &Vec<A>) -> (c: usize)
    ensures
        fits::<A>(v@.len(), c),
{
    v.capacity()
}

/// What the rows of a table have room for.
pub(crate) fn rooms_of<A>(table: &[Vec<A>]) -> (r: Vec<usize>)
    ensures
        rooms_fit(rows(table@), r@),
{
    let n: usize = table.len();
    let mut r: Vec<usize> = Vec::new();
    let mut i: usize = 0;
    while i < n
        invariant
            i <= n,
            n == table@.len(),
            r@.len() == i,
            forall|j: int| 0 <= j < i ==> fits::<A>(rows(table@)[j].len(), #[trigger] r@[j]),
        decreases n - i,
    {
        r.push(room(&table[i]));
        i += 1;
    }
    r
}

/// The bytes for rooms, or the greatest number where they do not fit: four for
/// each element that there is room for, and `each` for each of the rooms.
pub fn bytes_for(rooms: &[usize], each: usize) -> (r: usize)
    ensures
        r == clamped(held(rooms@, each as nat)),
{
    let n: usize = rooms.len();
    let mut r: usize = 0;
    let mut i: usize = 0;
    assert(each * 0 == 0) by (nonlinear_arith);
    while i < n
        invariant
            i <= n,
            n == rooms@.len(),
            r == clamped(4 * room_total(rooms@, i as nat) + each as nat * i as nat),
        decreases n - i,
    {
        let twice: usize = rooms[i].saturating_add(rooms[i]);
        let four: usize = twice.saturating_add(twice);
        assert(each * (i + 1) == each * i + each) by (nonlinear_arith);
        r = r.saturating_add(four).saturating_add(each);
        i += 1;
    }
    r
}

/// The bytes for several sets of rooms, or the greatest number where they do not
/// fit.
pub fn bytes_for_all(sets: &[Vec<usize>], each: usize) -> (r: usize)
    ensures
        r == clamped(held_by_all(rows(sets@), each as nat)),
{
    let n: usize = sets.len();
    let mut r: usize = 0;
    let mut i: usize = 0;
    let ghost all = rows(sets@);
    while i < n
        invariant
            i <= n,
            n == sets@.len(),
            all == rows(sets@),
            r == clamped(held_by_all(all.take(i as int), each as nat)),
        decreases n - i,
    {
        proof {
            assert(all.take(i + 1).drop_last() =~= all.take(i as int));
            assert(all.take(i + 1).last() == sets@[i as int]@);
        }
        r = r.saturating_add(bytes_for(sets[i].as_slice(), each));
        i += 1;
    }
    assert(all.take(n as int) =~= all);
    r
}

} // verus!
