//! Vectors of vectors.

use vstd::prelude::*;

verus! {

/// The rows of a table.
pub open spec fn rows<A>(table: Seq<Vec<A>>) -> Seq<Seq<A>> {
    Seq::new(table.len(), |i: int| table[i]@)
}

/// Copies a row.
pub fn copy_row<A: Copy>(row: &[A]) -> (r: Vec<A>)
    ensures
        r@ == row@,
{
    let n: usize = row.len();
    let mut r: Vec<A> = Vec::new();
    let mut i: usize = 0;
    while i < n
        invariant
            i <= n,
            n == row@.len(),
            r@ =~= row@.take(i as int),
        decreases n - i,
    {
        r.push(row[i]);
        i += 1;
    }
    r
}

/// Copies a row over another one.
pub fn copy_into<A: Copy>(row: &[A], out: &mut [A])
    requires
        old(out)@.len() == row@.len(),
    ensures
        final(out)@ == row@,
{
    let n: usize = row.len();
    let mut i: usize = 0;
    while i < n
        invariant
            i <= n,
            n == row@.len(),
            out@.len() == n,
            forall|j: int| 0 <= j < i ==> out@[j] == row@[j],
        decreases n - i,
    {
        out[i] = row[i];
        i += 1;
    }
    assert(out@ =~= row@);
}

/// As many empty rows as `n`.
pub fn empty_rows<A>(n: usize) -> (r: Vec<Vec<A>>)
    ensures
        rows(r@) == Seq::new(n as nat, |i: int| Seq::<A>::empty()),
{
    let mut r: Vec<Vec<A>> = Vec::new();
    let mut i: usize = 0;
    while i < n
        invariant
            i <= n,
            r@.len() == i,
            forall|j: int| 0 <= j < i ==> (#[trigger] r@[j])@ == Seq::<A>::empty(),
        decreases n - i,
    {
        r.push(Vec::new());
        i += 1;
    }
    assert(rows(r@) =~= Seq::new(n as nat, |i: int| Seq::<A>::empty()));
    r
}

/// Whether a list holds a number.
pub fn holds(list: &[u32], x: u32) -> (b: bool)
    ensures
        b == list@.contains(x),
{
    let n: usize = list.len();
    let mut i: usize = 0;
    while i < n
        invariant
            i <= n,
            n == list@.len(),
            forall|j: int| 0 <= j < i ==> list@[j] != x,
        decreases n - i,
    {
        if list[i] == x {
            return true;
        }
        i += 1;
    }
    false
}

} // verus!
