//! Tables as the algorithms read them: row by row.

use vstd::prelude::*;
use vstd::slice::slice_subrange;

use crate::table::rows;

verus! {

/// The rows of a row-major table with `dim` columns.
pub open spec fn split<R>(data: Seq<R>, dim: nat) -> Seq<Seq<R>> {
    Seq::new(data.len() / dim, |i: int| data.subrange(i * dim, i * dim + dim))
}

/// The first `n` rows of a row-major table with `dim` columns.
pub open spec fn cut<R>(data: Seq<R>, n: nat, dim: nat) -> Seq<Seq<R>> {
    Seq::new(n, |i: int| data.subrange(i * dim, i * dim + dim))
}

/// A table that is read row by row.
pub trait Rows<R> {
    /// The rows.
    spec fn all(&self) -> Seq<Seq<R>>;

    /// The number of rows.
    fn count(&self) -> (n: usize)
        ensures
            n == self.all().len(),
    ;

    /// Row `i`.
    fn row(&self, i: usize) -> (r: &[R])
        requires
            i < self.all().len(),
        ensures
            r@ == self.all()[i as int],
    ;
}

/// A row-major table.
pub struct Flat<'a, R> {
    data: &'a [R],
    dim: usize,
}

/// A row that exists ends within the table.
pub proof fn lemma_row_ends(len: nat, dim: nat, i: nat)
    requires
        dim > 0,
        i < len / dim,
    ensures
        i * dim + dim <= len,
        i * dim <= len,
{
    assert(i * dim + dim <= len && i * dim <= len) by (nonlinear_arith)
        requires
            dim > 0,
            i + 1 <= len / dim,
    ;
}

impl<'a, R> Flat<'a, R> {
    /// There is at least one column.
    #[verifier::type_invariant]
    spec fn wide(&self) -> bool {
        self.dim > 0
    }

    /// The rows of `data` with `dim` columns. What is left behind the last row
    /// is not read.
    pub fn new(data: &'a [R], dim: usize) -> (f: Self)
        requires
            dim > 0,
        ensures
            f.all() == split(data@, dim as nat),
    {
        Flat { data, dim }
    }
}

impl<'a, R> Rows<R> for Flat<'a, R> {
    closed spec fn all(&self) -> Seq<Seq<R>> {
        split(self.data@, self.dim as nat)
    }

    fn count(&self) -> (n: usize) {
        proof {
            use_type_invariant(self);
        }
        self.data.len() / self.dim
    }

    fn row(&self, i: usize) -> (r: &[R]) {
        proof {
            use_type_invariant(self);
            lemma_row_ends(self.data@.len(), self.dim as nat, i as nat);
        }
        let len: usize = self.data.len();
        assert(i * self.dim + self.dim <= len);
        let start: usize = i * self.dim;
        slice_subrange(self.data, start, start + self.dim)
    }
}

/// A table with a vector for each row.
pub struct Listed<'a, R> {
    pub list: &'a [Vec<R>],
}

impl<'a, R> Rows<R> for Listed<'a, R> {
    open spec fn all(&self) -> Seq<Seq<R>> {
        rows(self.list@)
    }

    fn count(&self) -> (n: usize) {
        self.list.len()
    }

    fn row(&self, i: usize) -> (r: &[R]) {
        self.list[i].as_slice()
    }
}

/// Every row has `dim` columns.
pub open spec fn rectangular<R>(table: Seq<Seq<R>>, dim: nat) -> bool {
    forall|i: int| 0 <= i < table.len() ==> (#[trigger] table[i]).len() == dim
}

/// Rows of a row-major table have as many components as it has columns.
pub proof fn lemma_split_rectangular<R>(data: Seq<R>, dim: nat)
    requires
        dim > 0,
    ensures
        rectangular(split(data, dim), dim),
{
    let t = split(data, dim);
    assert forall|i: int| 0 <= i < t.len() implies (#[trigger] t[i]).len() == dim by {
        lemma_row_ends(data.len(), dim, i as nat);
    }
}

/// Row `i` of a row-major table is `row`.
spec fn placed<R>(data: Seq<R>, row: Seq<R>, dim: nat, i: int) -> bool {
    &&& 0 <= i * dim
    &&& i * dim + dim <= data.len()
    &&& data.subrange(i * dim, i * dim + dim) == row
}

/// Lays the rows of a table out one behind the other.
pub fn lay_out<R: Copy>(table: &[Vec<R>], dim: usize) -> (r: Vec<R>)
    requires
        rectangular(rows(table@), dim as nat),
    ensures
        cut(r@, table@.len(), dim as nat) == rows(table@),
        r@.len() == table@.len() * dim,
{
    let n: usize = table.len();
    let mut r: Vec<R> = Vec::new();
    let ghost all = rows(table@);
    let mut i: usize = 0;
    while i < n
        invariant
            i <= n,
            n == table@.len(),
            all == rows(table@),
            rectangular(all, dim as nat),
            r@.len() == i * dim,
            forall|j: int| 0 <= j < i ==> placed(r@, #[trigger] all[j], dim as nat, j),
        decreases n - i,
    {
        let ghost done = r@;
        let row: &Vec<R> = &table[i];
        assert(all[i as int] == row@);
        let mut j: usize = 0;
        while j < dim
            invariant
                j <= dim,
                row@.len() == dim,
                r@ =~= done + row@.take(j as int),
            decreases dim - j,
        {
            r.push(row[j]);
            j += 1;
        }
        proof {
            assert(row@.take(dim as int) =~= row@);
            assert(r@ == done + row@);
            assert((i + 1) * dim == i * dim + dim) by (nonlinear_arith);
            assert forall|x: int| 0 <= x < i + 1 implies placed(
                r@,
                #[trigger] all[x],
                dim as nat,
                x,
            ) by {
                if x < i {
                    assert(placed(done, all[x], dim as nat, x));
                    assert(r@.subrange(x * dim, x * dim + dim) =~= done.subrange(
                        x * dim,
                        x * dim + dim,
                    ));
                } else {
                    assert(r@.subrange(i * dim, i * dim + dim) =~= row@);
                    assert(0 <= i * dim) by (nonlinear_arith);
                }
            }
        }
        i += 1;
    }
    proof {
        assert(cut(r@, n as nat, dim as nat) =~= all) by {
            assert forall|j: int| 0 <= j < n implies cut(r@, n as nat, dim as nat)[j] == all[j] by {
                assert(placed(r@, all[j], dim as nat, j));
            }
        }
    }
    r
}

/// Lays the rows of a table with at least one column out one behind the other.
pub fn flatten<R: Copy>(table: &[Vec<R>], dim: usize) -> (r: Vec<R>)
    requires
        dim > 0,
        rectangular(rows(table@), dim as nat),
    ensures
        split(r@, dim as nat) == rows(table@),
        r@.len() == table@.len() * dim,
{
    let r = lay_out(table, dim);
    proof {
        let n = table@.len();
        assert(r@.len() / dim as nat == n) by (nonlinear_arith)
            requires
                r@.len() == n * dim,
                dim > 0,
        ;
        assert(split(r@, dim as nat) =~= cut(r@, n, dim as nat));
    }
    r
}

/// A row of a table with a given number of rows ends within it.
pub proof fn lemma_cut_ends(n: nat, dim: nat, i: nat)
    requires
        i < n,
    ensures
        i * dim + dim <= n * dim,
        0 <= i * dim,
{
    assert(i * dim + dim <= n * dim && 0 <= i * dim) by (nonlinear_arith)
        requires
            i + 1 <= n,
    ;
}

/// Rows of a table with a given number of rows have as many components as it has
/// columns.
pub proof fn lemma_cut_rectangular<R>(data: Seq<R>, n: nat, dim: nat)
    requires
        data.len() == n * dim,
    ensures
        rectangular(cut(data, n, dim), dim),
{
    let t = cut(data, n, dim);
    assert forall|i: int| 0 <= i < t.len() implies (#[trigger] t[i]).len() == dim by {
        lemma_cut_ends(n, dim, i as nat);
    }
}

/// A row-major table with a given number of rows.
pub struct Cut<'a, R> {
    data: &'a [R],
    n: usize,
    dim: usize,
}

impl<'a, R> Cut<'a, R> {
    /// The table is full.
    #[verifier::type_invariant]
    spec fn full(&self) -> bool {
        self.data@.len() == self.n * self.dim
    }

    /// The `n` rows of `data` with `dim` columns.
    pub fn new(data: &'a [R], n: usize, dim: usize) -> (f: Self)
        requires
            data@.len() == n * dim,
        ensures
            f.all() == cut(data@, n as nat, dim as nat),
    {
        Cut { data, n, dim }
    }
}

impl<'a, R> Rows<R> for Cut<'a, R> {
    closed spec fn all(&self) -> Seq<Seq<R>> {
        cut(self.data@, self.n as nat, self.dim as nat)
    }

    fn count(&self) -> (n: usize) {
        self.n
    }

    fn row(&self, i: usize) -> (r: &[R]) {
        proof {
            use_type_invariant(self);
            lemma_cut_ends(self.n as nat, self.dim as nat, i as nat);
        }
        let len: usize = self.data.len();
        assert(i * self.dim + self.dim <= len);
        let start: usize = i * self.dim;
        slice_subrange(self.data, start, start + self.dim)
    }
}

} // verus!
