//! What the codebooks of product codes are trained on.

use vstd::prelude::*;

use crate::cluster::assigned;
use crate::exact::bounded;
use crate::linalg::difference;
use crate::lloyd::{are_means, nearest_to, sums_below, table_bounded};
use crate::rpq::kmeans::trained;
use crate::rpq::kmeans_laws::{lemma_kmeans_means, lemma_trained_bounded};
use crate::rpq::pq::{books_trained, code_of, column, vector_of, CENTROIDS};
use crate::rpq::rpq2::residuals_of;
use crate::scalar::{Fixed, Scalar, Widen};

verus! {

/// Each subspace gets a codebook of its own.
proof fn lemma_book<R: Scalar + Widen<W>, W: Scalar>(
    table: Seq<Seq<R>>,
    sub: nat,
    m: nat,
    iters: nat,
    s: u64,
    j: int,
)
    requires
        0 <= j < m,
    ensures
        books_trained::<R, W>(table, sub, m, iters, s).0.len() == m,
        books_trained::<R, W>(table, sub, m, iters, s).0[j] == trained::<R, W>(
            column(table, sub, j),
            sub,
            CENTROIDS as nat,
            iters,
            books_trained::<R, W>(table, sub, j as nat, iters, s).1,
        ).0,
    decreases m,
{
    let n = (m - 1) as nat;
    if n > 0 {
        lemma_book::<R, W>(
            table,
            sub,
            n,
            iters,
            s,
            if j < n {
                j
            } else {
                0
            },
        );
    } else {
        assert(books_trained::<R, W>(table, sub, 0, iters, s).0 == Seq::<Seq<Seq<R>>>::empty());
    }
}

/// The blocks `j` of the rows.
pub open spec fn blocks_at(table: Seq<Seq<Fixed>>, sub: nat, j: int) -> Seq<Seq<Fixed>> {
    Seq::new(table.len(), |i: int| table[i].subrange(j * sub, j * sub + sub))
}

/// The centroids of subspace `j` are means of blocks `j` of the rows: of those that are
/// nearest to the centroids before the last iteration.
pub proof fn lemma_pq_training(
    table: Seq<Seq<Fixed>>,
    sub: nat,
    m: nat,
    iters: nat,
    s: u64,
    j: int,
    f: nat,
)
    requires
        0 <= j < m,
        0 < sub,
        m * sub <= 0x4000,
        table_bounded(table, m * sub),
        table.len() > 0,
        iters >= 1,
        forall|assign: Seq<usize>|
            assign.len() == table.len() ==> #[trigger] sums_below(
                blocks_at(table, sub, j),
                assign,
                CENTROIDS as nat,
                sub,
                f,
            ),
    ensures
        ({
            let book = books_trained::<Fixed, Fixed>(table, sub, m, iters, s).0[j];
            let blocks = blocks_at(table, sub, j);
            &&& book.len() == CENTROIDS
            &&& exists|before: Seq<Seq<Fixed>>, assign: Seq<usize>|
                before.len() == CENTROIDS && #[trigger] nearest_to(blocks, before, assign)
                    && are_means(blocks, assign, book, sub, f + 1)
        }),
{
    let blocks = column(table, sub, j);
    assert(blocks =~= blocks_at(table, sub, j));
    crate::flat::lemma_cut_ends(m, sub, j as nat);
    assert(sub <= 0x4000) by (nonlinear_arith)
        requires
            m * sub <= 0x4000,
            m >= 1,
    ;
    assert(table_bounded(blocks, sub)) by {
        assert forall|i: int| 0 <= i < blocks.len() implies (#[trigger] blocks[i]).len() == sub
            && bounded(blocks[i], 0x8000_0000) by {
            assert(table[i].len() == m * sub);
            assert(bounded(table[i], 0x8000_0000));
        }
    }
    lemma_book::<Fixed, Fixed>(table, sub, m, iters, s, j);
    let state = books_trained::<Fixed, Fixed>(table, sub, j as nat, iters, s).1;
    let k = CENTROIDS as nat;
    let before = trained::<Fixed, Fixed>(blocks, sub, k, (iters - 1) as nat, state).0;
    let assign = assigned(blocks, before);
    lemma_trained_bounded(blocks, sub, k, (iters - 1) as nat, state);
    assert(sums_below(blocks, assign, k, sub, f));
    lemma_kmeans_means(blocks, sub, k, iters, state, f);
    assert(nearest_to(blocks, before, assign));
}

/// The residual level is trained on what the coarse level leaves: the rows less the
/// vectors that their coarse codes stand for, component by component.
pub proof fn lemma_residuals(
    table: Seq<Seq<Fixed>>,
    books: Seq<Seq<Seq<Fixed>>>,
    sub: nat,
    i: int,
    d: int,
)
    requires
        0 <= i < table.len(),
        0 <= d < table[i].len(),
        table[i].len() == books.len() * sub,
        -0x4000_0000_0000_0000 < table[i][d].raw < 0x4000_0000_0000_0000,
        -0x4000_0000_0000_0000 < vector_of(books, sub, code_of(books, sub, table[i]))[d].raw
            < 0x4000_0000_0000_0000,
    ensures
        residuals_of(table, books, sub).len() == table.len(),
        residuals_of(table, books, sub)[i].len() == table[i].len(),
        residuals_of(table, books, sub)[i][d].raw == table[i][d].raw - vector_of(
            books,
            sub,
            code_of(books, sub, table[i]),
        )[d].raw,
{
    let back = vector_of(books, sub, code_of(books, sub, table[i]));
    assert(residuals_of(table, books, sub)[i] == difference(table[i], back));
}

} // verus!
