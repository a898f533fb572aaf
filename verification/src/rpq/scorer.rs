//! Scoring of many codes against one query.
//!
//! Codes are grouped by their coarse part, so that the table of the residual
//! level is computed once per group.

use vstd::prelude::*;
use vstd::slice::slice_subrange;

use crate::flat::{lemma_row_ends, split};
use crate::rpq::pq::{lemma_looked_up, table_of, CENTROIDS};
use crate::rpq::rpq2::{residual_table, Rpq2};
use crate::rpq::Quantizer;
use crate::scalar::Scalar;
use crate::table::copy_row;

verus! {

/// A byte string as a number, the first byte the most significant one.
pub open spec fn number(s: Seq<u8>) -> nat
    decreases s.len(),
{
    if s.len() == 0 {
        0
    } else {
        number(s.drop_last()) * 256 + s.last() as nat
    }
}

/// What the first `i` bytes decide, the rest does not change.
proof fn lemma_number_prefix(a: Seq<u8>, b: Seq<u8>, i: int)
    requires
        a.len() == b.len(),
        0 <= i <= a.len(),
        number(a.take(i)) < number(b.take(i)),
    ensures
        number(a) < number(b),
    decreases a.len() - i,
{
    if i == a.len() {
        assert(a.take(i) =~= a);
        assert(b.take(i) =~= b);
    } else {
        assert(a.take(i + 1).drop_last() =~= a.take(i));
        assert(b.take(i + 1).drop_last() =~= b.take(i));
        lemma_number_prefix(a, b, i + 1);
    }
}

/// How one byte string compares with another.
#[derive(Clone, Copy, PartialEq, Eq, Structural)]
enum Side {
    Before,
    Same,
    After,
}

/// Compares two byte strings of one length.
fn side(a: &[u8], b: &[u8]) -> (r: Side)
    requires
        a@.len() == b@.len(),
    ensures
        r == Side::Same <==> a@ == b@,
        r == Side::Before ==> number(a@) < number(b@),
        r == Side::After ==> number(b@) < number(a@),
{
    let n: usize = a.len();
    let mut i: usize = 0;
    while i < n
        invariant
            i <= n,
            n == a@.len(),
            n == b@.len(),
            a@.take(i as int) =~= b@.take(i as int),
        decreases n - i,
    {
        proof {
            assert(a@.take(i + 1).drop_last() =~= a@.take(i as int));
            assert(b@.take(i + 1).drop_last() =~= b@.take(i as int));
        }
        if a[i] < b[i] {
            proof {
                lemma_number_prefix(a@, b@, i + 1);
            }
            return Side::Before;
        }
        if b[i] < a[i] {
            proof {
                lemma_number_prefix(b@, a@, i + 1);
            }
            return Side::After;
        }
        i += 1;
    }
    proof {
        assert(a@.take(n as int) =~= a@);
        assert(b@.take(n as int) =~= b@);
    }
    Side::Same
}

/// The coarse part of code `i`.
pub open spec fn coarse_part(codes: Seq<Seq<u8>>, m1: nat, i: int) -> Seq<u8> {
    codes[i].take(m1 as int)
}

/// Those of the first `n` codes whose coarse part is `part`, in their order.
pub open spec fn sharing(codes: Seq<Seq<u8>>, m1: nat, part: Seq<u8>, n: nat) -> Seq<u32>
    decreases n,
{
    if n == 0 {
        Seq::empty()
    } else {
        let rest = sharing(codes, m1, part, (n - 1) as nat);
        if coarse_part(codes, m1, n - 1) == part {
            rest.push((n - 1) as u32)
        } else {
            rest
        }
    }
}

/// A group of codes with one coarse part.
pub struct Bucket {
    pub coarse: Vec<u8>,
    pub items: Vec<u32>,
}

/// The first `n` codes are grouped: the groups come by ascending coarse part,
/// each holds the codes that have it, and every code is in one.
pub open spec fn grouped(buckets: Seq<Bucket>, codes: Seq<Seq<u8>>, m1: nat, n: nat) -> bool {
    &&& forall|a: int| 0 <= a < buckets.len() ==> (#[trigger] buckets[a]).coarse@.len() == m1
    &&& forall|a: int, b: int|
        0 <= a < b < buckets.len() ==> number((#[trigger] buckets[a]).coarse@) < number(
            (#[trigger] buckets[b]).coarse@,
        )
    &&& forall|a: int|
        0 <= a < buckets.len() ==> (#[trigger] buckets[a]).items@ == sharing(
            codes,
            m1,
            buckets[a].coarse@,
            n,
        )
    &&& forall|i: int|
        0 <= i < n ==> exists|a: int|
            0 <= a < buckets.len() && (#[trigger] buckets[a]).coarse@ == #[trigger] coarse_part(
                codes,
                m1,
                i,
            )
}

/// A code is among those that share its coarse part, and the others are not.
pub proof fn lemma_sharing(codes: Seq<Seq<u8>>, m1: nat, part: Seq<u8>, n: nat)
    requires
        n <= 0x1_0000_0000,
    ensures
        forall|i: int|
            0 <= i < n && #[trigger] coarse_part(codes, m1, i) == part ==> sharing(
                codes,
                m1,
                part,
                n,
            ).contains(i as u32),
        forall|x: int|
            0 <= x < sharing(codes, m1, part, n).len() ==> {
                let i = #[trigger] sharing(codes, m1, part, n)[x];
                i < n && coarse_part(codes, m1, i as int) == part
            },
    decreases n,
{
    if n > 0 {
        lemma_sharing(codes, m1, part, (n - 1) as nat);
        let rest = sharing(codes, m1, part, (n - 1) as nat);
        let now = sharing(codes, m1, part, n);
        assert forall|i: int| 0 <= i < n && #[trigger] coarse_part(codes, m1, i)
            == part implies now.contains(i as u32) by {
            if i < n - 1 {
                assert(rest.contains(i as u32));
                let x = choose|x: int| 0 <= x < rest.len() && rest[x] == i as u32;
                assert(now[x] == i as u32);
            } else {
                assert(now[now.len() - 1] == i as u32);
            }
        }
        assert forall|x: int| 0 <= x < now.len() implies {
            let i = #[trigger] now[x];
            i < n && coarse_part(codes, m1, i as int) == part
        } by {
            if x < rest.len() {
                assert(now[x] == rest[x]);
            }
        }
    }
}

/// Where no code has a coarse part, none shares it.
proof fn lemma_sharing_none(codes: Seq<Seq<u8>>, m1: nat, part: Seq<u8>, n: nat)
    requires
        forall|i: int| 0 <= i < n ==> #[trigger] coarse_part(codes, m1, i) != part,
    ensures
        sharing(codes, m1, part, n) == Seq::<u32>::empty(),
    decreases n,
{
    if n > 0 {
        lemma_sharing_none(codes, m1, part, (n - 1) as nat);
        assert(coarse_part(codes, m1, n - 1) != part);
    }
}

/// The place of a coarse part: all groups before it come first, and none behind
/// it does.
fn place_of(buckets: &Vec<Bucket>, part: &[u8], Ghost(codes): Ghost<Seq<Seq<u8>>>, Ghost(n): Ghost<nat>) -> (at: usize)
    requires
        grouped(buckets@, codes, part@.len(), n),
    ensures
        at <= buckets@.len(),
        forall|a: int| 0 <= a < at ==> number((#[trigger] buckets@[a]).coarse@) < number(part@),
        forall|a: int|
            at <= a < buckets@.len() ==> number(part@) <= number((#[trigger] buckets@[a]).coarse@),
{
    let mut low: usize = 0;
    let mut high: usize = buckets.len();
    while low < high
        invariant
            low <= high <= buckets@.len(),
            grouped(buckets@, codes, part@.len(), n),
            forall|a: int| 0 <= a < low ==> number((#[trigger] buckets@[a]).coarse@) < number(part@),
            forall|a: int|
                high <= a < buckets@.len() ==> number(part@) <= number(
                    (#[trigger] buckets@[a]).coarse@,
                ),
        decreases high - low,
    {
        let mid: usize = low + (high - low) / 2;
        assert(buckets@[mid as int].coarse@.len() == part@.len());
        match side(buckets[mid].coarse.as_slice(), part) {
            Side::Before => {
                assert forall|a: int| 0 <= a < mid + 1 implies number(
                    (#[trigger] buckets@[a]).coarse@,
                ) < number(part@) by {
                    if a < mid {
                        assert(number(buckets@[a].coarse@) < number(buckets@[mid as int].coarse@));
                    }
                }
                low = mid + 1;
            },
            Side::Same => {
                assert forall|a: int| mid <= a < buckets@.len() implies number(part@) <= number(
                    (#[trigger] buckets@[a]).coarse@,
                ) by {
                    if a > mid {
                        assert(number(buckets@[mid as int].coarse@) < number(buckets@[a].coarse@));
                    }
                }
                high = mid;
            },
            Side::After => {
                assert forall|a: int| mid <= a < buckets@.len() implies number(part@) <= number(
                    (#[trigger] buckets@[a]).coarse@,
                ) by {
                    if a > mid {
                        assert(number(buckets@[mid as int].coarse@) < number(buckets@[a].coarse@));
                    }
                }
                high = mid;
            },
        }
    }
    low
}

/// Byte strings of one length with one number are equal.
proof fn lemma_number_injective(a: Seq<u8>, b: Seq<u8>)
    requires
        a.len() == b.len(),
        number(a) == number(b),
    ensures
        a == b,
    decreases a.len(),
{
    if a.len() > 0 {
        assert(number(a.drop_last()) == number(b.drop_last()) && a.last() == b.last());
        lemma_number_injective(a.drop_last(), b.drop_last());
        assert(a =~= a.drop_last().push(a.last()));
        assert(b =~= b.drop_last().push(b.last()));
    }
    assert(a =~= b);
}

/// Puts code `i` into its group.
fn put(buckets: &mut Vec<Bucket>, part: &[u8], i: u32, Ghost(codes): Ghost<Seq<Seq<u8>>>)
    requires
        grouped(old(buckets)@, codes, part@.len(), i as nat),
        i < codes.len(),
        part@ == coarse_part(codes, part@.len(), i as int),
    ensures
        grouped(final(buckets)@, codes, part@.len(), i as nat + 1),
{
    let ghost m1 = part@.len();
    let ghost n = i as nat;
    let ghost before = buckets@;
    let at: usize = place_of(buckets, part, Ghost(codes), Ghost(n));
    let here: bool = at < buckets.len() && match side(buckets[at].coarse.as_slice(), part) {
        Side::Same => true,
        _ => false,
    };
    if here {
        buckets[at].items.push(i);
        let ghost now = buckets@;
        proof {
            assert forall|a: int| 0 <= a < now.len() implies (#[trigger] now[a]).coarse@
                == before[a].coarse@ by {}
            assert forall|a: int| 0 <= a < now.len() implies (#[trigger] now[a]).items@ == sharing(
                codes,
                m1,
                now[a].coarse@,
                n + 1,
            ) by {
                if a != at {
                    assert(now[a] == before[a]);
                    if a < at {
                        assert(number(before[a].coarse@) < number(part@));
                    } else {
                        assert(number(before[at as int].coarse@) < number(before[a].coarse@));
                    }
                    assert(before[a].coarse@ != part@);
                }
            }
            assert forall|a: int, b: int| 0 <= a < b < now.len() implies number(
                (#[trigger] now[a]).coarse@,
            ) < number((#[trigger] now[b]).coarse@) by {
                assert(number(before[a].coarse@) < number(before[b].coarse@));
            }
            assert forall|x: int| 0 <= x < n + 1 implies exists|a: int|
                0 <= a < now.len() && (#[trigger] now[a]).coarse@ == #[trigger] coarse_part(
                    codes,
                    m1,
                    x,
                ) by {
                if x < n {
                    let a = choose|a: int|
                        0 <= a < before.len() && (#[trigger] before[a]).coarse@ == coarse_part(
                            codes,
                            m1,
                            x,
                        );
                    assert(now[a].coarse@ == coarse_part(codes, m1, x));
                } else {
                    assert(now[at as int].coarse@ == coarse_part(codes, m1, x));
                }
            }
        }
    } else {
        proof {
            assert forall|a: int| 0 <= a < before.len() implies (#[trigger] before[a]).coarse@
                != part@ by {
                if a > at {
                    assert(number(before[at as int].coarse@) < number(before[a].coarse@));
                    assert(number(part@) <= number(before[at as int].coarse@));
                }
            }
            assert forall|x: int| 0 <= x < n implies #[trigger] coarse_part(codes, m1, x)
                != part@ by {
                let a = choose|a: int|
                    0 <= a < before.len() && (#[trigger] before[a]).coarse@ == coarse_part(
                        codes,
                        m1,
                        x,
                    );
                assert(before[a].coarse@ != part@);
            }
            lemma_sharing_none(codes, m1, part@, n);
        }
        let coarse = copy_row(part);
        let mut items: Vec<u32> = Vec::new();
        items.push(i);
        let fresh = Bucket { coarse, items };
        buckets.insert(at, fresh);
        let ghost now = buckets@;
        proof {
            assert(fresh.items@ =~= sharing(codes, m1, part@, n + 1));
            assert forall|a: int| 0 <= a < now.len() implies (#[trigger] now[a]).coarse@.len() == m1
                && now[a].items@ == sharing(codes, m1, now[a].coarse@, n + 1) by {
                if a < at {
                    assert(now[a] == before[a]);
                } else if a > at {
                    assert(now[a] == before[a - 1]);
                }
            }
            assert forall|a: int, b: int| 0 <= a < b < now.len() implies number(
                (#[trigger] now[a]).coarse@,
            ) < number((#[trigger] now[b]).coarse@) by {
                if a < at && b == at {
                    assert(now[a] == before[a]);
                } else if a < at && b > at {
                    assert(now[a] == before[a] && now[b] == before[b - 1]);
                } else if b < at {
                    assert(now[a] == before[a] && now[b] == before[b]);
                } else if a == at {
                    let c = before[b - 1].coarse@;
                    assert(now[b] == before[b - 1]);
                    assert(number(part@) <= number(c));
                    if number(part@) == number(c) {
                        lemma_number_injective(part@, c);
                    }
                } else {
                    assert(now[a] == before[a - 1] && now[b] == before[b - 1]);
                }
            }
            assert forall|x: int| 0 <= x < n + 1 implies exists|a: int|
                0 <= a < now.len() && (#[trigger] now[a]).coarse@ == #[trigger] coarse_part(
                    codes,
                    m1,
                    x,
                ) by {
                if x < n {
                    let a = choose|a: int|
                        0 <= a < before.len() && (#[trigger] before[a]).coarse@ == coarse_part(
                            codes,
                            m1,
                            x,
                        );
                    let b = if a < at {
                        a
                    } else {
                        a + 1
                    };
                    assert(now[b] == before[a]);
                } else {
                    assert(now[at as int].coarse@ == coarse_part(codes, m1, x));
                }
            }
        }
    }
}

/// Scores codes in groups with one coarse part.
pub struct Rpq2Scorer<'a, R> {
    rpq: &'a Rpq2<R>,
    buckets: Vec<Bucket>,
    codes: &'a [u8],
    code_bytes: usize,
}

impl<'a, R: Scalar> Rpq2Scorer<'a, R> {
    /// The quantizer.
    pub closed spec fn quantizer(&self) -> Rpq2<R> {
        *self.rpq
    }

    /// The codes.
    pub closed spec fn all(&self) -> Seq<Seq<u8>> {
        split(self.codes@, self.code_bytes as nat)
    }

    /// The groups.
    pub closed spec fn groups(&self) -> Seq<Bucket> {
        self.buckets@
    }

    /// The codes are grouped by their coarse parts.
    pub closed spec fn wf(&self) -> bool {
        &&& self.rpq.wf()
        &&& self.code_bytes == self.rpq.code_len()
        &&& self.code_bytes > 0
        &&& self.all().len() <= 0x1_0000_0000
        &&& grouped(self.buckets@, self.all(), self.rpq.coarse().blocks(), self.all().len())
    }

    /// Groups the codes that stand one behind the other in `codes`.
    pub fn new(rpq: &'a Rpq2<R>, codes: &'a [u8]) -> (r: Self)
        requires
            rpq.wf(),
            codes@.len() > 0,
            codes@.len() as int % rpq.code_len() as int == 0,
            codes@.len() / rpq.code_len() <= 0x1_0000_0000,
        ensures
            r.wf(),
            r.quantizer() == *rpq,
            r.all() == split(codes@, rpq.code_len()),
            grouped(r.groups(), r.all(), rpq.coarse().blocks(), r.all().len()),
    {
        proof {
            rpq.lemma_wf();
            rpq.coarse().lemma_wf();
        }
        let code_bytes: usize = rpq.code_bytes();
        let m1: usize = rpq.m1();
        let n: usize = codes.len() / code_bytes;
        let ghost all = split(codes@, code_bytes as nat);
        let mut buckets: Vec<Bucket> = Vec::new();
        let mut i: usize = 0;
        while i < n
            invariant
                i <= n,
                n == all.len(),
                n <= 0x1_0000_0000,
                0 < m1 <= code_bytes,
                all == split(codes@, code_bytes as nat),
                n == codes@.len() / code_bytes as nat,
                grouped(buckets@, all, m1 as nat, i as nat),
            decreases n - i,
        {
            proof {
                lemma_row_ends(codes@.len(), code_bytes as nat, i as nat);
            }
            let len: usize = codes.len();
            assert(i * code_bytes + code_bytes <= len);
            let start: usize = i * code_bytes;
            let part = slice_subrange(codes, start, start + m1);
            assert(part@ =~= coarse_part(all, m1 as nat, i as int));
            put(&mut buckets, part, i as u32, Ghost(all));
            i += 1;
        }
        Rpq2Scorer { rpq, buckets, codes, code_bytes }
    }

    /// Writes the estimated distance of the query to each code to `out`.
    pub fn score_all(&self, query: &[R], out: &mut [R])
        requires
            self.wf(),
            query@.len() == self.quantizer().width(),
            old(out)@.len() >= self.all().len(),
        ensures
            final(out)@.len() == old(out)@.len(),
            forall|i: int|
                0 <= i < self.all().len() ==> #[trigger] final(out)@[i]
                    == self.quantizer().estimate(query@, self.all()[i]),
            forall|i: int|
                self.all().len() <= i < old(out)@.len() ==> #[trigger] final(out)@[i]
                    == old(out)@[i],
    {
        let ghost all = self.all();
        let ghost m1 = self.rpq.coarse().blocks();
        let ghost n = all.len();
        let ghost rpq = *self.rpq;
        let cut: usize = self.rpq.m1();
        let rest: usize = self.rpq.m2();
        proof {
            rpq.lemma_wf();
        }
        let count: usize = self.buckets.len();
        let mut b: usize = 0;
        while b < count
            invariant
                b <= count,
                count == self.buckets@.len(),
                self.wf(),
                rpq == *self.rpq,
                all == self.all(),
                m1 == rpq.coarse().blocks(),
                cut == m1,
                rest == rpq.residual().blocks(),
                n == all.len(),
                query@.len() == rpq.width(),
                out@.len() == old(out)@.len(),
                out@.len() >= n,
                forall|i: int|
                    0 <= i < n && bucket_before(self.buckets@, all, m1, i, b as int)
                        ==> #[trigger] out@[i] == rpq.estimate(query@, all[i]),
                forall|i: int| n <= i < out@.len() ==> #[trigger] out@[i] == old(out)@[i],
            decreases count - b,
        {
            let bucket: &Bucket = &self.buckets[b];
            let ghost part = bucket.coarse@;
            let ghost items = sharing(all, m1, part, n);
            proof {
                rpq.lemma_wf();
                lemma_sharing(all, m1, part, n);
            }
            let lut = residual_table(self.rpq, query, bucket.coarse.as_slice());
            let size: usize = bucket.items.len();
            let ghost shifted = rpq.shifted(query@, part);
            let mut x: usize = 0;
            while x < size
                invariant
                    x <= size,
                    size == items.len(),
                    b < count,
                    count == self.buckets@.len(),
                    self.wf(),
                    rpq == *self.rpq,
                    all == self.all(),
                    m1 == rpq.coarse().blocks(),
                    cut == m1,
                    rest == rpq.residual().blocks(),
                    n == all.len(),
                    part == self.buckets@[b as int].coarse@,
                    bucket.items@ == items,
                    items == sharing(all, m1, part, n),
                    shifted == rpq.shifted(query@, part),
                    lut@ == table_of(
                        rpq.residual().books(),
                        rpq.residual().sub(),
                        shifted,
                    ),
                    lut@.len() == rest * CENTROIDS,
                    forall|y: int|
                        0 <= y < items.len() ==> {
                            let i = #[trigger] items[y];
                            i < n && coarse_part(all, m1, i as int) == part
                        },
                    out@.len() == old(out)@.len(),
                    out@.len() >= n,
                    forall|i: int|
                        0 <= i < n && (bucket_before(self.buckets@, all, m1, i, b as int)
                            || among(items, x as int, i)) ==> #[trigger] out@[i] == rpq.estimate(
                            query@,
                            all[i],
                        ),
                    forall|i: int| n <= i < out@.len() ==> #[trigger] out@[i] == old(out)@[i],
                decreases size - x,
            {
                let i: u32 = bucket.items[x];
                assert(items[x as int] < n);
                proof {
                    lemma_row_ends(self.codes@.len(), self.code_bytes as nat, i as nat);
                    rpq.lemma_wf();
                    rpq.residual().lemma_wf();
                }
                let len: usize = self.codes.len();
                assert(i * self.code_bytes + self.code_bytes <= len);
                let base: usize = i as usize * self.code_bytes + cut;
                let c2 = slice_subrange(self.codes, base, base + rest);
                proof {
                    assert(c2@ =~= all[i as int].skip(m1 as int));
                    assert(all[i as int].take(m1 as int) == part);
                    lemma_looked_up(
                        rpq.residual().books(),
                        rpq.residual().sub(),
                        shifted,
                        c2@,
                        rest as nat,
                    );
                }
                let ghost was = out@;
                out[i as usize] = self.rpq.pq2().adc_from_lut(lut.as_slice(), c2);
                proof {
                    assert(out@[i as int] == rpq.estimate(query@, all[i as int]));
                    assert forall|z: int|
                        0 <= z < n && (bucket_before(self.buckets@, all, m1, z, b as int) || among(
                            items,
                            x + 1,
                            z,
                        )) implies #[trigger] out@[z] == rpq.estimate(query@, all[z]) by {
                        if z != i {
                            if among(items, x + 1, z) {
                                let y = choose|y: int| 0 <= y < x + 1 && items[y] == z;
                                assert(y < x);
                                assert(among(items, x as int, z));
                            }
                            assert(was[z] == rpq.estimate(query@, all[z]));
                        }
                    }
                }
                x += 1;
            }
            proof {
                assert forall|i: int|
                    0 <= i < n && bucket_before(self.buckets@, all, m1, i, b + 1) implies #[trigger] out@[i]
                    == rpq.estimate(query@, all[i]) by {
                    let a = choose|a: int|
                        0 <= a < b + 1 && (#[trigger] self.buckets@[a]).coarse@ == coarse_part(
                            all,
                            m1,
                            i,
                        );
                    if a == b {
                        assert(items.contains(i as u32));
                        let y = choose|y: int| 0 <= y < items.len() && items[y] == i as u32;
                        assert(items[y] == i);
                        assert(among(items, size as int, i));
                    } else {
                        assert(bucket_before(self.buckets@, all, m1, i, b as int));
                    }
                }
            }
            b += 1;
        }
        assert forall|i: int| 0 <= i < n implies #[trigger] out@[i] == rpq.estimate(
            query@,
            all[i],
        ) by {
            let a = choose|a: int|
                0 <= a < self.buckets@.len() && (#[trigger] self.buckets@[a]).coarse@
                    == coarse_part(all, m1, i);
            assert(bucket_before(self.buckets@, all, m1, i, count as int));
        }
    }
}

/// The group of code `i` is among the first `b`.
spec fn bucket_before(
    buckets: Seq<Bucket>,
    codes: Seq<Seq<u8>>,
    m1: nat,
    i: int,
    b: int,
) -> bool {
    exists|a: int| 0 <= a < b && (#[trigger] buckets[a]).coarse@ == coarse_part(codes, m1, i)
}

/// `i` is among the first `x` items.
spec fn among(items: Seq<u32>, x: int, i: int) -> bool {
    exists|y: int| 0 <= y < x && #[trigger] items[y] == i
}

} // verus!
