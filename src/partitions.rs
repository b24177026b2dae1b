//! Splitting a number of trials among categories, and the exact weight of each split.
use crate::bignat::BigNat;
use vstd::prelude::*;

verus! {

/// The contents of a list of vectors.
pub open spec fn rows(v: Seq<Vec<u32>>) -> Seq<Seq<u32>> {
    v.map_values(|r: Vec<u32>| r@)
}

/// The sum of the parts of a split.
pub open spec fn total(c: Seq<u32>) -> nat
    decreases c.len(),
{
    if c.len() == 0 {
        0
    } else {
        c[0] as nat + total(c.drop_first())
    }
}

/// Every way to split `n` trials into `k` ordered parts, the first part ascending
/// from zero, then the rest in the same order.
pub open spec fn compositions(k: nat, n: nat) -> Seq<Seq<u32>>
    decreases k, n + 2,
{
    if k <= 1 {
        seq![seq![n as u32]]
    } else {
        compositions_from(k, n, 0)
    }
}

/// The splits of `n` into `k` parts whose first part is at least `i`.
pub open spec fn compositions_from(k: nat, n: nat, i: nat) -> Seq<Seq<u32>>
    decreases k, n + 1 - i,
{
    if k < 2 || i > n {
        seq![]
    } else {
        compositions((k - 1) as nat, (n - i) as nat).map_values(|c: Seq<u32>| seq![i as u32] + c)
            + compositions_from(k, n, i + 1)
    }
}

/// Each split has `k` parts adding up to `n`.
pub proof fn lemma_compositions_shape(k: nat, n: nat)
    requires
        k >= 1,
        n <= u32::MAX,
    ensures
        forall|j: int|
            0 <= j < compositions(k, n).len() ==> (#[trigger] compositions(k, n)[j]).len() == k
                && total(compositions(k, n)[j]) == n,
    decreases k, n + 2,
{
    if k == 1 {
        let c = compositions(k, n)[0];
        assert(compositions(k, n).len() == 1);
        assert(c == seq![n as u32]);
        assert(c.drop_first().len() == 0);
        assert(total(c.drop_first()) == 0);
        assert(total(c) == n);
    } else {
        lemma_compositions_from_shape(k, n, 0);
        assert(compositions(k, n) == compositions_from(k, n, 0));
    }
}

proof fn lemma_compositions_from_shape(k: nat, n: nat, i: nat)
    requires
        k >= 2,
        n <= u32::MAX,
    ensures
        forall|j: int|
            0 <= j < compositions_from(k, n, i).len() ==> (#[trigger] compositions_from(
                k,
                n,
                i,
            )[j]).len() == k && total(compositions_from(k, n, i)[j]) == n,
    decreases k, n + 1 - i,
{
    if i <= n {
        let sub = compositions((k - 1) as nat, (n - i) as nat);
        let block = sub.map_values(|c: Seq<u32>| seq![i as u32] + c);
        let rest = compositions_from(k, n, i + 1);
        lemma_compositions_shape((k - 1) as nat, (n - i) as nat);
        lemma_compositions_from_shape(k, n, i + 1);
        assert forall|j: int| 0 <= j < compositions_from(k, n, i).len() implies (
        #[trigger] compositions_from(k, n, i)[j]).len() == k && total(
            compositions_from(k, n, i)[j],
        ) == n by {
            let all = compositions_from(k, n, i);
            assert(all == block + rest);
            if j < block.len() {
                let c = sub[j];
                assert(all[j] == seq![i as u32] + c);
                assert((seq![i as u32] + c).drop_first() == c);
            } else {
                assert(all[j] == rest[j - block.len()]);
            }
        }
    }
}

proof fn lemma_rows_push(v: Seq<Vec<u32>>, x: Vec<u32>)
    ensures
        rows(v.push(x)) == rows(v).push(x@),
{
    assert(rows(v.push(x)) =~= rows(v).push(x@));
}

/// Every split of `n_elements` trials into `n_partitions` ordered parts.
pub fn generate_partitions(n_partitions: usize, n_elements: u32) -> (r: Vec<Vec<u32>>)
    requires
        n_partitions >= 1,
    ensures
        rows(r@) == compositions(n_partitions as nat, n_elements as nat),
    decreases n_partitions,
{
    if n_partitions == 1 {
        let mut only: Vec<u32> = Vec::new();
        only.push(n_elements);
        let mut r: Vec<Vec<u32>> = Vec::new();
        r.push(only);
        assert(rows(r@) =~= compositions(n_partitions as nat, n_elements as nat));
        return r;
    }
    let ghost k = n_partitions as nat;
    let ghost n = n_elements as nat;
    let mut out: Vec<Vec<u32>> = Vec::new();
    let mut i: u64 = 0;
    while i <= n_elements as u64
        invariant
            k == n_partitions,
            n == n_elements,
            k >= 2,
            i <= n + 1,
            rows(out@) + compositions_from(k, n, i as nat) == compositions_from(k, n, 0),
        decreases n + 1 - i,
    {
        let first = i as u32;
        let sub = generate_partitions(n_partitions - 1, n_elements - first);
        let ghost block = rows(sub@).map_values(|c: Seq<u32>| seq![first] + c);
        let ghost start = rows(out@);
        let mut j: usize = 0;
        while j < sub.len()
            invariant
                rows(out@) == start + block.subrange(0, j as int),
                block.len() == sub@.len(),
                block == rows(sub@).map_values(|c: Seq<u32>| seq![first] + c),
                j <= sub@.len(),
            decreases sub@.len() - j,
        {
            let p = &sub[j];
            let mut q: Vec<u32> = Vec::new();
            q.push(first);
            let mut t: usize = 0;
            while t < p.len()
                invariant
                    q@ == seq![first] + p@.subrange(0, t as int),
                    t <= p@.len(),
                decreases p@.len() - t,
            {
                q.push(p[t]);
                t = t + 1;
                assert(q@ =~= seq![first] + p@.subrange(0, t as int));
            }
            assert(p@.subrange(0, t as int) =~= p@);
            assert(q@ == block[j as int]);
            let ghost before = out@;
            out.push(q);
            j = j + 1;
            proof {
                lemma_rows_push(before, q);
                assert(block.subrange(0, j as int) =~= block.subrange(0, j - 1).push(block[j - 1]));
                assert(rows(out@) =~= start + block.subrange(0, j as int));
            }
        }
        proof {
            assert(block.subrange(0, j as int) =~= block);
            assert(compositions_from(k, n, i as nat) == block + compositions_from(k, n, (i + 1) as nat));
            assert(rows(out@) + compositions_from(k, n, (i + 1) as nat) =~= start
                + compositions_from(k, n, i as nat));
        }
        i = i + 1;
    }
    assert(rows(out@) =~= compositions_from(k, n, 0));
    out
}

/// The number of ways to choose `j` of `n` items.
pub open spec fn binom(n: nat, j: nat) -> nat
    decreases n,
{
    if j == 0 {
        1
    } else if n == 0 {
        0
    } else {
        binom((n - 1) as nat, (j - 1) as nat) + binom((n - 1) as nat, j)
    }
}

/// `b` to the power `e`.
pub open spec fn power(b: nat, e: nat) -> nat
    decreases e,
{
    if e == 0 {
        1
    } else {
        b * power(b, (e - 1) as nat)
    }
}

/// The values of a list of numbers.
pub open spec fn values(w: Seq<BigNat>) -> Seq<nat> {
    w.map_values(|b: BigNat| b@)
}

/// The weight of the split `c` of `total(c)` independent trials, when each trial falls
/// in category `i` with weight `w[i]`: the multinomial coefficient times the product of
/// `w[i]` to the power `c[i]`. Divided by `(sum of w)` to the power of the trial count,
/// it is the probability of the split.
pub open spec fn partition_weight(c: Seq<u32>, w: Seq<nat>) -> nat
    decreases c.len(),
{
    if c.len() == 0 {
        1
    } else {
        binom(total(c), c[0] as nat) * power(w[0], c[0] as nat) * partition_weight(
            c.drop_first(),
            w.drop_first(),
        )
    }
}

pub proof fn lemma_binom_past(n: nat, j: nat)
    requires
        j > n,
    ensures
        binom(n, j) == 0,
    decreases n,
{
    if n > 0 {
        lemma_binom_past((n - 1) as nat, (j - 1) as nat);
        lemma_binom_past((n - 1) as nat, j);
    }
}

/// Rows `0..=n` of Pascal's triangle.
fn binomial_table(n: u32) -> (t: Vec<Vec<BigNat>>)
    ensures
        t@.len() == n + 1,
        forall|r: int| 0 <= r <= n ==> #[trigger] t@[r]@.len() == r + 1,
        forall|r: int, j: int|
            0 <= j <= r <= n ==> #[trigger] t@[r]@[j]@ == binom(r as nat, j as nat),
{
    let mut t: Vec<Vec<BigNat>> = Vec::new();
    let mut first: Vec<BigNat> = Vec::new();
    first.push(BigNat::from_u64(1));
    t.push(first);
    let mut r: u64 = 1;
    while r <= n as u64
        invariant
            1 <= r <= n + 1,
            t@.len() == r,
            forall|a: int| 0 <= a < r ==> #[trigger] t@[a]@.len() == a + 1,
            forall|a: int, j: int|
                0 <= j <= a < r ==> #[trigger] t@[a]@[j]@ == binom(a as nat, j as nat),
        decreases n + 1 - r,
    {
        let prev = &t[(r - 1) as usize];
        assert(prev@.len() == r);
        let mut row: Vec<BigNat> = Vec::new();
        row.push(BigNat::from_u64(1));
        let mut j: u64 = 1;
        while j <= r
            invariant
                1 <= j <= r + 1,
                r <= u32::MAX + 1,
                row@.len() == j,
                prev@.len() == r,
                forall|b: int| 0 <= b < r ==> #[trigger] prev@[b]@ == binom((r - 1) as nat, b as nat),
                forall|b: int| 0 <= b < j ==> #[trigger] row@[b]@ == binom(r as nat, b as nat),
            decreases r + 1 - j,
        {
            assert(binom(r as nat, j as nat) == binom((r - 1) as nat, (j - 1) as nat) + binom(
                (r - 1) as nat,
                j as nat,
            ));
            let next = if j < r {
                prev[(j - 1) as usize].add(&prev[j as usize])
            } else {
                proof {
                    lemma_binom_past((r - 1) as nat, r as nat);
                }
                prev[(j - 1) as usize].add(&BigNat::zero())
            };
            row.push(next);
            j = j + 1;
        }
        t.push(row);
        r = r + 1;
    }
    t
}

/// `b` to the power `e`.
pub fn big_pow(b: &BigNat, e: u64) -> (r: BigNat)
    ensures
        r@ == power(b@, e as nat),
{
    let mut acc = BigNat::from_u64(1);
    let mut i: u64 = 0;
    while i < e
        invariant
            i <= e,
            acc@ == power(b@, i as nat),
        decreases e - i,
    {
        acc = b.mul(&acc);
        i = i + 1;
    }
    acc
}

proof fn lemma_total_suffix(c: Seq<u32>, j: int)
    requires
        0 <= j <= c.len(),
    ensures
        total(c.subrange(j, c.len() as int)) <= total(c),
    decreases j,
{
    if j == 0 {
        assert(c.subrange(0, c.len() as int) =~= c);
    } else {
        lemma_total_suffix(c, j - 1);
        let s = c.subrange(j - 1, c.len() as int);
        assert(s.drop_first() =~= c.subrange(j, c.len() as int));
    }
}

/// The weight of one split, with the binomial coefficients read from `table`.
fn split_weight(c: &Vec<u32>, w: &Vec<BigNat>, table: &Vec<Vec<BigNat>>, n: u32) -> (r: BigNat)
    requires
        c@.len() == w@.len(),
        total(c@) == n,
        table@.len() == n + 1,
        forall|a: int| 0 <= a <= n ==> #[trigger] table@[a]@.len() == a + 1,
        forall|a: int, b: int|
            0 <= b <= a <= n ==> #[trigger] table@[a]@[b]@ == binom(a as nat, b as nat),
    ensures
        r@ == partition_weight(c@, values(w@)),
{
    let k = c.len();
    let ghost wv = values(w@);
    let mut acc = BigNat::from_u64(1);
    let mut rem: u64 = 0;
    let mut j: usize = k;
    assert(c@.subrange(k as int, k as int).len() == 0);
    while j > 0
        invariant
            k == c@.len(),
            k == w@.len(),
            wv == values(w@),
            j <= k,
            total(c@) == n,
            table@.len() == n + 1,
            forall|a: int| 0 <= a <= n ==> #[trigger] table@[a]@.len() == a + 1,
            forall|a: int, b: int|
                0 <= b <= a <= n ==> #[trigger] table@[a]@[b]@ == binom(a as nat, b as nat),
            rem == total(c@.subrange(j as int, k as int)),
            acc@ == partition_weight(c@.subrange(j as int, k as int), wv.subrange(j as int, k as int)),
        decreases j,
    {
        let cj = c[j - 1];
        proof {
            let s = c@.subrange(j - 1, k as int);
            assert(s.drop_first() =~= c@.subrange(j as int, k as int));
            assert(wv.subrange(j - 1, k as int).drop_first() =~= wv.subrange(j as int, k as int));
            assert(s[0] == cj);
            assert(wv.subrange(j - 1, k as int)[0] == w@[j - 1]@);
            lemma_total_suffix(c@, j - 1);
        }
        rem = rem + cj as u64;
        let b = table[rem as usize][cj as usize].mul(&big_pow(&w[j - 1], cj as u64));
        acc = b.mul(&acc);
        j = j - 1;
    }
    assert(c@.subrange(0, k as int) =~= c@);
    assert(wv.subrange(0, k as int) =~= wv);
    acc
}

/// Every split of `n_elements` independent trials among `weights.len()` categories, each
/// with its weight (see `partition_weight`).
pub fn generate_partitions_probabilities(n_elements: u32, weights: &Vec<BigNat>) -> (r: Vec<
    (Vec<u32>, BigNat),
>)
    requires
        weights@.len() >= 1,
    ensures
        r@.len() == compositions(weights@.len() as nat, n_elements as nat).len(),
        forall|i: int|
            0 <= i < r@.len() ==> (#[trigger] r@[i]).0@ == compositions(
                weights@.len() as nat,
                n_elements as nat,
            )[i] && r@[i].1@ == partition_weight(r@[i].0@, values(weights@)),
{
    let k = weights.len();
    let parts = generate_partitions(k, n_elements);
    let table = binomial_table(n_elements);
    let ghost comps = compositions(k as nat, n_elements as nat);
    proof {
        lemma_compositions_shape(k as nat, n_elements as nat);
    }
    let mut out: Vec<(Vec<u32>, BigNat)> = Vec::new();
    let mut parts = parts;
    let ghost all = parts@;
    let mut rev: Vec<(Vec<u32>, BigNat)> = Vec::new();
    while parts.len() > 0
        invariant
            rows(all) == comps,
            parts@ == all.subrange(0, parts@.len() as int),
            rev@.len() + parts@.len() == all.len(),
            forall|t: int|
                0 <= t < rev@.len() ==> (#[trigger] rev@[t]).0@ == comps[all.len() - 1 - t]
                    && rev@[t].1@ == partition_weight(rev@[t].0@, values(weights@)),
            forall|t: int|
                0 <= t < comps.len() ==> (#[trigger] comps[t]).len() == k && total(comps[t])
                    == n_elements,
            k == weights@.len(),
            table@.len() == n_elements + 1,
            forall|a: int| 0 <= a <= n_elements ==> #[trigger] table@[a]@.len() == a + 1,
            forall|a: int, b: int|
                0 <= b <= a <= n_elements ==> #[trigger] table@[a]@[b]@ == binom(
                    a as nat,
                    b as nat,
                ),
        decreases parts@.len(),
    {
        let c = parts.pop().unwrap();
        proof {
            let idx = parts@.len() as int;
            assert(c == all[idx]);
            assert(rows(all)[idx] == c@);
        }
        let wgt = split_weight(&c, weights, &table, n_elements);
        rev.push((c, wgt));
    }
    while rev.len() > 0
        invariant
            rows(all) == comps,
            rev@.len() + out@.len() == all.len(),
            forall|t: int|
                0 <= t < rev@.len() ==> (#[trigger] rev@[t]).0@ == comps[all.len() - 1 - t]
                    && rev@[t].1@ == partition_weight(rev@[t].0@, values(weights@)),
            forall|t: int|
                0 <= t < out@.len() ==> (#[trigger] out@[t]).0@ == comps[t] && out@[t].1@
                    == partition_weight(out@[t].0@, values(weights@)),
        decreases rev@.len(),
    {
        let e = rev.pop().unwrap();
        out.push(e);
    }
    out
}

proof fn lemma_binom_self(n: nat)
    ensures
        binom(n, n) == 1,
    decreases n,
{
    if n > 0 {
        lemma_binom_self((n - 1) as nat);
        lemma_binom_past((n - 1) as nat, n);
    }
}

/// There are `C(n + k - 1, k - 1)` ways to split `n` trials into `k` parts.
pub proof fn lemma_compositions_count(k: nat, n: nat)
    requires
        k >= 1,
    ensures
        compositions(k, n).len() == binom((n + k - 1) as nat, (k - 1) as nat),
    decreases k, n + 2,
{
    if k >= 2 {
        lemma_compositions_from_count(k, n, 0);
    }
}

proof fn lemma_compositions_from_count(k: nat, n: nat, i: nat)
    requires
        k >= 2,
        i <= n + 1,
    ensures
        compositions_from(k, n, i).len() == binom((n + 1 - i + k - 2) as nat, (k - 1) as nat),
    decreases k, n + 1 - i,
{
    if i > n {
        lemma_binom_past((k - 2) as nat, (k - 1) as nat);
    } else {
        lemma_compositions_count((k - 1) as nat, (n - i) as nat);
        lemma_compositions_from_count(k, n, i + 1);
        let big = (n + 1 - i + k - 2) as nat;
        assert(binom(big, (k - 1) as nat) == binom((big - 1) as nat, (k - 2) as nat) + binom(
            (big - 1) as nat,
            (k - 1) as nat,
        ));
    }
}

/// The sum of the weights.
pub open spec fn weight_sum(w: Seq<nat>) -> nat
    decreases w.len(),
{
    if w.len() == 0 {
        0
    } else {
        w[0] + weight_sum(w.drop_first())
    }
}

/// The sum of the weights of the splits `cs`.
pub open spec fn splits_weight(cs: Seq<Seq<u32>>, w: Seq<nat>) -> nat
    decreases cs.len(),
{
    if cs.len() == 0 {
        0
    } else {
        splits_weight(cs.drop_last(), w) + partition_weight(cs.last(), w)
    }
}

/// The terms `i..=n` of the binomial expansion of `(a + b)^n`.
pub open spec fn binomial_terms(n: nat, a: nat, b: nat, i: nat) -> nat
    decreases n + 1 - i,
{
    if i > n {
        0
    } else {
        binom(n, i) * power(a, i) * power(b, (n - i) as nat) + binomial_terms(n, a, b, i + 1)
    }
}

proof fn lemma_binomial_step(n: nat, a: nat, b: nat, i: nat)
    requires
        i <= n + 1,
    ensures
        binomial_terms(n + 1, a, b, i + 1) == a * binomial_terms(n, a, b, i) + b * binomial_terms(
            n,
            a,
            b,
            i + 1,
        ),
    decreases n + 1 - i,
{
    if i <= n {
        lemma_binomial_step(n, a, b, i + 1);
        let c0 = binom(n, i);
        let c1 = binom(n, i + 1);
        let pa = power(a, i);
        assert(binom(n + 1, i + 1) == c0 + c1);
        assert(power(a, i + 1) == a * pa);
        assert(((n + 1) - (i + 1)) as nat == (n - i) as nat);
        if i < n {
            let pb = power(b, (n - i - 1) as nat);
            assert(power(b, (n - i) as nat) == b * pb);
            assert((c0 + c1) * (a * pa) * (b * pb) == a * (c0 * pa * (b * pb)) + b * (c1 * (a * pa)
                * pb)) by (nonlinear_arith);
        } else {
            lemma_binom_past(n, n + 1);
            assert(c1 == 0);
            assert((c0 + c1) * (a * pa) * power(b, 0) == a * (c0 * pa * power(b, 0)) + b * (c1 * (a
                * pa) * power(b, 0))) by (nonlinear_arith)
                requires c1 == 0;
        }
        let t1 = binom(n + 1, i + 1) * power(a, i + 1) * power(b, (n - i) as nat);
        let t0 = c0 * pa * power(b, (n - i) as nat);
        let t2 = c1 * power(a, i + 1) * power(b, (n - (i + 1)) as nat);
        assert(binomial_terms(n + 1, a, b, i + 1) == t1 + binomial_terms(n + 1, a, b, i + 2));
        assert(binomial_terms(n, a, b, i) == t0 + binomial_terms(n, a, b, i + 1));
        assert(binomial_terms(n, a, b, i + 1) == (if i + 1 > n { 0 } else { t2 }) + binomial_terms(n, a, b, i + 2));
        if i + 1 > n {
            assert(t1 == a * t0 + b * 0) by (nonlinear_arith)
                requires t1 == (c0 + c1) * (a * pa) * power(b, 0), t0 == c0 * pa * power(b, 0), c1 == 0, (n - i) as nat == 0nat;
        }
        assert(a * (t0 + binomial_terms(n, a, b, i + 1)) == a * t0 + a * binomial_terms(n, a, b, i + 1)) by (nonlinear_arith);
        assert(b * ((if i + 1 > n { 0 } else { t2 }) + binomial_terms(n, a, b, i + 2)) == b * (if i + 1 > n { 0 } else { t2 }) + b * binomial_terms(n, a, b, i + 2)) by (nonlinear_arith);
    }
}

/// The binomial theorem: `sum over i of C(n, i) a^i b^(n - i) == (a + b)^n`.
pub proof fn lemma_binomial_theorem(n: nat, a: nat, b: nat)
    ensures
        binomial_terms(n, a, b, 0) == power(a + b, n),
    decreases n,
{
    if n == 0 {
        assert(binomial_terms(0, a, b, 1) == 0);
    } else {
        let m = (n - 1) as nat;
        lemma_binomial_theorem(m, a, b);
        lemma_binomial_step(m, a, b, 0);
        let t = binom(m, 0) * power(a, 0) * power(b, m);
        assert(binomial_terms(m, a, b, 0) == t + binomial_terms(m, a, b, 1));
        assert(binom(m, 0) == 1 && binom(n, 0) == 1 && power(a, 0) == 1);
        assert(t == power(b, m)) by (nonlinear_arith)
            requires t == binom(m, 0) * power(a, 0) * power(b, m), binom(m, 0) == 1, power(a, 0) == 1;
        assert(power(b, n) == b * power(b, m));
        assert(binom(n, 0) * power(a, 0) * power(b, n) == b * power(b, m)) by (nonlinear_arith)
            requires binom(n, 0) == 1, power(a, 0) == 1, power(b, n) == b * power(b, m);
        assert(binomial_terms(n, a, b, 0) == b * power(b, m) + binomial_terms(n, a, b, 1));
        assert(b * binomial_terms(m, a, b, 0) == b * power(b, m) + b * binomial_terms(m, a, b, 1)) by (nonlinear_arith)
            requires binomial_terms(m, a, b, 0) == power(b, m) + binomial_terms(m, a, b, 1);
        assert(power(a + b, n) == (a + b) * power(a + b, m));
        assert((a + b) * power(a + b, m) == a * power(a + b, m) + b * power(a + b, m)) by (nonlinear_arith);
    }
}

proof fn lemma_splits_concat(a: Seq<Seq<u32>>, b: Seq<Seq<u32>>, w: Seq<nat>)
    ensures
        splits_weight(a + b, w) == splits_weight(a, w) + splits_weight(b, w),
    decreases b.len(),
{
    if b.len() == 0 {
        assert(a + b =~= a);
    } else {
        lemma_splits_concat(a, b.drop_last(), w);
        assert((a + b).drop_last() =~= a + b.drop_last());
        assert((a + b).last() == b.last());
    }
}

proof fn lemma_block_weight(cs: Seq<Seq<u32>>, i: nat, n: nat, w: Seq<nat>)
    requires
        i <= n <= u32::MAX,
        w.len() >= 1,
        forall|j: int| 0 <= j < cs.len() ==> total(#[trigger] cs[j]) == n - i,
    ensures
        splits_weight(cs.map_values(|c: Seq<u32>| seq![i as u32] + c), w) == binom(n, i) * power(
            w[0],
            i,
        ) * splits_weight(cs, w.drop_first()),
    decreases cs.len(),
{
    let f = |c: Seq<u32>| seq![i as u32] + c;
    let coef = binom(n, i) * power(w[0], i);
    if cs.len() == 0 {
        assert(cs.map_values(f).len() == 0);
        assert(coef * 0 == 0) by (nonlinear_arith);
    } else {
        let init = cs.drop_last();
        assert forall|j: int| 0 <= j < init.len() implies total(#[trigger] init[j]) == n - i by {
            assert(init[j] == cs[j]);
        }
        lemma_block_weight(init, i, n, w);
        let mapped = cs.map_values(f);
        assert(mapped.drop_last() =~= init.map_values(f));
        let c = cs.last();
        let d = seq![i as u32] + c;
        assert(mapped.last() == d);
        assert(d.drop_first() =~= c);
        assert(d[0] == i as u32);
        assert(total(d) == n);
        assert(partition_weight(d, w) == binom(n, i) * power(w[0], i) * partition_weight(c, w.drop_first()));
        let rest = splits_weight(init, w.drop_first());
        let last = partition_weight(c, w.drop_first());
        assert(coef * rest + binom(n, i) * power(w[0], i) * last == coef * (rest + last)) by (nonlinear_arith)
            requires coef == binom(n, i) * power(w[0], i);
    }
}

/// The weights of all the splits of `n` trials among `w.len()` categories add up to
/// `(sum of w)^n`: the probabilities of the splits add up to one.
pub proof fn lemma_split_weights_total(n: nat, w: Seq<nat>)
    requires
        w.len() >= 1,
        n <= u32::MAX,
    ensures
        splits_weight(compositions(w.len(), n), w) == power(weight_sum(w), n),
    decreases w.len(), n + 2,
{
    let k = w.len();
    if k == 1 {
        let c = seq![n as u32];
        assert(compositions(k, n) == seq![c]);
        assert(seq![c].drop_last().len() == 0);
        assert(c.drop_first().len() == 0);
        assert(total(c) == n) by {
            assert(total(c.drop_first()) == 0);
        }
        lemma_binom_self(n);
        assert(partition_weight(c.drop_first(), w.drop_first()) == 1);
        assert(c[0] as nat == n);
        assert(partition_weight(c, w) == binom(n, n) * power(w[0], n) * 1);
        assert(binom(n, n) * power(w[0], n) * 1 == power(w[0], n)) by (nonlinear_arith)
            requires binom(n, n) == 1;
        assert(splits_weight(seq![c], w) == splits_weight(seq![c].drop_last(), w) + partition_weight(c, w));
        assert(weight_sum(w.drop_first()) == 0);
    } else {
        lemma_split_weights_from(n, 0, w);
        lemma_binomial_theorem(n, w[0], weight_sum(w.drop_first()));
        assert(compositions(k, n) == compositions_from(k, n, 0));
    }
}

proof fn lemma_split_weights_from(n: nat, i: nat, w: Seq<nat>)
    requires
        w.len() >= 2,
        n <= u32::MAX,
    ensures
        splits_weight(compositions_from(w.len(), n, i), w) == binomial_terms(
            n,
            w[0],
            weight_sum(w.drop_first()),
            i,
        ),
    decreases w.len(), n + 1 - i,
{
    let k = w.len();
    if i <= n {
        let sub = compositions((k - 1) as nat, (n - i) as nat);
        let f = |c: Seq<u32>| seq![i as u32] + c;
        let block = sub.map_values(f);
        let rest = compositions_from(k, n, i + 1);
        assert(compositions_from(k, n, i) == block + rest);
        lemma_splits_concat(block, rest, w);
        lemma_split_weights_from(n, i + 1, w);
        lemma_compositions_shape((k - 1) as nat, (n - i) as nat);
        lemma_block_weight(sub, i, n, w);
        assert(w.drop_first().len() == k - 1);
        lemma_split_weights_total((n - i) as nat, w.drop_first());
    }
}

pub proof fn lemma_power_adds(b: nat, x: nat, y: nat)
    ensures
        power(b, x + y) == power(b, x) * power(b, y),
    decreases y,
{
    if y > 0 {
        lemma_power_adds(b, x, (y - 1) as nat);
        assert(power(b, x + y) == b * power(b, (x + y - 1) as nat));
        assert(power(b, y) == b * power(b, (y - 1) as nat));
        assert(b * (power(b, x) * power(b, (y - 1) as nat)) == power(b, x) * (b * power(b, (y - 1) as nat))) by (nonlinear_arith);
    } else {
        assert(power(b, x) * 1 == power(b, x));
    }
}

pub proof fn lemma_power_multiplies(b: nat, x: nat, y: nat)
    ensures
        power(power(b, x), y) == power(b, x * y),
    decreases y,
{
    if y > 0 {
        lemma_power_multiplies(b, x, (y - 1) as nat);
        assert(x * y == x * (y - 1) + x) by (nonlinear_arith)
            requires y > 0;
        lemma_power_adds(b, (x * (y - 1)) as nat, x);
        assert(power(b, x) * power(b, (x * (y - 1)) as nat) == power(b, (x * (y - 1)) as nat) * power(b, x)) by (nonlinear_arith);
    } else {
        assert(x * 0 == 0);
    }
}

pub proof fn lemma_weight_sum_last(w: Seq<nat>)
    requires
        w.len() > 0,
    ensures
        weight_sum(w) == weight_sum(w.drop_last()) + w.last(),
    decreases w.len(),
{
    if w.len() == 1 {
        assert(w.drop_first().len() == 0);
        assert(w.drop_last().len() == 0);
        assert(weight_sum(w.drop_first()) == 0);
        assert(weight_sum(w.drop_last()) == 0);
        assert(w.last() == w[0]);
    } else {
        lemma_weight_sum_last(w.drop_first());
        assert(w.drop_first().drop_last() =~= w.drop_last().drop_first());
        assert(w.drop_last()[0] == w[0]);
        assert(w.drop_first().last() == w.last());
        assert(weight_sum(w.drop_last()) == w[0] + weight_sum(w.drop_last().drop_first()));
    }
}

} // verus!
