//! Arbitrary-precision natural numbers, stored as little-endian 32-bit limbs.
use vstd::prelude::*;

verus! {

/// The base of one limb.
pub open spec fn limb_base() -> nat {
    0x1_0000_0000
}

/// Weight of the limb at position `i`: the base to the power `i`.
pub open spec fn place(i: nat) -> nat
    decreases i,
{
    if i == 0 {
        1
    } else {
        limb_base() * place((i - 1) as nat)
    }
}

/// The limb at position `i`, zero past the end.
pub open spec fn limb_at(s: Seq<u32>, i: int) -> nat {
    if 0 <= i < s.len() {
        s[i] as nat
    } else {
        0
    }
}

/// The value of the first `n` limbs of `s`.
pub open spec fn value_upto(s: Seq<u32>, n: nat) -> nat
    decreases n,
{
    if n == 0 {
        0
    } else {
        value_upto(s, (n - 1) as nat) + limb_at(s, n - 1) * place((n - 1) as nat)
    }
}

/// The number that the limbs `s` stand for.
pub open spec fn limbs_value(s: Seq<u32>) -> nat {
    value_upto(s, s.len())
}

pub proof fn lemma_place_pos(i: nat)
    ensures
        place(i) > 0,
        place(i + 1) == limb_base() * place(i),
    decreases i,
{
    if i > 0 {
        lemma_place_pos((i - 1) as nat);
    }
    assert(place(i) > 0 ==> limb_base() * place(i) > 0) by (nonlinear_arith);
}

pub proof fn lemma_place_adds(i: nat, j: nat)
    ensures
        place(i + j) == place(i) * place(j),
    decreases j,
{
    if j > 0 {
        lemma_place_adds(i, (j - 1) as nat);
        assert(place(i + j) == limb_base() * place((i + j - 1) as nat));
        assert(place(j) == limb_base() * place((j - 1) as nat));
        assert(limb_base() * (place(i) * place((j - 1) as nat)) == place(i) * (limb_base() * place(
            (j - 1) as nat))) by (nonlinear_arith);
    } else {
        assert(place(j) == 1);
        assert(place(i) * 1 == place(i));
    }
}

pub proof fn lemma_value_upto_prefix(s1: Seq<u32>, s2: Seq<u32>, n: nat)
    requires
        forall|j: int| 0 <= j < n ==> limb_at(s1, j) == limb_at(s2, j),
    ensures
        value_upto(s1, n) == value_upto(s2, n),
    decreases n,
{
    if n > 0 {
        lemma_value_upto_prefix(s1, s2, (n - 1) as nat);
    }
}

pub proof fn lemma_value_upto_past_end(s: Seq<u32>, n: nat)
    requires
        n >= s.len(),
    ensures
        value_upto(s, n) == limbs_value(s),
    decreases n,
{
    if n > s.len() {
        lemma_value_upto_past_end(s, (n - 1) as nat);
        assert(limb_at(s, n - 1) == 0);
        assert(limb_at(s, n - 1) * place((n - 1) as nat) == 0);
    }
}

proof fn lemma_value_upto_push(s: Seq<u32>, x: u32)
    ensures
        value_upto(s.push(x), s.len() + 1) == value_upto(s, s.len()) + x * place(s.len()),
{
    assert forall|j: int| 0 <= j < s.len() implies limb_at(s.push(x), j) == limb_at(s, j) by {}
    lemma_value_upto_prefix(s.push(x), s, s.len());
    let n = s.len();
    lemma_place_pos(n);
    assert(limb_at(s.push(x), n as int) * place(n) >= 0) by (nonlinear_arith)
        requires place(n) > 0;
    assert(limb_at(s.push(x), n as int) == x);
    assert(value_upto(s.push(x), n + 1) == value_upto(s.push(x), n) + limb_at(s.push(x), n as int)
        * place(n));
}

proof fn lemma_split_limb(t: int, p: nat)
    requires
        0 <= t,
    ensures
        (t % 0x1_0000_0000) * p + (t / 0x1_0000_0000) * (limb_base() * p) == t * p,
{
    let b: int = 0x1_0000_0000;
    assert(t == (t % b) + b * (t / b));
    assert((t % b) * p + (t / b) * (b * p) == ((t % b) + b * (t / b)) * p) by (nonlinear_arith);
}

proof fn lemma_zeros_value(s: Seq<u32>, m: nat)
    requires
        forall|j: int| 0 <= j < m ==> limb_at(s, j) == 0,
    ensures
        value_upto(s, m) == 0,
    decreases m,
{
    if m > 0 {
        lemma_zeros_value(s, (m - 1) as nat);
        assert(limb_at(s, m - 1) == 0);
        assert(limb_at(s, m - 1) * place((m - 1) as nat) == 0);
    }
}

proof fn lemma_shift_value(z: Seq<u32>, s: Seq<u32>, k: nat)
    requires
        forall|j: int| 0 <= j < z.len() ==> z[j] == 0,
    ensures
        value_upto(z + s, z.len() + k) == value_upto(s, k) * place(z.len()),
    decreases k,
{
    let zs = z + s;
    let j = z.len();
    if k == 0 {
        assert forall|i: int| 0 <= i < j implies limb_at(zs, i) == 0 by {}
        lemma_zeros_value(zs, j);
        assert(value_upto(s, 0) == 0);
        assert(value_upto(s, k) * place(j) == 0);
    } else {
        let k1 = (k - 1) as nat;
        lemma_shift_value(z, s, k1);
        assert(limb_at(zs, (j + k1) as int) == limb_at(s, k1 as int));
        lemma_place_adds(j, k1);
        assert(value_upto(zs, j + k) == value_upto(zs, j + k1) + limb_at(zs, (j + k1) as int) * place(j
            + k1));
        assert(value_upto(s, k) == value_upto(s, k1) + limb_at(s, k1 as int) * place(k1));
        assert(value_upto(s, k1) * place(j) + limb_at(s, k1 as int) * (place(j) * place(k1)) == (
        value_upto(s, k1) + limb_at(s, k1 as int) * place(k1)) * place(j)) by (nonlinear_arith);
    }
}

proof fn lemma_drop_zero_limb(s: Seq<u32>)
    requires
        s.len() > 0,
        s.last() == 0,
    ensures
        limbs_value(s.drop_last()) == limbs_value(s),
{
    let n = (s.len() - 1) as nat;
    assert forall|j: int| 0 <= j < n implies limb_at(s.drop_last(), j) == limb_at(s, j) by {}
    lemma_value_upto_prefix(s.drop_last(), s, n);
    assert(limb_at(s, n as int) == 0);
    assert(limb_at(s, n as int) * place(n) == 0);
    assert(value_upto(s, n + 1) == value_upto(s, n) + limb_at(s, n as int) * place(n));
}

/// Drops the most significant zero limbs.
fn trimmed(v: Vec<u32>) -> (r: Vec<u32>)
    ensures
        limbs_value(r@) == limbs_value(v@),
        r@.len() == 0 || r@.last() != 0,
{
    let mut v = v;
    let ghost orig = v@;
    while v.len() > 0 && v[v.len() - 1] == 0
        invariant
            limbs_value(v@) == limbs_value(orig),
        decreases v@.len(),
    {
        proof {
            lemma_drop_zero_limb(v@);
        }
        v.pop();
    }
    v
}

/// A natural number of any size.
pub struct BigNat {
    limbs: Vec<u32>,
}

impl View for BigNat {
    type V = nat;

    closed spec fn view(&self) -> nat {
        limbs_value(self.limbs@)
    }
}

impl BigNat {
    /// The little-endian limbs of the number.
    pub closed spec fn spec_limbs(&self) -> Seq<u32> {
        self.limbs@
    }

    pub fn zero() -> (r: BigNat)
        ensures
            r@ == 0,
    {
        BigNat { limbs: Vec::new() }
    }

    pub fn from_u64(x: u64) -> (r: BigNat)
        ensures
            r@ == x,
    {
        let lo = (x % 0x1_0000_0000) as u32;
        let hi = (x / 0x1_0000_0000) as u32;
        let mut limbs: Vec<u32> = Vec::new();
        limbs.push(lo);
        limbs.push(hi);
        proof {
            assert(limbs@[0] == lo && limbs@[1] == hi);
            assert(place(0) == 1);
            assert(place(1) == limb_base() * place(0));
            assert(value_upto(limbs@, 0) == 0);
            assert(value_upto(limbs@, 1) == value_upto(limbs@, 0) + limb_at(limbs@, 0) * place(0));
            assert(value_upto(limbs@, 2) == value_upto(limbs@, 1) + limb_at(limbs@, 1) * place(1));
        }
        BigNat { limbs }
    }


    /// The sum of two numbers.
    pub fn add(&self, other: &BigNat) -> (r: BigNat)
        ensures
            r@ == self@ + other@,
    {
        let a = &self.limbs;
        let b = &other.limbs;
        let n: usize = if a.len() >= b.len() { a.len() } else { b.len() };
        let mut out: Vec<u32> = Vec::new();
        let mut carry: u64 = 0;
        let mut i: usize = 0;
        while i < n
            invariant
                n == if a@.len() >= b@.len() { a@.len() } else { b@.len() },
                i <= n,
                out@.len() == i,
                carry <= 1,
                value_upto(out@, i as nat) + carry * place(i as nat) == value_upto(a@, i as nat)
                    + value_upto(b@, i as nat),
            decreases n - i,
        {
            let x: u64 = if i < a.len() { a[i] as u64 } else { 0 };
            let y: u64 = if i < b.len() { b[i] as u64 } else { 0 };
            let t: u64 = x + y + carry;
            let low = (t % 0x1_0000_0000) as u32;
            proof {
                assert(x == limb_at(a@, i as int));
                assert(y == limb_at(b@, i as int));
                lemma_value_upto_push(out@, low);
                lemma_place_pos(i as nat);
                lemma_split_limb(t as int, place(i as nat));
                assert(value_upto(out@, i as nat) == value_upto(out@, out@.len()));
                assert(value_upto(a@, (i + 1) as nat) == value_upto(a@, i as nat) + x * place(i as nat));
                assert(value_upto(b@, (i + 1) as nat) == value_upto(b@, i as nat) + y * place(i as nat));
                assert(t * place(i as nat) == x * place(i as nat) + y * place(i as nat) + carry * place(i as nat)) by (nonlinear_arith)
                    requires t == x + y + carry;
            }
            out.push(low);
            carry = t / 0x1_0000_0000;
            i = i + 1;
        }
        let top = carry as u32;
        proof {
            lemma_value_upto_push(out@, top);
            lemma_value_upto_past_end(a@, n as nat);
            lemma_value_upto_past_end(b@, n as nat);
        }
        out.push(top);
        BigNat { limbs: trimmed(out) }
    }

    /// The product with a single limb.
    pub fn mul_limb(&self, x: u32) -> (r: BigNat)
        ensures
            r@ == self@ * x,
    {
        let a = &self.limbs;
        let n = a.len();
        let mut out: Vec<u32> = Vec::new();
        let mut carry: u64 = 0;
        let mut i: usize = 0;
        assert(value_upto(a@, 0) == 0);
        assert(value_upto(a@, 0) * x == 0);
        while i < n
            invariant
                n == a@.len(),
                i <= n,
                out@.len() == i,
                carry < limb_base(),
                value_upto(out@, i as nat) + carry * place(i as nat) == value_upto(a@, i as nat) * x,
            decreases n - i,
        {
            let ai: u64 = a[i] as u64;
            proof {
                assert(ai * x <= 0xffff_ffff * 0xffff_ffff) by (nonlinear_arith)
                    requires ai <= 0xffff_ffff, x <= 0xffff_ffff;
            }
            let t: u64 = ai * (x as u64) + carry;
            let low = (t % 0x1_0000_0000) as u32;
            proof {
                assert(ai == limb_at(a@, i as int));
                lemma_value_upto_push(out@, low);
                lemma_place_pos(i as nat);
                lemma_split_limb(t as int, place(i as nat));
                assert(value_upto(a@, (i + 1) as nat) == value_upto(a@, i as nat) + ai * place(i as nat));
                assert(t * place(i as nat) == ai * x * place(i as nat) + carry * place(i as nat)) by (nonlinear_arith)
                    requires t == ai * x + carry;
                assert((value_upto(a@, i as nat) + ai * place(i as nat)) * x == value_upto(a@, i as nat) * x + ai * x * place(i as nat)) by (nonlinear_arith);
            }
            out.push(low);
            carry = t / 0x1_0000_0000;
            i = i + 1;
        }
        let top = carry as u32;
        proof {
            lemma_value_upto_push(out@, top);
        }
        out.push(top);
        BigNat { limbs: out }
    }


    /// The number times `place(j)`: `j` zero limbs put in front.
    fn shifted(&self, j: usize) -> (r: BigNat)
        ensures
            r@ == self@ * place(j as nat),
    {
        let mut out: Vec<u32> = Vec::new();
        let mut i: usize = 0;
        while i < j
            invariant
                i <= j,
                out@.len() == i,
                forall|t: int| 0 <= t < i ==> out@[t] == 0,
            decreases j - i,
        {
            out.push(0);
            i = i + 1;
        }
        let ghost z = out@;
        let mut k: usize = 0;
        while k < self.limbs.len()
            invariant
                k <= self.limbs@.len(),
                out@ == z + self.limbs@.subrange(0, k as int),
                z.len() == j,
            decreases self.limbs@.len() - k,
        {
            out.push(self.limbs[k]);
            k = k + 1;
            assert(out@ == z + self.limbs@.subrange(0, k as int));
        }
        proof {
            assert(self.limbs@.subrange(0, k as int) == self.limbs@);
            lemma_shift_value(z, self.limbs@, self.limbs@.len());
        }
        BigNat { limbs: out }
    }

    /// The product of two numbers.
    pub fn mul(&self, other: &BigNat) -> (r: BigNat)
        ensures
            r@ == self@ * other@,
    {
        let b = &other.limbs;
        let mut acc = BigNat::zero();
        let mut j: usize = 0;
        assert(value_upto(b@, 0) == 0);
        while j < b.len()
            invariant
                j <= b@.len(),
                acc@ == self@ * value_upto(b@, j as nat),
            decreases b@.len() - j,
        {
            let part = self.mul_limb(b[j]).shifted(j);
            proof {
                assert(limb_at(b@, j as int) == b@[j as int]);
                assert(value_upto(b@, (j + 1) as nat) == value_upto(b@, j as nat) + b@[j as int]
                    * place(j as nat));
                assert(self@ * value_upto(b@, j as nat) + self@ * b@[j as int] * place(j as nat)
                    == self@ * (value_upto(b@, j as nat) + b@[j as int] * place(j as nat)))
                    by (nonlinear_arith);
            }
            acc = acc.add(&part);
            j = j + 1;
        }
        BigNat { limbs: trimmed(acc.limbs) }
    }

    /// Another number with the same value.
    pub fn copy(&self) -> (r: BigNat)
        ensures
            r@ == self@,
    {
        let mut out: Vec<u32> = Vec::new();
        let mut i: usize = 0;
        while i < self.limbs.len()
            invariant
                i <= self.limbs@.len(),
                out@ == self.limbs@.subrange(0, i as int),
            decreases self.limbs@.len() - i,
        {
            out.push(self.limbs[i]);
            i = i + 1;
            assert(out@ =~= self.limbs@.subrange(0, i as int));
        }
        assert(out@ =~= self.limbs@);
        BigNat { limbs: out }
    }

    /// The limbs, least significant first.
    pub fn limbs(&self) -> (r: &Vec<u32>)
        ensures
            limbs_value(r@) == self@,
    {
        &self.limbs
    }
}

} // verus!
