//! Dice notation, and the exact distribution of a roll.
use crate::bignat::BigNat;
use crate::partitions::power;
use crate::probability::Probability;
use vstd::prelude::*;

verus! {

/// A roll of one or more three- or six-sided dice, summed, plus an optional bonus.
#[derive(Clone, Copy, Debug, PartialEq, Eq, Structural)]
pub enum DiceRoll {
    D6,
    D3,
    ND6(u32),
    ND3(u32),
    D6Plus(u32),
    D3Plus(u32),
    ND3Plus(u32, u32),
    ND6Plus(u32, u32),
}

impl DiceRoll {
    /// How many dice are rolled.
    pub open spec fn dice_count(self) -> nat {
        match self {
            DiceRoll::ND6(n) | DiceRoll::ND3(n) | DiceRoll::ND3Plus(n, _) | DiceRoll::ND6Plus(n, _) => n as nat,
            _ => 1,
        }
    }

    /// How many faces each die has.
    pub open spec fn faces(self) -> nat {
        match self {
            DiceRoll::D3 | DiceRoll::ND3(_) | DiceRoll::D3Plus(_) | DiceRoll::ND3Plus(_, _) => 3,
            _ => 6,
        }
    }

    /// The flat bonus added to the sum of the dice.
    pub open spec fn bonus(self) -> nat {
        match self {
            DiceRoll::D6Plus(m) | DiceRoll::D3Plus(m) | DiceRoll::ND3Plus(_, m) | DiceRoll::ND6Plus(_, m) => m as nat,
            _ => 0,
        }
    }
}

/// The weight, out of six, of one face of a die with `faces` faces.
pub open spec fn face_weight(faces: nat) -> nat {
    if faces == 3 {
        2
    } else {
        1
    }
}

/// The number of ways, each face counted with its weight out of six, in which `m` dice
/// of `faces` faces sum to `s`. Divided by `6^m` it is the probability of that sum.
pub open spec fn sum_ways(faces: nat, m: nat, s: int) -> nat
    decreases m, 0nat,
{
    if m == 0 {
        if s == 0 {
            1
        } else {
            0
        }
    } else {
        face_sum(faces, (m - 1) as nat, s, faces)
    }
}

/// The ways in which `m + 1` dice sum to `s` when the last die shows one of `1..=f`.
pub open spec fn face_sum(faces: nat, m: nat, s: int, f: nat) -> nat
    decreases m, f + 1,
{
    if f == 0 {
        0
    } else {
        face_sum(faces, m, s, (f - 1) as nat) + face_weight(faces) * sum_ways(faces, m, s - f)
    }
}

pub proof fn lemma_sum_ways_outside(faces: nat, m: nat, s: int)
    requires
        faces >= 1,
        s < m || s > m * faces,
    ensures
        sum_ways(faces, m, s) == 0,
    decreases m, 0nat,
{
    if m > 0 {
        lemma_face_sum_outside(faces, (m - 1) as nat, s, faces);
    }
}

proof fn lemma_face_sum_outside(faces: nat, m: nat, s: int, f: nat)
    requires
        faces >= 1,
        f <= faces,
        s < m + 1 || s > (m + 1) * faces,
    ensures
        face_sum(faces, m, s, f) == 0,
    decreases m, f + 1,
{
    if f > 0 {
        lemma_face_sum_outside(faces, m, s, (f - 1) as nat);
        assert((m + 1) * faces == m * faces + faces) by (nonlinear_arith);
        lemma_sum_ways_outside(faces, m, s - f);
        assert(face_weight(faces) * sum_ways(faces, m, s - f) == 0);
    }
}

/// `sum_ways` for every sum from `0` to `m * faces`, by adding one die at a time.
fn sum_ways_table(faces: u32, m: u32) -> (t: Vec<BigNat>)
    requires
        faces == 3 || faces == 6,
    ensures
        t@.len() == m * faces + 1,
        forall|s: int| 0 <= s < t@.len() ==> #[trigger] t@[s]@ == sum_ways(faces as nat, m as nat, s),
{
    let w: u32 = if faces == 3 { 2 } else { 1 };
    let mut cur: Vec<BigNat> = Vec::new();
    cur.push(BigNat::from_u64(1));
    let mut done: u32 = 0;
    while done < m
        invariant
            faces == 3 || faces == 6,
            w == face_weight(faces as nat),
            done <= m,
            cur@.len() == done * faces + 1,
            forall|s: int| 0 <= s < cur@.len() ==> #[trigger] cur@[s]@ == sum_ways(faces as nat, done as nat, s),
        decreases m - done,
    {
        let len: u64 = cur.len() as u64;
        let top: u64 = len - 1 + faces as u64;
        let mut next: Vec<BigNat> = Vec::new();
        let mut s: u64 = 0;
        while s <= top
            invariant
                faces == 3 || faces == 6,
                w == face_weight(faces as nat),
                len == cur@.len(),
                len == done * faces + 1,
                top == done * faces + faces,
                s <= top + 1,
                next@.len() == s,
                forall|s: int| 0 <= s < cur@.len() ==> #[trigger] cur@[s]@ == sum_ways(faces as nat, done as nat, s),
                forall|t: int| 0 <= t < s ==> #[trigger] next@[t]@ == sum_ways(faces as nat, (done + 1) as nat, t),
            decreases top + 1 - s,
        {
            let mut acc = BigNat::zero();
            let mut f: u64 = 1;
            while f <= faces as u64
                invariant
                    faces == 3 || faces == 6,
                    w == face_weight(faces as nat),
                    len == cur@.len(),
                    len == done * faces + 1,
                    1 <= f <= faces + 1,
                    forall|s: int| 0 <= s < cur@.len() ==> #[trigger] cur@[s]@ == sum_ways(faces as nat, done as nat, s),
                    acc@ == face_sum(faces as nat, done as nat, s as int, (f - 1) as nat),
                decreases faces + 1 - f,
            {
                proof {
                    assert(face_sum(faces as nat, done as nat, s as int, f as nat) == face_sum(
                        faces as nat,
                        done as nat,
                        s as int,
                        (f - 1) as nat,
                    ) + face_weight(faces as nat) * sum_ways(faces as nat, done as nat, s - f));
                }
                if f <= s && s - f < len {
                    let term = cur[(s - f) as usize].mul_limb(w);
                    proof {
                        assert(cur@[(s - f) as int]@ == sum_ways(faces as nat, done as nat, s - f));
                        let sw = sum_ways(faces as nat, done as nat, s - f);
                        assert(term@ == face_weight(faces as nat) * sw) by (nonlinear_arith)
                            requires
                                term@ == cur@[(s - f) as int]@ * w,
                                cur@[(s - f) as int]@ == sw,
                                w == face_weight(faces as nat),
                        ;
                    }
                    acc = acc.add(&term);
                } else {
                    proof {
                        lemma_sum_ways_outside(faces as nat, done as nat, s - f);
                        assert(face_weight(faces as nat) * sum_ways(faces as nat, done as nat, s - f) == 0);
                    }
                }
                f = f + 1;
            }
            proof {
                assert(sum_ways(faces as nat, (done + 1) as nat, s as int) == face_sum(
                    faces as nat,
                    done as nat,
                    s as int,
                    faces as nat,
                ));
            }
            next.push(acc);
            s = s + 1;
        }
        proof {
            assert((done + 1) * faces == done * faces + faces) by (nonlinear_arith);
        }
        cur = next;
        done = done + 1;
    }
    cur
}

/// Why a dice notation was refused.
#[derive(Clone, Copy, Debug, PartialEq, Eq, Structural)]
pub enum DiceRollParseError {
    /// The die has a number of faces other than three or six.
    InvalidFaceNumber,
    /// The text is not of the form `[N]D<faces>[+M]`, or a number does not fit in 32 bits.
    InvalidFormat,
}

pub open spec fn is_digit(c: char) -> bool {
    '0' <= c <= '9'
}

pub open spec fn digit_value(c: char) -> nat {
    (c as u32 - '0' as u32) as nat
}

/// The number written in decimal by the digits `t`.
pub open spec fn digits_value(t: Seq<char>) -> nat
    decreases t.len(),
{
    if t.len() == 0 {
        0
    } else {
        digits_value(t.drop_last()) * 10 + digit_value(t.last())
    }
}

/// The position of the first character at or after `i` that is not a digit.
pub open spec fn first_non_digit(s: Seq<char>, i: nat) -> nat
    decreases s.len() - i,
{
    if i < s.len() && is_digit(s[i as int]) {
        first_non_digit(s, i + 1)
    } else {
        i
    }
}

/// Reads `[N]D<f>[+M]`, where `N`, `M` are decimal numbers and `<f>` one digit, as the
/// dice count (one when absent), the face digit and the bonus (zero when absent).
pub open spec fn notation(s: Seq<char>) -> Option<(nat, nat, nat)> {
    let l = first_non_digit(s, 0) as int;
    if l + 2 <= s.len() && s[l as int] == 'D' && is_digit(s[l + 1]) && (l + 2 == s.len() || (s[l
        + 2] == '+' && l + 3 < s.len() && first_non_digit(s, (l + 3) as nat) == s.len())) {
        Some(
            (
                if l == 0 {
                    1
                } else {
                    digits_value(s.subrange(0, l as int))
                },
                digit_value(s[l + 1]),
                if l + 2 == s.len() {
                    0
                } else {
                    digits_value(s.subrange(l + 3, s.len() as int))
                },
            ),
        )
    } else {
        None
    }
}

/// The roll that `n` dice of `faces` faces plus `bonus` stand for.
pub open spec fn classify(n: u32, faces: nat, bonus: u32) -> DiceRoll {
    if n == 1 {
        if faces == 3 {
            if bonus == 0 {
                DiceRoll::D3
            } else {
                DiceRoll::D3Plus(bonus)
            }
        } else {
            if bonus == 0 {
                DiceRoll::D6
            } else {
                DiceRoll::D6Plus(bonus)
            }
        }
    } else {
        if faces == 3 {
            if bonus == 0 {
                DiceRoll::ND3(n)
            } else {
                DiceRoll::ND3Plus(n, bonus)
            }
        } else {
            if bonus == 0 {
                DiceRoll::ND6(n)
            } else {
                DiceRoll::ND6Plus(n, bonus)
            }
        }
    }
}

/// What reading the text `s` gives.
pub open spec fn parse_result(s: Seq<char>) -> Result<DiceRoll, DiceRollParseError> {
    match notation(s) {
        None => Err(DiceRollParseError::InvalidFormat),
        Some((n, f, m)) => if f != 3 && f != 6 {
            Err(DiceRollParseError::InvalidFaceNumber)
        } else if n > u32::MAX || m > u32::MAX {
            Err(DiceRollParseError::InvalidFormat)
        } else {
            Ok(classify(n as u32, f, m as u32))
        },
    }
}

proof fn lemma_digits_grow(t: Seq<char>, i: int)
    requires
        0 <= i <= t.len(),
        forall|j: int| 0 <= j < t.len() ==> is_digit(#[trigger] t[j]),
    ensures
        digits_value(t.subrange(0, i)) <= digits_value(t),
    decreases t.len() - i,
{
    if i < t.len() {
        lemma_digits_grow(t, i + 1);
        let u = t.subrange(0, i + 1);
        assert(u.drop_last() =~= t.subrange(0, i));
    } else {
        assert(t.subrange(0, i) =~= t);
    }
}

/// The number written by the digits `cs[start..end]`, if it fits in 32 bits.
fn read_number(cs: &Vec<char>, start: usize, end: usize) -> (r: Option<u32>)
    requires
        start <= end <= cs@.len(),
        forall|j: int| start <= j < end ==> is_digit(#[trigger] cs@[j]),
    ensures
        r == (if digits_value(cs@.subrange(start as int, end as int)) <= u32::MAX {
            Some(digits_value(cs@.subrange(start as int, end as int)) as u32)
        } else {
            None::<u32>
        }),
{
    let ghost t = cs@.subrange(start as int, end as int);
    let mut v: u64 = 0;
    let mut i: usize = start;
    assert(t.subrange(0, 0).len() == 0);
    while i < end
        invariant
            start <= i <= end <= cs@.len(),
            t == cs@.subrange(start as int, end as int),
            forall|j: int| start <= j < end ==> is_digit(#[trigger] cs@[j]),
            v <= u32::MAX,
            v == digits_value(t.subrange(0, i - start)),
        decreases end - i,
    {
        let c = cs[i];
        let d: u64 = (c as u32 - '0' as u32) as u64;
        proof {
            let u = t.subrange(0, i - start + 1);
            assert(u.drop_last() =~= t.subrange(0, i - start));
            assert(u.last() == c);
        }
        v = v * 10 + d;
        i = i + 1;
        if v > u32::MAX as u64 {
            proof {
                assert forall|j: int| 0 <= j < t.len() implies is_digit(#[trigger] t[j]) by {
                    assert(t[j] == cs@[start + j]);
                }
                lemma_digits_grow(t, i - start);
            }
            return None;
        }
    }
    assert(t.subrange(0, end - start) =~= t);
    Some(v as u32)
}

/// The position of the first non-digit at or after `i`.
fn skip_digits(cs: &Vec<char>, i: usize) -> (r: usize)
    requires
        i <= cs@.len(),
    ensures
        r == first_non_digit(cs@, i as nat),
        i <= r <= cs@.len(),
        forall|j: int| i <= j < r ==> is_digit(#[trigger] cs@[j]),
{
    let mut k = i;
    while k < cs.len() && '0' <= cs[k] && cs[k] <= '9'
        invariant
            i <= k <= cs@.len(),
            first_non_digit(cs@, k as nat) == first_non_digit(cs@, i as nat),
            forall|j: int| i <= j < k ==> is_digit(#[trigger] cs@[j]),
        decreases cs@.len() - k,
    {
        k = k + 1;
    }
    k
}

impl DiceRoll {
    /// Reads a dice notation `[N]D{3|6}[+M]` that makes up the whole text.
    pub fn from_str(dice_str: String) -> (r: Result<DiceRoll, DiceRollParseError>)
        ensures
            r == parse_result(dice_str@),
    {
        let text = dice_str.as_str();
        let len = text.unicode_len();
        let mut cs: Vec<char> = Vec::new();
        let mut i: usize = 0;
        while i < len
            invariant
                len == text@.len(),
                i <= len,
                cs@ == text@.subrange(0, i as int),
            decreases len - i,
        {
            cs.push(text.get_char(i));
            i = i + 1;
            assert(cs@ =~= text@.subrange(0, i as int));
        }
        assert(cs@ =~= dice_str@);
        let ghost s = cs@;
        let l = skip_digits(&cs, 0);
        if !(l < len && len - l >= 2 && cs[l] == 'D' && '0' <= cs[l + 1] && cs[l + 1] <= '9') {
            return Err(DiceRollParseError::InvalidFormat);
        }
        let face_char = cs[l + 1];
        let mut bonus_value: u32 = 0;
        let mut bonus_ok = true;
        if len - l > 2 {
            if !(cs[l + 2] == '+' && len - l > 3) {
                return Err(DiceRollParseError::InvalidFormat);
            }
            let e = skip_digits(&cs, l + 3);
            if e != len {
                return Err(DiceRollParseError::InvalidFormat);
            }
            match read_number(&cs, l + 3, len) {
                Some(v) => {
                    bonus_value = v;
                },
                None => {
                    bonus_ok = false;
                },
            }
        }
        let faces: u32 = face_char as u32 - '0' as u32;
        if faces != 3 && faces != 6 {
            return Err(DiceRollParseError::InvalidFaceNumber);
        }
        let count = if l == 0 {
            Some(1u32)
        } else {
            read_number(&cs, 0, l)
        };
        match count {
            None => Err(DiceRollParseError::InvalidFormat),
            Some(n) => {
                if !bonus_ok {
                    return Err(DiceRollParseError::InvalidFormat);
                }
                if n == 1 {
                    if faces == 3 {
                        if bonus_value == 0 {
                            Ok(DiceRoll::D3)
                        } else {
                            Ok(DiceRoll::D3Plus(bonus_value))
                        }
                    } else {
                        if bonus_value == 0 {
                            Ok(DiceRoll::D6)
                        } else {
                            Ok(DiceRoll::D6Plus(bonus_value))
                        }
                    }
                } else {
                    if faces == 3 {
                        if bonus_value == 0 {
                            Ok(DiceRoll::ND3(n))
                        } else {
                            Ok(DiceRoll::ND3Plus(n, bonus_value))
                        }
                    } else {
                        if bonus_value == 0 {
                            Ok(DiceRoll::ND6(n))
                        } else {
                            Ok(DiceRoll::ND6Plus(n, bonus_value))
                        }
                    }
                }
            },
        }
    }
}

impl DiceRoll {
    /// How many dice are rolled.
    pub fn count(&self) -> (r: u32)
        ensures
            r == self.dice_count(),
    {
        match self {
            DiceRoll::ND6(n) | DiceRoll::ND3(n) | DiceRoll::ND3Plus(n, _) | DiceRoll::ND6Plus(n, _) => *n,
            _ => 1,
        }
    }

    /// How many faces each die has.
    pub fn face_count(&self) -> (r: u32)
        ensures
            r == self.faces(),
            r == 3 || r == 6,
    {
        match self {
            DiceRoll::D3 | DiceRoll::ND3(_) | DiceRoll::D3Plus(_) | DiceRoll::ND3Plus(_, _) => 3,
            _ => 6,
        }
    }

    /// The flat bonus.
    pub fn bonus_value(&self) -> (r: u32)
        ensures
            r == self.bonus(),
    {
        match self {
            DiceRoll::D6Plus(m) | DiceRoll::D3Plus(m) | DiceRoll::ND3Plus(_, m) | DiceRoll::ND6Plus(_, m) => *m,
            _ => 0,
        }
    }

    /// Every value the roll can take, from lowest to highest, each with its probability.
    /// Entry `i` is the value `count + i + bonus`; its probability is
    /// `sum_ways(faces, count, count + i) / 6^count`.
    pub fn values_and_probas(&self) -> (r: Vec<(u64, Probability)>)
        ensures
            r@.len() == self.dice_count() * (self.faces() - 1) + 1,
            forall|i: int|
                0 <= i < r@.len() ==> (#[trigger] r@[i]).0 == self.dice_count() + i + self.bonus()
                    && r@[i].1.numerator@ == sum_ways(
                    self.faces(),
                    self.dice_count(),
                    self.dice_count() + i,
                ) && r@[i].1.exponent == self.dice_count(),
    {
        let n = self.count();
        let faces = self.face_count();
        let bonus = self.bonus_value();
        let table = sum_ways_table(faces, n);
        let mut out: Vec<(u64, Probability)> = Vec::new();
        let mut s: usize = n as usize;
        proof {
            assert(n * faces >= n) by (nonlinear_arith)
                requires faces >= 1;
            assert(n * faces - n == n * (faces - 1)) by (nonlinear_arith);
        }
        while s < table.len()
            invariant
                n == self.dice_count(),
                faces == self.faces(),
                bonus == self.bonus(),
                table@.len() == n * faces + 1,
                n <= s <= table@.len(),
                out@.len() == s - n,
                forall|t: int| 0 <= t < table@.len() ==> #[trigger] table@[t]@ == sum_ways(faces as nat, n as nat, t),
                forall|i: int|
                    0 <= i < out@.len() ==> (#[trigger] out@[i]).0 == n + i + bonus
                        && out@[i].1.numerator@ == sum_ways(faces as nat, n as nat, n + i)
                        && out@[i].1.exponent == n,
            decreases table@.len() - s,
        {
            let p = Probability { numerator: table[s].copy(), exponent: n as u64 };
            out.push((s as u64 + bonus as u64, p));
            s = s + 1;
        }
        out
    }
}

/// `sum_ways(faces, m, s)` summed over `a <= s < b`.
pub open spec fn ways_range(faces: nat, m: nat, a: int, b: int) -> nat
    decreases b - a,
{
    if b <= a {
        0
    } else {
        ways_range(faces, m, a, b - 1) + sum_ways(faces, m, b - 1)
    }
}

/// `sum_ways(faces, m, s - f)` summed over `a <= s < b`.
pub open spec fn shifted_range(faces: nat, m: nat, a: int, b: int, f: int) -> nat
    decreases b - a,
{
    if b <= a {
        0
    } else {
        shifted_range(faces, m, a, b - 1, f) + sum_ways(faces, m, b - 1 - f)
    }
}

/// `face_sum(faces, m, s, f)` summed over `a <= s < b`.
pub open spec fn faces_range(faces: nat, m: nat, a: int, b: int, f: nat) -> nat
    decreases b - a,
{
    if b <= a {
        0
    } else {
        faces_range(faces, m, a, b - 1, f) + face_sum(faces, m, b - 1, f)
    }
}

proof fn lemma_shifted_range(faces: nat, m: nat, a: int, b: int, f: int)
    ensures
        shifted_range(faces, m, a, b, f) == ways_range(faces, m, a - f, b - f),
    decreases b - a,
{
    if b > a {
        lemma_shifted_range(faces, m, a, b - 1, f);
    }
}

proof fn lemma_faces_range_step(faces: nat, m: nat, a: int, b: int, f: nat)
    requires
        f >= 1,
    ensures
        faces_range(faces, m, a, b, f) == faces_range(faces, m, a, b, (f - 1) as nat) + face_weight(
            faces,
        ) * shifted_range(faces, m, a, b, f as int),
    decreases b - a,
{
    if b > a {
        lemma_faces_range_step(faces, m, a, b - 1, f);
        let w = face_weight(faces);
        let x = shifted_range(faces, m, a, b - 1, f as int);
        let y = sum_ways(faces, m, b - 1 - f);
        assert(w * (x + y) == w * x + w * y) by (nonlinear_arith);
    }
}

proof fn lemma_faces_range_zero(faces: nat, m: nat, a: int, b: int)
    ensures
        faces_range(faces, m, a, b, 0) == 0,
    decreases b - a,
{
    if b > a {
        lemma_faces_range_zero(faces, m, a, b - 1);
    }
}

proof fn lemma_ways_range_next(faces: nat, m: nat, a: int, b: int)
    ensures
        ways_range(faces, m + 1, a, b) == faces_range(faces, m, a, b, faces),
    decreases b - a,
{
    if b > a {
        lemma_ways_range_next(faces, m, a, b - 1);
    }
}

proof fn lemma_ways_range_zero(faces: nat, m: nat, a: int, b: int)
    requires
        forall|s: int| a <= s < b ==> #[trigger] sum_ways(faces, m, s) == 0,
    ensures
        ways_range(faces, m, a, b) == 0,
    decreases b - a,
{
    if b > a {
        lemma_ways_range_zero(faces, m, a, b - 1);
    }
}

proof fn lemma_ways_range_split(faces: nat, m: nat, a: int, b: int, c: int)
    requires
        a <= b <= c,
    ensures
        ways_range(faces, m, a, c) == ways_range(faces, m, a, b) + ways_range(faces, m, b, c),
    decreases c - b,
{
    if c > b {
        lemma_ways_range_split(faces, m, a, b, c - 1);
    }
}

proof fn lemma_faces_range_full(faces: nat, m: nat, a: int, b: int, f: nat)
    requires
        faces == 3 || faces == 6,
        f <= faces,
        a <= 0,
        b >= (m + 1) * faces + 1,
        forall|a2: int, b2: int| a2 <= 0 && b2 >= m * faces + 1 ==> #[trigger] ways_range(faces, m, a2, b2) == power(6, m),
    ensures
        faces_range(faces, m, a, b, f) == f * face_weight(faces) * power(6, m),
    decreases f,
{
    if f == 0 {
        lemma_faces_range_zero(faces, m, a, b);
        assert(0 * face_weight(faces) * power(6, m) == 0) by (nonlinear_arith);
    } else {
        lemma_faces_range_full(faces, m, a, b, (f - 1) as nat);
        lemma_faces_range_step(faces, m, a, b, f);
        lemma_shifted_range(faces, m, a, b, f as int);
        assert((m + 1) * faces == m * faces + faces) by (nonlinear_arith);
        assert(ways_range(faces, m, a - f, b - f) == power(6, m));
        let w = face_weight(faces);
        let p = power(6, m);
        assert(shifted_range(faces, m, a, b, f as int) == p);
        assert(faces_range(faces, m, a, b, (f - 1) as nat) == ((f - 1) as nat) * w * p);
        assert(((f - 1) as nat) * w * p + w * p == f * w * p) by (nonlinear_arith)
            requires f >= 1;
    }
}

proof fn lemma_ways_base(faces: nat, a: int, b: int)
    requires
        a <= 0 < b,
    ensures
        ways_range(faces, 0, a, b) == 1,
    decreases b - a,
{
    if b > 1 {
        lemma_ways_base(faces, a, b - 1);
    } else {
        assert forall|s: int| a <= s < 0 implies #[trigger] sum_ways(faces, 0, s) == 0 by {}
        lemma_ways_range_zero(faces, 0, a, 0);
    }
}

proof fn lemma_ways_total(faces: nat, m: nat)
    requires
        faces == 3 || faces == 6,
    ensures
        forall|a: int, b: int| a <= 0 && b >= m * faces + 1 ==> #[trigger] ways_range(faces, m, a, b) == power(6, m),
    decreases m,
{
    if m == 0 {
        assert forall|a: int, b: int| a <= 0 && b >= m * faces + 1 implies #[trigger] ways_range(faces, m, a, b) == power(6, m) by {
            lemma_ways_base(faces, a, b);
        }
    } else {
        let k = (m - 1) as nat;
        lemma_ways_total(faces, k);
        assert forall|a: int, b: int| a <= 0 && b >= m * faces + 1 implies #[trigger] ways_range(faces, m, a, b) == power(6, m) by {
            lemma_ways_range_next(faces, k, a, b);
            lemma_faces_range_full(faces, k, a, b, faces);
            assert(faces * face_weight(faces) == 6);
            assert(faces * face_weight(faces) * power(6, k) == 6 * power(6, k)) by (nonlinear_arith)
                requires faces * face_weight(faces) == 6;
        }
    }
}

/// `sum_ways(faces, m, m + i)` summed over `i < k`.
pub open spec fn roll_weights_upto(faces: nat, m: nat, k: nat) -> nat
    decreases k,
{
    if k == 0 {
        0
    } else {
        roll_weights_upto(faces, m, (k - 1) as nat) + sum_ways(faces, m, m + k - 1)
    }
}

proof fn lemma_roll_weights_upto(faces: nat, m: nat, k: nat)
    ensures
        roll_weights_upto(faces, m, k) == ways_range(faces, m, m as int, (m + k) as int),
    decreases k,
{
    if k > 0 {
        lemma_roll_weights_upto(faces, m, (k - 1) as nat);
    }
}

/// The weights of the values of `m` dice with `faces` faces add up to `6^m`: their
/// probabilities add up to one.
pub proof fn lemma_roll_weights_total(faces: nat, m: nat)
    requires
        faces == 3 || faces == 6,
    ensures
        roll_weights_upto(faces, m, (m * (faces - 1) + 1) as nat) == power(6, m),
{
    lemma_ways_total(faces, m);
    assert(m * (faces - 1) + 1 + m == m * faces + 1) by (nonlinear_arith);
    lemma_roll_weights_upto(faces, m, (m * (faces - 1) + 1) as nat);
    lemma_ways_range_split(faces, m, 0, m as int, (m * faces + 1) as int);
    assert forall|s: int| 0 <= s < m implies #[trigger] sum_ways(faces, m, s) == 0 by {
        lemma_sum_ways_outside(faces, m, s);
    }
    lemma_ways_range_zero(faces, m, 0, m as int);
    assert(ways_range(faces, m, 0, (m * faces + 1) as int) == power(6, m));
}

} // verus!
