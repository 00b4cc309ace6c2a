//! The tri-state signal value and the input generators built on it.

use vstd::prelude::*;

verus! {

/// A signal level: low, high, or unknown.
#[derive(Debug, Copy, Clone, PartialEq, Eq, Structural)]
pub enum Bit {
    /// Low, false, 0.
    L,
    /// High, true, 1.
    H,
    /// Undefined.
    X,
}

/// The bit of `x` that has the weight `weight`, a power of two.
pub open spec fn spec_bit_at(x: u8, weight: int) -> Bit {
    if (x as int / weight) % 2 == 1 {
        Bit::H
    } else {
        Bit::L
    }
}

/// The eight bits of `x`, most significant first.
pub open spec fn spec_bits_of_u8(x: u8) -> Seq<Bit> {
    seq![
        spec_bit_at(x, 128),
        spec_bit_at(x, 64),
        spec_bit_at(x, 32),
        spec_bit_at(x, 16),
        spec_bit_at(x, 8),
        spec_bit_at(x, 4),
        spec_bit_at(x, 2),
        spec_bit_at(x, 1),
    ]
}

/// What a bit adds to a number: 1 when high, 0 when low or unknown.
pub open spec fn spec_bit_value(b: Bit) -> int {
    if b == Bit::H {
        1
    } else {
        0
    }
}

/// The number whose eight binary digits, most significant first, are `bits`.
pub open spec fn spec_u8_of_bits(bits: Seq<Bit>) -> int
    recommends
        bits.len() == 8,
{
    128 * spec_bit_value(bits[0]) + 64 * spec_bit_value(bits[1]) + 32 * spec_bit_value(bits[2])
        + 16 * spec_bit_value(bits[3]) + 8 * spec_bit_value(bits[4]) + 4 * spec_bit_value(
        bits[5],
    ) + 2 * spec_bit_value(bits[6]) + spec_bit_value(bits[7])
}

/// The successor of `bits` read as a binary number, most significant bit
/// first, that wraps to all-low after all-high. An unknown bit stays unknown
/// and hands the carry on to the bit above it.
pub open spec fn spec_next_combination(bits: Seq<Bit>) -> Seq<Bit>
    decreases bits.len(),
{
    if bits.len() == 0 {
        bits
    } else {
        match bits.last() {
            Bit::L => bits.drop_last().push(Bit::H),
            Bit::H => spec_next_combination(bits.drop_last()).push(Bit::L),
            Bit::X => spec_next_combination(bits.drop_last()).push(Bit::X),
        }
    }
}

/// `n` low bits.
pub open spec fn spec_all_low(n: nat) -> Seq<Bit> {
    Seq::new(n, |i: int| Bit::L)
}

/// `bits` after `k` steps of `spec_next_combination`.
pub open spec fn spec_nth_combination(bits: Seq<Bit>, k: nat) -> Seq<Bit>
    decreases k,
{
    if k == 0 {
        bits
    } else {
        spec_next_combination(spec_nth_combination(bits, (k - 1) as nat))
    }
}

/// The successor keeps the width.
pub proof fn lemma_next_combination_len(bits: Seq<Bit>)
    ensures
        spec_next_combination(bits).len() == bits.len(),
    decreases bits.len(),
{
    if bits.len() > 0 {
        lemma_next_combination_len(bits.drop_last());
    }
}

/// Reading back the eight bits of a byte gives the byte.
pub proof fn lemma_bits_round_trip(x: u8)
    ensures
        spec_u8_of_bits(spec_bits_of_u8(x)) == x,
{
    let v = x as int;
    assert(v / 2 / 2 == v / 4);
    assert(v / 4 / 2 == v / 8);
    assert(v / 8 / 2 == v / 16);
    assert(v / 16 / 2 == v / 32);
    assert(v / 32 / 2 == v / 64);
    assert(v / 64 / 2 == v / 128);
    assert(v / 128 < 2);
    assert(v / 1 == v);
    assert(v / 64 == 2 * (v / 128) + (v / 64) % 2);
    assert(v / 32 == 2 * (v / 64) + (v / 32) % 2);
    assert(v / 16 == 2 * (v / 32) + (v / 16) % 2);
    assert(v / 8 == 2 * (v / 16) + (v / 8) % 2);
    assert(v / 4 == 2 * (v / 8) + (v / 4) % 2);
    assert(v / 2 == 2 * (v / 4) + (v / 2) % 2);
    assert(v == 2 * (v / 2) + v % 2);
}

impl Bit {
    pub fn from_bool(x: bool) -> (b: Bit)
        ensures
            b == (if x { Bit::H } else { Bit::L }),
    {
        if x {
            Bit::H
        } else {
            Bit::L
        }
    }

    /// The eight bits of `x`, most significant first.
    pub fn from_u8(x: u8) -> (bits: Vec<Bit>)
        ensures
            bits@ == spec_bits_of_u8(x),
    {
        assert(((x >> 7) & 1 != 0) == ((x / 128) % 2 == 1)) by (bit_vector);
        assert(((x >> 6) & 1 != 0) == ((x / 64) % 2 == 1)) by (bit_vector);
        assert(((x >> 5) & 1 != 0) == ((x / 32) % 2 == 1)) by (bit_vector);
        assert(((x >> 4) & 1 != 0) == ((x / 16) % 2 == 1)) by (bit_vector);
        assert(((x >> 3) & 1 != 0) == ((x / 8) % 2 == 1)) by (bit_vector);
        assert(((x >> 2) & 1 != 0) == ((x / 4) % 2 == 1)) by (bit_vector);
        assert(((x >> 1) & 1 != 0) == ((x / 2) % 2 == 1)) by (bit_vector);
        assert(((x >> 0) & 1 != 0) == ((x / 1) % 2 == 1)) by (bit_vector);
        let bits = vec![
            Bit::from_bool((x >> 7) & 1 != 0),
            Bit::from_bool((x >> 6) & 1 != 0),
            Bit::from_bool((x >> 5) & 1 != 0),
            Bit::from_bool((x >> 4) & 1 != 0),
            Bit::from_bool((x >> 3) & 1 != 0),
            Bit::from_bool((x >> 2) & 1 != 0),
            Bit::from_bool((x >> 1) & 1 != 0),
            Bit::from_bool((x >> 0) & 1 != 0),
        ];
        assert(bits@ =~= spec_bits_of_u8(x));
        bits
    }

    /// 1 for a high bit, 0 for a low or unknown one.
    pub fn weight(self) -> (w: u8)
        ensures
            w == spec_bit_value(self),
    {
        match self {
            Bit::H => 1,
            _ => 0,
        }
    }

    /// The byte whose binary digits, most significant first, are `x`.
    pub fn bit8_into_u8(x: &[Bit]) -> (r: u8)
        requires
            x@.len() == 8,
        ensures
            r == spec_u8_of_bits(x@),
    {
        128 * x[0].weight() + 64 * x[1].weight() + 32 * x[2].weight() + 16 * x[3].weight() + 8
            * x[4].weight() + 4 * x[5].weight() + 2 * x[6].weight() + x[7].weight()
    }
}

/// The combination that follows `x`.
pub fn next_bit_combination(x: &[Bit]) -> (y: Vec<Bit>)
    ensures
        y@ == spec_next_combination(x@),
{
    let mut y: Vec<Bit> = Vec::new();
    let mut k: usize = 0;
    while k < x.len()
        invariant
            k <= x.len(),
            y@ == x@.take(k as int),
        decreases x.len() - k,
    {
        y.push(x[k]);
        k += 1;
        assert(y@ =~= x@.take(k as int));
    }
    assert(x@.take(x@.len() as int) =~= x@);
    let mut i: usize = x.len();
    let mut carry = true;
    while carry && i > 0
        invariant
            i <= x.len(),
            y@.len() == x@.len(),
            y@.take(i as int) == x@.take(i as int),
            carry ==> spec_next_combination(x@) == spec_next_combination(x@.take(i as int))
                + y@.skip(i as int),
            !carry ==> spec_next_combination(x@) == y@,
        decreases i,
    {
        let ghost prev = y@;
        let ghost head = x@.take(i as int);
        i -= 1;
        assert(head.drop_last() =~= x@.take(i as int));
        assert(head.last() == x@[i as int]);
        match x[i] {
            Bit::L => {
                carry = false;
                y[i] = Bit::H;
                assert(y@ =~= head.drop_last().push(Bit::H) + prev.skip(i + 1));
            },
            Bit::H => {
                carry = true;
                y[i] = Bit::L;
                assert(spec_next_combination(head) + prev.skip(i + 1) =~= spec_next_combination(
                    x@.take(i as int),
                ) + y@.skip(i as int));
            },
            Bit::X => {
                carry = true;
                assert(y@ == prev);
                assert(prev[i as int] == head.last());
                assert(spec_next_combination(head) + prev.skip(i + 1) =~= spec_next_combination(
                    x@.take(i as int),
                ) + y@.skip(i as int));
            },
        }
        assert(y@.take(i as int) =~= x@.take(i as int));
    }
    proof {
        if carry {
            assert(x@.take(0) =~= Seq::<Bit>::empty());
            assert(spec_next_combination(x@.take(0)) + y@.skip(0) =~= y@);
        }
    }
    y
}

/// Yields every combination of `n` bits in counting order, from all-low, and
/// starts over after all-high.
pub struct InfiniteInputIterator {
    current: Vec<Bit>,
}

impl InfiniteInputIterator {
    /// The combination that the next call of `next` returns.
    pub closed spec fn current(self) -> Seq<Bit> {
        self.current@
    }

    pub fn new(n: usize) -> (it: Self)
        ensures
            it.current() == spec_all_low(n as nat),
    {
        let current = vec![Bit::L; n];
        assert(current@ =~= spec_all_low(n as nat));
        Self { current }
    }

    /// Returns the current combination and moves on to its successor.
    pub fn next(&mut self) -> (r: Option<Vec<Bit>>)
        ensures
            r is Some,
            r->0@ == old(self).current(),
            final(self).current() == spec_next_combination(old(self).current()),
    {
        let succ = next_bit_combination(self.current.as_slice());
        let mut a = succ;
        std::mem::swap(&mut a, &mut self.current);
        Some(a)
    }
}

/// Like `InfiniteInputIterator`, but yields each combination `max_count`
/// times before it moves on.
#[derive(Debug, Clone)]
pub struct RepInputIterator {
    current: Vec<Bit>,
    count: u32,
    max_count: u32,
}

impl RepInputIterator {
    /// The combination that the next call of `next` returns.
    pub closed spec fn current(self) -> Seq<Bit> {
        self.current@
    }

    /// How many more times `current` is returned before the successor.
    pub closed spec fn remaining(self) -> nat {
        self.count as nat
    }

    /// How many times each combination is returned.
    pub closed spec fn repetitions(self) -> nat {
        self.max_count as nat
    }

    /// The counter runs between 1 and the number of repetitions.
    pub open spec fn wf(self) -> bool {
        1 <= self.remaining() <= self.repetitions()
    }

    pub fn new(n: usize, rep: u32) -> (it: Self)
        requires
            rep >= 1,
        ensures
            it.wf(),
            it.current() == spec_all_low(n as nat),
            it.remaining() == rep,
            it.repetitions() == rep,
    {
        let current = vec![Bit::L; n];
        assert(current@ =~= spec_all_low(n as nat));
        Self { current, count: rep, max_count: rep }
    }

    /// Returns the current combination; after the last repetition moves on to
    /// its successor.
    pub fn next(&mut self) -> (r: Option<Vec<Bit>>)
        requires
            old(self).wf(),
        ensures
            final(self).wf(),
            r is Some,
            r->0@ == old(self).current(),
            final(self).repetitions() == old(self).repetitions(),
            old(self).remaining() == 1 ==> final(self).current() == spec_next_combination(
                old(self).current(),
            ) && final(self).remaining() == old(self).repetitions(),
            old(self).remaining() > 1 ==> final(self).current() == old(self).current()
                && final(self).remaining() == old(self).remaining() - 1,
    {
        let a = self.current.clone();
        assert(a@ =~= self.current@);
        self.count -= 1;
        if self.count == 0 {
            self.current = next_bit_combination(a.as_slice());
            self.count = self.max_count;
        }
        Some(a)
    }
}

} // verus!
