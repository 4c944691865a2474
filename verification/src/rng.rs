//! A small deterministic stream of numbers for the simulators. Not for cryptography.

use vstd::prelude::*;

verus! {

/// What the state advances by with each number drawn.
pub const STRIDE: u64 = 0x9E37_79B9_7F4A_7C15;

/// How many equal parts the unit interval is cut into by [`Rng::part`].
pub const PARTS: u64 = 0x20_0000_0000_0000;

/// The number a state gives: two rounds of shift, exclusive-or and multiply, and a last shift.
pub open spec fn scrambled(state: u64) -> u64 {
    let a = (state ^ (state >> 30)).wrapping_mul(0xBF58_476D_1CE4_E5B9);
    let b = (a ^ (a >> 27)).wrapping_mul(0x94D0_49BB_1331_11EB);
    b ^ (b >> 31)
}

/// A SplitMix64 generator.
#[derive(Clone, Copy, Debug, PartialEq, Eq, Structural)]
pub struct Rng {
    /// The state the next number is drawn from.
    pub state: u64,
}

impl Rng {
    /// The generator after `n` numbers have been drawn.
    pub open spec fn after(self, n: nat) -> Rng
        decreases n,
    {
        if n == 0 {
            self
        } else {
            self.skip().after((n - 1) as nat)
        }
    }

    /// The next number the generator gives.
    pub open spec fn peek(self) -> u64 {
        scrambled(self.state.wrapping_add(STRIDE))
    }

    /// The next part of the unit interval the generator gives.
    pub open spec fn peek_part(self) -> u64 {
        self.peek() >> 11
    }

    /// The generator after one number has been drawn.
    pub open spec fn skip(self) -> Rng {
        Rng { state: self.state.wrapping_add(STRIDE) }
    }

    /// Drawing one more number last is drawing one more first.
    pub proof fn lemma_one_more(self, n: nat)
        ensures
            self.after(n).skip() == self.after(n + 1),
        decreases n,
    {
        if n > 0 {
            self.skip().lemma_one_more((n - 1) as nat);
        } else {
            reveal_with_fuel(Rng::after, 2);
        }
    }

    /// A generator that starts at `seed`.
    #[must_use]
    pub fn new(seed: u64) -> (rng: Self)
        ensures
            rng.state == seed,
    {
        Rng { state: seed }
    }

    /// The next number.
    pub fn next_u64(&mut self) -> (x: u64)
        ensures
            x == old(self).peek(),
            *final(self) == old(self).skip(),
    {
        self.state = self.state.wrapping_add(STRIDE);
        let mut z: u64 = self.state;
        z = (z ^ (z >> 30)).wrapping_mul(0xBF58_476D_1CE4_E5B9);
        z = (z ^ (z >> 27)).wrapping_mul(0x94D0_49BB_1331_11EB);
        z ^ (z >> 31)
    }

    /// A part of the unit interval, evenly: `part / PARTS` lies in `[0, 1)`.
    pub fn part(&mut self) -> (part: u64)
        ensures
            part == old(self).peek_part(),
            part < PARTS,
            *final(self) == old(self).skip(),
    {
        let x: u64 = self.next_u64();
        assert(x >> 11 < 0x20_0000_0000_0000) by (bit_vector);
        x >> 11
    }

    /// A number below `n`.
    pub fn below(&mut self, n: usize) -> (x: usize)
        requires
            n > 0,
        ensures
            x == old(self).peek() % (n as u64),
            x < n,
            *final(self) == old(self).skip(),
    {
        (self.next_u64() % (n as u64)) as usize
    }

    /// Whether a message gets through a network that loses `loss` out of every `PARTS`.
    pub fn delivers(&mut self, loss: u64) -> (through: bool)
        ensures
            through == (old(self).peek_part() >= loss),
            *final(self) == old(self).skip(),
            loss == 0 ==> through,
            loss >= PARTS ==> !through,
    {
        self.part() >= loss
    }
}

/// A part is a number's place among `PARTS` equal stretches of all numbers, lowest first.
pub proof fn law_a_part_is_a_numbers_place(rng: Rng)
    ensures
        rng.peek_part() * 2048 <= rng.peek() < (rng.peek_part() + 1) * 2048,
        rng.peek_part() < PARTS,
        PARTS * 2048 == u64::MAX + 1,
{
    let x = rng.peek();
    assert((x >> 11) * 2048 <= x < ((x >> 11) + 1) * 2048 && x >> 11 < 0x20_0000_0000_0000)
        by (bit_vector);
}

/// Each number drawn moves the state on by one stride, round the end of the figures.
pub proof fn law_the_state_moves_on_by_a_stride(rng: Rng, n: nat)
    ensures
        (rng.after(n).state - (rng.state + n * STRIDE)) % 0x1_0000_0000_0000_0000 == 0,
    decreases n,
{
    if n > 0 {
        law_the_state_moves_on_by_a_stride(rng.skip(), (n - 1) as nat);
        assert(n * STRIDE == (n - 1) * STRIDE + STRIDE) by (nonlinear_arith);
        let far = rng.after(n).state - (rng.skip().state + (n - 1) * STRIDE);
        let near = rng.after(n).state - (rng.state + n * STRIDE);
        assert(near == far || near == far - 0x1_0000_0000_0000_0000);
    } else {
        assert(n * STRIDE == 0) by (nonlinear_arith)
            requires
                n == 0,
        ;
    }
}

/// Multiplying by a number that has an inverse, round the end of the figures, can be undone.
proof fn lemma_times_can_be_undone(x: u64, y: u64, by: int, back: int, round: int)
    requires
        by * back == 1 + round * 0x1_0000_0000_0000_0000,
        (x * by) % 0x1_0000_0000_0000_0000 == (y * by) % 0x1_0000_0000_0000_0000,
    ensures
        x == y,
{
    let m = 0x1_0000_0000_0000_0000;
    let (p, q) = (x * by / m, y * by / m);
    vstd::arithmetic::div_mod::lemma_fundamental_div_mod(x * by, m);
    vstd::arithmetic::div_mod::lemma_fundamental_div_mod(y * by, m);
    let t = (p - q) * back - (x - y) * round;
    assert(x * by - y * by == m * p - m * q);
    assert(x - y == m * t) by (nonlinear_arith)
        requires
            x * by - y * by == m * p - m * q,
            by * back == 1 + round * m,
            t == (p - q) * back - (x - y) * round,
    {
        assert((x * by - y * by) * back == (m * p - m * q) * back);
        assert((x * by - y * by) * back == (x - y) * (by * back));
        assert((x - y) * (1 + round * m) == (x - y) + m * ((x - y) * round));
        assert((m * p - m * q) * back == m * ((p - q) * back));
        assert(m * ((p - q) * back - (x - y) * round) == m * ((p - q) * back) - m * ((x - y)
            * round));
    }
    assert(m == 0x1_0000_0000_0000_0000);
}

/// No two states give the same number.
pub proof fn law_different_states_give_different_numbers(a: Rng, b: Rng)
    requires
        a.peek() == b.peek(),
    ensures
        a == b,
{
    let (s, t) = (a.state.wrapping_add(STRIDE), b.state.wrapping_add(STRIDE));
    let (p, q) = (s ^ (s >> 30), t ^ (t >> 30));
    let (x, y) = (
        p.wrapping_mul(0xBF58_476D_1CE4_E5B9),
        q.wrapping_mul(0xBF58_476D_1CE4_E5B9),
    );
    let (v, w) = (x ^ (x >> 27), y ^ (y >> 27));
    let (j, k) = (
        v.wrapping_mul(0x94D0_49BB_1331_11EB),
        w.wrapping_mul(0x94D0_49BB_1331_11EB),
    );
    assert(j == k) by (bit_vector)
        requires
            j ^ (j >> 31) == k ^ (k >> 31),
    ;
    lemma_times_can_be_undone(
        v,
        w,
        0x94D0_49BB_1331_11EB,
        0x3196_42B2_D24D_8EC3,
        2077064247507883091,
    );
    assert(x == y) by (bit_vector)
        requires
            x ^ (x >> 27) == y ^ (y >> 27),
    ;
    lemma_times_can_be_undone(
        p,
        q,
        0xBF58_476D_1CE4_E5B9,
        0x96DE_1B17_3F11_9089,
        8125545580553827436,
    );
    assert(s == t) by (bit_vector)
        requires
            s ^ (s >> 30) == t ^ (t >> 30),
    ;
}

} // verus!
