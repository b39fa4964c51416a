//! A reproducible pseudo-random generator, shared by the engines.
//!
//! xoshiro256**: small, fast, and the same across runs and machines, which matters more here
//! than statistical pedigree. Draws are 24-bit integers `b`; the uniform they stand for is
//! `(2 b + 1) / 2^25`, strictly inside the unit interval.

use vstd::prelude::*;

verus! {

/// The four words of generator state.
pub struct State {
    pub s0: u64,
    pub s1: u64,
    pub s2: u64,
    pub s3: u64,
}

pub struct Rng {
    s: State,
}

/// The increment between the words that seed the state.
pub const GOLDEN: u64 = 0x9E3779B97F4A7C15;

/// `x` with its bits rotated left by `k`.
pub open spec fn rotated(x: u64, k: u64) -> u64 {
    (x << k) | (x >> ((64 - k) as u64))
}

/// The splitmix64 finaliser, which spreads one word over all its bits.
pub open spec fn mixed(z: u64) -> u64 {
    let x = (z ^ (z >> 30)).wrapping_mul(0xBF58476D1CE4E5B9);
    let y = (x ^ (x >> 27)).wrapping_mul(0x94D049BB133111EB);
    y ^ (y >> 31)
}

/// The state that a seed starts from: four splitmix64 outputs.
pub open spec fn seeded(seed: u64) -> State {
    let z0 = seed.wrapping_add(GOLDEN);
    let z1 = z0.wrapping_add(GOLDEN);
    let z2 = z1.wrapping_add(GOLDEN);
    let z3 = z2.wrapping_add(GOLDEN);
    State { s0: mixed(z0), s1: mixed(z1), s2: mixed(z2), s3: mixed(z3) }
}

/// What a state puts out.
pub open spec fn output(s: State) -> u64 {
    rotated(s.s1.wrapping_mul(5), 7).wrapping_mul(9)
}

/// The state after it.
pub open spec fn stepped(s: State) -> State {
    let a2 = s.s2 ^ s.s0;
    let a3 = s.s3 ^ s.s1;
    State {
        s0: s.s0 ^ a3,
        s1: s.s1 ^ a2,
        s2: a2 ^ (s.s1 << 17),
        s3: rotated(a3, 45),
    }
}

/// The state after `n` steps.
pub open spec fn after(s: State, n: nat) -> State
    decreases n,
{
    if n == 0 {
        s
    } else {
        stepped(after(s, (n - 1) as nat))
    }
}

/// The 24-bit draw that a state stands for.
pub open spec fn draw(s: State) -> u32 {
    (output(s) >> 40) as u32
}

/// The state is not all zeros, in which the generator would stick.
pub open spec fn live(s: State) -> bool {
    s.s0 != 0 || s.s1 != 0 || s.s2 != 0 || s.s3 != 0
}

fn rotate(x: u64, k: u64) -> (r: u64)
    requires
        0 < k < 64,
    ensures
        r == rotated(x, k),
{
    (x << k) | (x >> (64 - k))
}

fn mix(z: u64) -> (r: u64)
    ensures
        r == mixed(z),
{
    let x: u64 = (z ^ (z >> 30)).wrapping_mul(0xBF58476D1CE4E5B9);
    let y: u64 = (x ^ (x >> 27)).wrapping_mul(0x94D049BB133111EB);
    y ^ (y >> 31)
}

impl View for Rng {
    type V = State;

    closed spec fn view(&self) -> State {
        self.s
    }
}

impl Rng {
    /// A generator seeded with `seed`.
    pub fn new(seed: u64) -> (r: Self)
        ensures
            r@ == seeded(seed),
    {
        let z0: u64 = seed.wrapping_add(GOLDEN);
        let z1: u64 = z0.wrapping_add(GOLDEN);
        let z2: u64 = z1.wrapping_add(GOLDEN);
        let z3: u64 = z2.wrapping_add(GOLDEN);
        Rng { s: State { s0: mix(z0), s1: mix(z1), s2: mix(z2), s3: mix(z3) } }
    }

    /// The next 64 bits.
    pub fn next_u64(&mut self) -> (r: u64)
        ensures
            r == output(old(self)@),
            final(self)@ == stepped(old(self)@),
    {
        let s0 = self.s.s0;
        let s1 = self.s.s1;
        let result: u64 = rotate(s1.wrapping_mul(5), 7).wrapping_mul(9);
        let t: u64 = s1 << 17;
        let a2: u64 = self.s.s2 ^ s0;
        let a3: u64 = self.s.s3 ^ s1;
        self.s = State { s0: s0 ^ a3, s1: s1 ^ a2, s2: a2 ^ t, s3: rotate(a3, 45) };
        result
    }

    /// The next 24 bits, the numerator of a uniform draw.
    pub fn next_bits(&mut self) -> (b: u32)
        ensures
            b == draw(old(self)@),
            b < 0x100_0000,
            final(self)@ == stepped(old(self)@),
    {
        let x: u64 = self.next_u64();
        assert(x >> 40 < 0x100_0000) by (bit_vector);
        (x >> 40) as u32
    }

    /// Overwrites every element of `out` with a draw, in order.
    pub fn fill(&mut self, out: &mut Vec<u32>)
        ensures
            final(out)@.len() == old(out)@.len(),
            forall|i: int|
                0 <= i < final(out)@.len() ==> #[trigger] final(out)@[i] == draw(
                    after(old(self)@, i as nat),
                ),
            final(self)@ == after(old(self)@, old(out)@.len()),
    {
        let mut i: usize = 0;
        while i < out.len()
            invariant
                i <= out@.len(),
                out@.len() == old(out)@.len(),
                self@ == after(old(self)@, i as nat),
                forall|j: int|
                    0 <= j < i ==> #[trigger] out@[j] == draw(after(old(self)@, j as nat)),
            decreases out@.len() - i,
        {
            let b: u32 = self.next_bits();
            out.set(i, b);
            i += 1;
        }
    }
}

/// The same seed gives the same stream: what a generator draws is a function of its seed and of
/// the number of draws before.
pub proof fn same_seed_same_stream(a: Rng, b: Rng, seed: u64, n: nat)
    requires
        a@ == seeded(seed),
        b@ == seeded(seed),
    ensures
        output(after(a@, n)) == output(after(b@, n)),
        draw(after(a@, n)) == draw(after(b@, n)),
{
}

/// A draw stays strictly inside the unit interval: `0 < 2 b + 1 < 2^25`.
pub proof fn draws_are_inside_the_unit_interval(s: State)
    ensures
        0 < 2 * draw(s) + 1 < 0x200_0000,
{
    let x = output(s);
    assert(x >> 40 < 0x100_0000) by (bit_vector);
}

/// Multiplying by an odd number keeps different words apart.
proof fn lemma_odd_product(y: u64, z: u64, m: u64, inv: int, k: int)
    requires
        m * inv == 1 + k * 0x1_0000_0000_0000_0000,
        y.wrapping_mul(m) == z.wrapping_mul(m),
    ensures
        y == z,
{
    let q = (y * m) / 0x1_0000_0000_0000_0000 - (z * m) / 0x1_0000_0000_0000_0000;
    let d = y - z;
    assert(y * m - z * m == q * 0x1_0000_0000_0000_0000);
    assert(d * m == y * m - z * m) by (nonlinear_arith)
        requires
            d == y - z,
    ;
    let t = q * inv - d * k;
    assert(d == t * 0x1_0000_0000_0000_0000) by (nonlinear_arith)
        requires
            d * m == q * 0x1_0000_0000_0000_0000,
            m * inv == 1 + k * 0x1_0000_0000_0000_0000,
            t == q * inv - d * k,
    {
        assert((d * m) * inv == d * (m * inv));
        assert((q * 0x1_0000_0000_0000_0000) * inv == (q * inv) * 0x1_0000_0000_0000_0000);
        assert(d * (1 + k * 0x1_0000_0000_0000_0000) == d + (d * k) * 0x1_0000_0000_0000_0000);
    }
    assert(t == 0);
}

/// Mixing keeps different words apart.
pub proof fn mixing_is_injective(v: u64, w: u64)
    requires
        mixed(v) == mixed(w),
    ensures
        v == w,
{
    let (a, c) = (v ^ (v >> 30), w ^ (w >> 30));
    let (x, p) = (a.wrapping_mul(0xBF58476D1CE4E5B9), c.wrapping_mul(0xBF58476D1CE4E5B9));
    let (b, d) = (x ^ (x >> 27), p ^ (p >> 27));
    let (y, q) = (b.wrapping_mul(0x94D049BB133111EB), d.wrapping_mul(0x94D049BB133111EB));
    assert(y ^ (y >> 31) == q ^ (q >> 31) ==> y == q) by (bit_vector);
    lemma_odd_product(b, d, 0x94D049BB133111EB, 0x319642b2d24d8ec3, 0x1cd336eda85f1453);
    assert(x ^ (x >> 27) == p ^ (p >> 27) ==> x == p) by (bit_vector);
    lemma_odd_product(a, c, 0xBF58476D1CE4E5B9, 0x96de1b173f119089, 0x70c3bca78f27f46c);
    assert(v ^ (v >> 30) == w ^ (w >> 30) ==> v == w) by (bit_vector);
}

/// Different seeds start from different states.
pub proof fn different_seeds_start_apart(a: u64, b: u64)
    requires
        a != b,
    ensures
        seeded(a).s0 != seeded(b).s0,
        seeded(a) != seeded(b),
{
    let (v, w) = (a.wrapping_add(GOLDEN), b.wrapping_add(GOLDEN));
    assert(v != w);
    if mixed(v) == mixed(w) {
        mixing_is_injective(v, w);
    }
}

/// The four words that a seed starts from all differ.
pub proof fn a_seed_gives_four_different_words(seed: u64)
    ensures
        ({
            let s = seeded(seed);
            &&& s.s0 != s.s1 && s.s0 != s.s2 && s.s0 != s.s3
            &&& s.s1 != s.s2 && s.s1 != s.s3
            &&& s.s2 != s.s3
        }),
{
    let z0 = seed.wrapping_add(GOLDEN);
    let z1 = z0.wrapping_add(GOLDEN);
    let z2 = z1.wrapping_add(GOLDEN);
    let z3 = z2.wrapping_add(GOLDEN);
    assert(z0 != z1 && z0 != z2 && z0 != z3 && z1 != z2 && z1 != z3 && z2 != z3);
    let zs = seq![z0, z1, z2, z3];
    assert forall|i: int, j: int| 0 <= i < j < 4 implies mixed(#[trigger] zs[i]) != mixed(
        #[trigger] zs[j],
    ) by {
        if mixed(zs[i]) == mixed(zs[j]) {
            mixing_is_injective(zs[i], zs[j]);
        }
    }
    assert(mixed(zs[0]) != mixed(zs[1]) && mixed(zs[0]) != mixed(zs[2]) && mixed(zs[0]) != mixed(
        zs[3],
    ) && mixed(zs[1]) != mixed(zs[2]) && mixed(zs[1]) != mixed(zs[3]) && mixed(zs[2]) != mixed(
        zs[3],
    ));
}

/// No seed starts from the all-zero state, and no step leads into it.
pub proof fn the_state_stays_live(seed: u64, s: State)
    ensures
        live(seeded(seed)),
        live(s) ==> live(stepped(s)),
{
    a_seed_gives_four_different_words(seed);
    let (a, b, c, d) = (s.s0, s.s1, s.s2, s.s3);
    assert((a ^ (d ^ b)) == 0 && (b ^ (c ^ a)) == 0 && ((c ^ a) ^ (b << 17)) == 0 && (((d ^ b)
        << 45u64) | ((d ^ b) >> 19u64)) == 0 ==> a == 0 && b == 0 && c == 0 && d == 0)
        by (bit_vector);
}

/// What one mixing step is undone by: multiplying by the inverse of an odd number.
proof fn lemma_unmultiplied(y: u64, m: u64, inv: u64, k: int)
    requires
        m * inv == 1 + k * 0x1_0000_0000_0000_0000,
    ensures
        y.wrapping_mul(m).wrapping_mul(inv) == y,
{
    let w = 0x1_0000_0000_0000_0000int;
    let q = (y * m) / w;
    let r = (y * m) % w;
    assert(y.wrapping_mul(m) == r);
    assert(r * inv == y + (y * k - q * inv) * w) by (nonlinear_arith)
        requires
            y * m == q * w + r,
            m * inv == 1 + k * w,
    {
        assert((y * m) * inv == y * (m * inv));
        assert((q * w + r) * inv == (q * inv) * w + r * inv);
        assert(y * (1 + k * w) == y + (y * k) * w);
    }
    vstd::arithmetic::div_mod::lemma_fundamental_div_mod_converse_mod(
        r * inv,
        w,
        y * k - q * inv,
        y as int,
    );
}

/// The word that a mixed word was made from.
pub open spec fn unmixed(w: u64) -> u64 {
    let y = w ^ (w >> 31) ^ (w >> 62);
    let b = y.wrapping_mul(0x319642B2D24D8EC3);
    let x = b ^ (b >> 27) ^ (b >> 54);
    let a = x.wrapping_mul(0x96DE1B173F119089);
    a ^ (a >> 30) ^ (a >> 60)
}

/// Mixing can be undone.
pub proof fn mixing_can_be_undone(z: u64)
    ensures
        unmixed(mixed(z)) == z,
{
    let a = z ^ (z >> 30);
    let x = a.wrapping_mul(0xBF58476D1CE4E5B9);
    let b = x ^ (x >> 27);
    let y = b.wrapping_mul(0x94D049BB133111EB);
    let w = y ^ (y >> 31);
    assert(w ^ (w >> 31) ^ (w >> 62) == y) by (bit_vector)
        requires
            w == y ^ (y >> 31),
    ;
    lemma_unmultiplied(b, 0x94D049BB133111EB, 0x319642B2D24D8EC3, 0x1CD336EDA85F1453);
    assert(b ^ (b >> 27) ^ (b >> 54) == x) by (bit_vector)
        requires
            b == x ^ (x >> 27),
    ;
    lemma_unmultiplied(a, 0xBF58476D1CE4E5B9, 0x96DE1B173F119089, 0x70C3BCA78F27F46C);
    assert(a ^ (a >> 30) ^ (a >> 60) == z) by (bit_vector)
        requires
            a == z ^ (z >> 30),
    ;
}

/// The words that a seed starts from are mixed from the numbers one, two, three and four steps
/// behind it.
pub proof fn a_seed_is_stepped_and_mixed(seed: u64)
    ensures
        unmixed(seeded(seed).s0) == (seed + 0x9E3779B97F4A7C15) % 0x1_0000_0000_0000_0000,
        unmixed(seeded(seed).s1) == (seed + 2 * 0x9E3779B97F4A7C15) % 0x1_0000_0000_0000_0000,
        unmixed(seeded(seed).s2) == (seed + 3 * 0x9E3779B97F4A7C15) % 0x1_0000_0000_0000_0000,
        unmixed(seeded(seed).s3) == (seed + 4 * 0x9E3779B97F4A7C15) % 0x1_0000_0000_0000_0000,
{
    let z0 = seed.wrapping_add(GOLDEN);
    let z1 = z0.wrapping_add(GOLDEN);
    let z2 = z1.wrapping_add(GOLDEN);
    let z3 = z2.wrapping_add(GOLDEN);
    mixing_can_be_undone(z0);
    mixing_can_be_undone(z1);
    mixing_can_be_undone(z2);
    mixing_can_be_undone(z3);
}

/// A step folds the words of the state into each other: two of them change by the difference of
/// their neighbours, one takes in another shifted by 17 bits, and one is turned by 45 bits.
pub proof fn a_step_folds_the_words(s: State)
    ensures
        stepped(s).s0 ^ s.s0 == s.s1 ^ s.s3,
        stepped(s).s1 ^ s.s1 == s.s0 ^ s.s2,
        stepped(s).s2 ^ s.s0 ^ s.s2 == s.s1 << 17,
        (stepped(s).s3 >> 45) | (stepped(s).s3 << 19) == s.s1 ^ s.s3,
{
    let (a, b, c, d) = (s.s0, s.s1, s.s2, s.s3);
    assert((a ^ (d ^ b)) ^ a == b ^ d) by (bit_vector);
    assert((b ^ (c ^ a)) ^ b == a ^ c) by (bit_vector);
    assert(((c ^ a) ^ (b << 17)) ^ a ^ c == b << 17) by (bit_vector);
    let e = d ^ b;
    let t = (e << 45u64) | (e >> 19u64);
    assert((t >> 45) | (t << 19) == e) by (bit_vector)
        requires
            t == (e << 45u64) | (e >> 19u64),
    ;
    assert(d ^ b == b ^ d) by (bit_vector);
}

/// What a state puts out is its second word times five, turned left by seven bits, times nine.
pub proof fn an_output_is_scaled_and_turned(s: State)
    ensures
        ({
            let x = (5 * s.s1) % 0x1_0000_0000_0000_0000;
            let turned = (128 * x) % 0x1_0000_0000_0000_0000 + x / 0x200_0000_0000_0000;
            output(s) == (9 * turned) % 0x1_0000_0000_0000_0000
        }),
{
    let x = s.s1.wrapping_mul(5);
    assert(x == (5 * s.s1) % 0x1_0000_0000_0000_0000);
    let t = rotated(x, 7);
    assert(t == (128 * x) % 0x1_0000_0000_0000_0000 + x / 0x200_0000_0000_0000) by {
        assert(((x << 7u64) | (x >> 57u64)) == (128 * x) % 0x1_0000_0000_0000_0000 + x
            / 0x200_0000_0000_0000) by (bit_vector);
    }
}

/// A draw is the top 24 bits of the output.
pub proof fn a_draw_is_the_top_of_the_output(s: State)
    ensures
        draw(s) == output(s) / 0x100_0000_0000,
{
    let x = output(s);
    assert(x >> 40 == x / 0x100_0000_0000 && x >> 40 < 0x100_0000) by (bit_vector);
}

} // verus!
