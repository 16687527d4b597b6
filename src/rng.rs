//! A byte generator after the Middle Square Weyl Sequence method, on 8-bit state.
use vstd::arithmetic::div_mod::{lemma_add_mod_noop, lemma_small_mod};
use vstd::prelude::*;

verus! {

/// Sum of two bytes, modulo 256.
pub open spec fn add8(a: u8, b: u8) -> u8 {
    ((a + b) % 256) as u8
}

/// Square of a byte, modulo 256.
pub open spec fn square8(a: u8) -> u8 {
    ((a * a) % 256) as u8
}

/// The byte with the high and the low nibble of `x` exchanged.
pub open spec fn nibble_swap(x: u8) -> u8 {
    ((x % 16) * 16 + x / 16) as u8
}

/// Weyl and square terms after `k` steps from `(weyl, state)`, with increment `seed`.
pub open spec fn advance(seed: u8, weyl: u8, state: u8, k: nat) -> (u8, u8)
    decreases k,
{
    if k == 0 {
        (weyl, state)
    } else {
        let (w, x) = advance(seed, weyl, state, (k - 1) as nat);
        let w1 = add8(w, seed);
        (w1, add8(square8(x), w1))
    }
}

/// The first `n` bytes returned from the state `(seed, weyl, state)`: the `i`-th is
/// the nibble swap of the square term after `i + 1` steps.
pub open spec fn output_stream(seed: u8, weyl: u8, state: u8, n: nat) -> Seq<u8> {
    Seq::new(n, |i: int| nibble_swap(advance(seed, weyl, state, (i + 1) as nat).1))
}

#[verifier::external_type_specification]
#[verifier::external_body]
pub struct ExSystemTime(std::time::SystemTime);

/// Relies on `Duration::subsec_nanos`: the fractional part of a second, in
/// nanoseconds, which is below one billion.
pub assume_specification[ core::time::Duration::subsec_nanos ](d: &core::time::Duration) -> (r:
    u32)
    ensures
        r < 1_000_000_000,
;

/// Relies on `SystemTime::now`: reads the system clock. Nothing is known of the value.
#[verifier::external_body]
fn clock_now() -> std::time::SystemTime {
    std::time::SystemTime::now()
}

/// Relies on `SystemTime::duration_since`: the time elapsed since the Unix epoch,
/// `None` where the clock stands before it.
#[verifier::external_body]
fn since_unix_epoch(t: &std::time::SystemTime) -> Option<core::time::Duration> {
    t.duration_since(std::time::UNIX_EPOCH).ok()
}

proof fn lemma_nibble_swap_injective(a: u8, b: u8)
    ensures
        nibble_swap(a) == nibble_swap(b) ==> a == b,
{
    assert(((a % 16) * 16 + a / 16) as u8 == ((b % 16) * 16 + b / 16) as u8 ==> a == b)
        by (bit_vector);
}

/// After `k` steps the Weyl term has advanced by `k` times the increment, modulo 256.
pub proof fn lemma_weyl_after(seed: u8, weyl: u8, state: u8, k: nat)
    ensures
        advance(seed, weyl, state, k).0 == (weyl + k * seed) % 256,
    decreases k,
{
    if k == 0 {
        lemma_small_mod(weyl as nat, 256);
    } else {
        let k1 = (k - 1) as nat;
        lemma_weyl_after(seed, weyl, state, k1);
        lemma_add_mod_noop(weyl + k1 * seed, seed as int, 256);
        lemma_small_mod(seed as nat, 256);
        assert(weyl + k1 * seed + seed == weyl + k * seed) by (nonlinear_arith)
            requires
                k1 + 1 == k,
        ;
    }
}

proof fn lemma_weyl_gap(seed: u8, weyl: u8, state: u8, k: nat, p: nat)
    requires
        1 <= p <= 3,
        seed != 0,
        seed != 128,
    ensures
        advance(seed, weyl, state, k).0 != advance(seed, weyl, state, k + p).0,
{
    lemma_weyl_after(seed, weyl, state, k);
    lemma_weyl_after(seed, weyl, state, k + p);
    let x: int = weyl + k * seed;
    assert(x + p * seed == weyl + (k + p) * seed) by (nonlinear_arith)
        requires
            x == weyl + k * seed,
    ;
    lemma_add_mod_noop(x, p * seed, 256);
    let a = (x % 256) as u8;
    let c = ((p * seed) % 256) as u8;
    if p == 1 {
        assert(c != 0);
    } else if p == 2 {
        assert(((2 * seed) % 256) as u8 != 0) by (bit_vector)
            requires
                seed != 0,
                seed != 128,
        ;
    } else {
        assert(((3 * seed) % 256) as u8 != 0) by (bit_vector)
            requires
                seed != 0,
        ;
    }
    assert(c != 0 ==> (a + c) % 256 != a) by (bit_vector);
}

/// Middle Square Weyl Sequence generator on bytes.
pub struct Rng {
    seed: u8,
    w: u8,
    x: u8,
}

impl Rng {
    /// The increment added to the Weyl term at each step; fixed at construction.
    pub closed spec fn seed(&self) -> u8 {
        self.seed
    }

    /// The Weyl term.
    pub closed spec fn weyl(&self) -> u8 {
        self.w
    }

    /// The square term, kept as it was before the nibble swap of the output.
    pub closed spec fn state(&self) -> u8 {
        self.x
    }

    /// The next `n` bytes this generator returns.
    pub open spec fn stream(&self, n: nat) -> Seq<u8> {
        output_stream(self.seed(), self.weyl(), self.state(), n)
    }

    /// A generator that has not yet stepped, with increment `seed`.
    pub open spec fn is_fresh(&self, seed: u8) -> bool {
        self.seed() == seed && self.weyl() == 0 && self.state() == 0
    }

    /// Generate a new Rng seeded with the provided value.
    pub fn new(seed: u8) -> (r: Rng)
        ensures
            r.is_fresh(seed),
    {
        Rng { seed, w: 0, x: 0 }
    }

    /// A generator seeded with the low 8 bits of a sub-second nanosecond count.
    pub fn from_subsec_nanos(nanos: u32) -> (r: Rng)
        ensures
            r.is_fresh((nanos % 256) as u8),
    {
        Rng::new((nanos % 256) as u8)
    }

    /// Generate a Rng seeded from the clock: the low 8 bits of the nanoseconds
    /// past the current second since the Unix epoch. A clock set before the
    /// epoch gives the seed 0.
    pub fn default() -> (r: Rng)
        ensures
            r.weyl() == 0,
            r.state() == 0,
    {
        let now = clock_now();
        let nanos: u32 = match since_unix_epoch(&now) {
            Some(d) => d.subsec_nanos(),
            None => 0,
        };
        Rng::from_subsec_nanos(nanos)
    }

    /// Calculates the next random value in the sequence.
    pub fn next(&mut self) -> (r: u8)
        ensures
            final(self).seed() == old(self).seed(),
            final(self).weyl() == add8(old(self).weyl(), old(self).seed()),
            final(self).state() == add8(square8(old(self).state()), final(self).weyl()),
            r == nibble_swap(final(self).state()),
    {
        self.w = self.w.wrapping_add(self.seed);
        self.x = self.x.wrapping_mul(self.x);
        self.x = self.x.wrapping_add(self.w);
        let x = self.x;
        let r = (x >> 4) | (x << 4);
        assert(r == nibble_swap(x)) by (bit_vector)
            requires
                r == (x >> 4) | (x << 4),
        ;
        r
    }
}

/// Two generators made with the same seed return the same bytes, however many
/// are drawn.
pub proof fn lemma_same_seed_same_stream(seed: u8, a: Rng, b: Rng, n: nat)
    requires
        a.is_fresh(seed),
        b.is_fresh(seed),
    ensures
        a.stream(n) == b.stream(n),
{
}

/// The stream of a generator is what its calls of `next` return: the first byte
/// is the result of one call, and the rest is the stream of the generator after it.
pub proof fn lemma_next_heads_stream(before: Rng, after: Rng, r: u8, n: nat)
    requires
        after.seed() == before.seed(),
        after.weyl() == add8(before.weyl(), before.seed()),
        after.state() == add8(square8(before.state()), after.weyl()),
        r == nibble_swap(after.state()),
    ensures
        before.stream(n + 1) == seq![r] + after.stream(n),
{
    let s = before.seed();
    let (w, x) = (before.weyl(), before.state());
    assert(advance(s, w, x, 0) == (w, x));
    assert(advance(s, w, x, 1) == (after.weyl(), after.state()));
    assert forall|k: nat| #[trigger] advance(s, w, x, k + 1) == advance(
        s,
        after.weyl(),
        after.state(),
        k,
    ) by {
        lemma_advance_shift(s, w, x, k);
    }
    let lhs = before.stream(n + 1);
    let rhs = seq![r] + after.stream(n);
    assert forall|i: int| 0 <= i < n + 1 implies lhs[i] == rhs[i] by {
        if i > 0 {
            assert(advance(s, w, x, ((i - 1) as nat + 1) as nat) == advance(
                s,
                after.weyl(),
                after.state(),
                (i - 1) as nat,
            ));
        }
    }
    assert(lhs =~= rhs);
}

proof fn lemma_advance_shift(seed: u8, weyl: u8, state: u8, k: nat)
    ensures
        ({
            let (w1, x1) = advance(seed, weyl, state, 1);
            advance(seed, weyl, state, k + 1) == advance(seed, w1, x1, k)
        }),
    decreases k,
{
    if k > 0 {
        lemma_advance_shift(seed, weyl, state, (k - 1) as nat);
    }
}

/// With any increment but 0 and 128 the output never settles into a cycle shorter
/// than four bytes: at no position do two consecutive bytes come again `p` places
/// later, for `p` of 1, 2 or 3.
pub proof fn lemma_no_short_cycle(g: Rng, n: nat, i: int, p: int)
    requires
        g.seed() != 0,
        g.seed() != 128,
        1 <= p <= 3,
        0 <= i,
        i + p + 1 < n,
    ensures
        !(g.stream(n)[i] == g.stream(n)[i + p] && g.stream(n)[i + 1] == g.stream(n)[i + p + 1]),
{
    let (s, w, x) = (g.seed(), g.weyl(), g.state());
    let k = (i + 1) as nat;
    let a = advance(s, w, x, k);
    let b = advance(s, w, x, k + p as nat);
    let a1 = advance(s, w, x, k + 1);
    let b1 = advance(s, w, x, k + p as nat + 1);
    let out = g.stream(n);
    assert(out[i] == nibble_swap(a.1));
    assert(out[i + p] == nibble_swap(b.1));
    assert(out[i + 1] == nibble_swap(a1.1));
    assert(out[i + p + 1] == nibble_swap(b1.1));
    lemma_weyl_gap(s, w, x, k, p as nat);
    if out[i] == out[i + p] {
        lemma_nibble_swap_injective(a.1, b.1);
        lemma_nibble_swap_injective(a1.1, b1.1);
        let q = square8(a.1);
        let (aw, bw) = (a.0, b.0);
        assert(add8(q, add8(aw, s)) == add8(q, add8(bw, s)) ==> aw == bw) by (bit_vector);
    }
}

} // verus!
