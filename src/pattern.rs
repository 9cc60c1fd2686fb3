use vstd::prelude::*;

use rand::Rng;
use rand::SeedableRng;

use crate::keys::{decimal, key_text};

verus! {

#[verifier::external_type_specification]
#[verifier::external_body]
pub struct ExStdRng(rand::rngs::StdRng);

/// Relies on `rand::SeedableRng::seed_from_u64` for `StdRng`: a generator
/// whose draws are fixed by the seed.
#[verifier::external_body]
fn seeded_rng(seed: u64) -> rand::rngs::StdRng {
    rand::rngs::StdRng::seed_from_u64(seed)
}

/// Relies on `rand::Rng::gen_range` over `lo..hi`: a draw in the half-open
/// range, which must not be empty.
#[verifier::external_body]
fn draw_in(rng: &mut rand::rngs::StdRng, lo: u64, hi: u64) -> (r: u64)
    requires
        lo < hi,
    ensures
        lo <= r < hi,
{
    rng.gen_range(lo..hi)
}

/// How the keys of an access sequence are drawn.
///
/// `Skewed` splits `[1, key_range)` at `key_range * hot_percent / 100` and
/// draws from the lower part `[1, split)` with probability
/// `hot_weight / total_weight`, else from the upper part `[split, key_range)`.
/// Nothing forces the lower part to be the smaller one: with `hot_percent`
/// 80 and a chance of 2 in 9 the minority of draws go to the larger part.
#[derive(Clone, Debug)]
pub enum AccessPattern {
    /// Every key of `[1, key_range)` with the same chance.
    Uniform { key_range: u64 },
    /// Keys of a lower and an upper part of `[1, key_range)`, each part with
    /// its own chance.
    Skewed { key_range: u64, hot_percent: u64, hot_weight: u64, total_weight: u64 },
    /// The same key every time.
    Constant { key: String },
}

impl AccessPattern {
    /// Where `Skewed` splits its range.
    pub open spec fn split_point(key_range: u64, hot_percent: u64) -> int {
        (key_range as int * hot_percent as int) / 100
    }

    /// The pattern can draw: its ranges are not empty and its chance is at
    /// most one.
    pub open spec fn wf(&self) -> bool {
        match *self {
            AccessPattern::Uniform { key_range } => key_range >= 2,
            AccessPattern::Skewed { key_range, hot_percent, hot_weight, total_weight } => {
                &&& hot_percent <= 100
                &&& 2 <= Self::split_point(key_range, hot_percent) < key_range
                &&& 1 <= total_weight
                &&& hot_weight <= total_weight
            },
            AccessPattern::Constant { .. } => true,
        }
    }

    /// The keys that the pattern can draw.
    pub open spec fn allows(&self, key: Seq<char>) -> bool {
        match *self {
            AccessPattern::Uniform { key_range } => exists|n: nat|
                1 <= n < key_range && key == #[trigger] decimal(n),
            AccessPattern::Skewed { key_range, .. } => exists|n: nat|
                1 <= n < key_range && key == #[trigger] decimal(n),
            AccessPattern::Constant { key: k } => key == k@,
        }
    }

    /// Draws one key.
    fn draw(&self, rng: &mut rand::rngs::StdRng) -> (r: String)
        requires
            self.wf(),
        ensures
            self.allows(r@),
    {
        match self {
            AccessPattern::Uniform { key_range } => {
                let n = draw_in(rng, 1, *key_range);
                let r = key_text(n);
                assert(1 <= (n as nat) < *key_range && r@ == decimal(n as nat));
                r
            },
            AccessPattern::Skewed { key_range, hot_percent, hot_weight, total_weight } => {
                let coin = draw_in(rng, 0, *total_weight);
                let (lo, hi) = skewed_bounds(*key_range, *hot_percent, *hot_weight, coin);
                let n = draw_in(rng, lo, hi);
                let r = key_text(n);
                assert(1 <= (n as nat) < *key_range && r@ == decimal(n as nat));
                r
            },
            AccessPattern::Constant { key } => key.clone(),
        }
    }
}

/// The range that a skewed draw takes its key from, given the value `coin`
/// drawn from `[0, total_weight)`: the lower part `[1, split)` when `coin` is
/// below `hot_weight`, else the upper part `[split, key_range)`.
pub fn skewed_bounds(key_range: u64, hot_percent: u64, hot_weight: u64, coin: u64) -> (r: (u64, u64))
    requires
        hot_percent <= 100,
    ensures
        coin < hot_weight ==> r == (1u64, AccessPattern::split_point(key_range, hot_percent) as u64),
        coin >= hot_weight ==> r == (AccessPattern::split_point(key_range, hot_percent) as u64, key_range),
{
    let split = split_of(key_range, hot_percent);
    if coin < hot_weight {
        (1, split)
    } else {
        (split, key_range)
    }
}

/// `key_range * hot_percent / 100`, computed without overflow.
fn split_of(key_range: u64, hot_percent: u64) -> (r: u64)
    requires
        hot_percent <= 100,
    ensures
        r == AccessPattern::split_point(key_range, hot_percent),
        r <= key_range,
{
    let whole = key_range / 100;
    let rest = key_range % 100;
    proof {
        let (k, w, t, h) = (key_range as int, whole as int, rest as int, hot_percent as int);
        assert(k == w * 100 + t);
        assert(k * h == w * h * 100 + t * h) by (nonlinear_arith)
            requires k == w * 100 + t;
        assert((k * h) / 100 == w * h + (t * h) / 100) by (nonlinear_arith)
            requires k * h == w * h * 100 + t * h, t >= 0, h >= 0;
        assert(w * h <= w * 100) by (nonlinear_arith)
            requires h <= 100, w >= 0;
        assert(t * h <= t * 100) by (nonlinear_arith)
            requires h <= 100, t >= 0;
        assert((t * h) / 100 <= t);
    }
    whole * hot_percent + (rest * hot_percent) / 100
}

/// A finite sequence of keys drawn lazily under a pattern: exactly `remaining`
/// more keys, then none. The draws come from a generator seeded at creation.
pub struct KeyStream {
    pattern: AccessPattern,
    remaining: u64,
    rng: rand::rngs::StdRng,
}

impl KeyStream {
    pub closed spec fn pattern(&self) -> AccessPattern {
        self.pattern
    }

    pub closed spec fn remaining(&self) -> nat {
        self.remaining as nat
    }

    pub open spec fn wf(&self) -> bool {
        self.pattern().wf()
    }

    /// A stream of `count` keys under `pattern`, drawn with a generator seeded by `seed`.
    pub fn new(pattern: AccessPattern, count: u64, seed: u64) -> (r: KeyStream)
        requires
            pattern.wf(),
        ensures
            r.wf(),
            r.pattern() == pattern,
            r.remaining() == count,
    {
        KeyStream { pattern, remaining: count, rng: seeded_rng(seed) }
    }

    /// How many keys are left.
    pub fn len(&self) -> (r: u64)
        ensures
            r == self.remaining(),
    {
        self.remaining
    }

    /// The next key, or `None` once the sequence is exhausted.
    pub fn next_key(&mut self) -> (r: Option<String>)
        requires
            old(self).wf(),
        ensures
            final(self).wf(),
            final(self).pattern() == old(self).pattern(),
            old(self).remaining() == 0 ==> r is None && final(self).remaining() == 0,
            old(self).remaining() > 0 ==> {
                &&& r is Some
                &&& old(self).pattern().allows(r->0@)
                &&& final(self).remaining() == old(self).remaining() - 1
            },
    {
        if self.remaining == 0 {
            None
        } else {
            self.remaining = self.remaining - 1;
            Some(self.pattern.draw(&mut self.rng))
        }
    }
}

} // verus!
