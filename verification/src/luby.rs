//! The Luby restart schedule `1, 1, 2, 1, 1, 2, 4, 1, 1, 2, 1, 1, 2, 4, 8, ...`.

use vstd::prelude::*;

verus! {

/// Two to the power `k`.
pub open spec fn pow2(k: nat) -> nat
    decreases k,
{
    if k == 0 {
        1
    } else {
        2 * pow2((k - 1) as nat)
    }
}

/// The smallest `j >= k` whose block end `2^j - 1` reaches `n`.
pub open spec fn block_of(n: nat, k: nat) -> nat
    decreases n - k,
{
    if pow2(k) >= n + 1 || k >= n {
        k
    } else {
        block_of(n, k + 1)
    }
}

/// The `n`-th term of the Luby sequence, counted from one: a block that
/// ends at `2^k - 1` closes with `2^(k-1)`, and everything before that
/// end repeats the sequence from its start.
pub open spec fn luby(n: nat) -> nat
    decreases n,
{
    let k = block_of(n, 1);
    if n == 0 {
        0
    } else if n + 1 == pow2(k) {
        pow2((k - 1) as nat)
    } else if 2 <= pow2((k - 1) as nat) <= n {
        luby((n + 1 - pow2((k - 1) as nat)) as nat)
    } else {
        0
    }
}

pub proof fn lemma_pow2_positive(k: nat)
    ensures
        pow2(k) >= k + 1,
        k >= 1 ==> pow2(k) >= 2,
    decreases k,
{
    if k > 0 {
        lemma_pow2_positive((k - 1) as nat);
    }
}

/// `block_of(n, k)` is the first block end at or after `n`, searched from `k`.
pub proof fn lemma_block_of(n: nat, k: nat)
    requires
        k >= 1,
        pow2((k - 1) as nat) < n + 1,
    ensures
        block_of(n, k) >= k,
        pow2(block_of(n, k)) >= n + 1,
        pow2((block_of(n, k) - 1) as nat) < n + 1,
    decreases n - k,
{
    lemma_pow2_positive(k);
    if pow2(k) < n + 1 {
        lemma_block_of(n, k + 1);
    }
}

/// Every term is at least one and no larger than its index.
pub proof fn lemma_luby_bounds(n: nat)
    requires
        n >= 1,
    ensures
        1 <= luby(n) <= n,
    decreases n,
{
    lemma_block_of(n, 1);
    let k = block_of(n, 1);
    lemma_pow2_positive((k - 1) as nat);
    if n + 1 != pow2(k) {
        if k == 1 {
            assert(pow2(1) == 2 * pow2(0));
            assert(false);
        }
        lemma_pow2_positive((k - 1) as nat);
        lemma_luby_bounds((n + 1 - pow2((k - 1) as nat)) as nat);
    }
}

/// The `n`-th Luby term, `n` counted from one.
pub fn luby_term(n: u64) -> (r: u64)
    requires
        n >= 1,
    ensures
        r == luby(n as nat),
    decreases n,
{
    let mut k: u64 = 1;
    let mut end: u64 = 1;
    proof {
        assert(pow2(1) == 2 * pow2(0));
        lemma_block_of(n as nat, 1);
    }
    while end < n
        invariant
            1 <= k <= 64,
            end + 1 == pow2(k as nat),
            pow2((k - 1) as nat) < n + 1,
            block_of(n as nat, k as nat) == block_of(n as nat, 1),
        decreases 64 - k,
    {
        proof {
            lemma_pow2_positive(k as nat);
            lemma_pow2_63(k as nat, end as nat);
        }
        end = 2 * end + 1;
        k = k + 1;
    }
    proof {
        lemma_pow2_positive((k - 1) as nat);
        lemma_luby_bounds(n as nat);
    }
    if n == end {
        end / 2 + 1
    } else {
        luby_term(n - end / 2)
    }
}

/// A block end below a 64-bit value can be doubled without overflow.
proof fn lemma_pow2_63(k: nat, end: nat)
    requires
        1 <= k <= 64,
        end + 1 == pow2(k),
        end < u64::MAX,
    ensures
        k < 64,
        2 * end + 1 <= u64::MAX,
{
    lemma_pow2_64();
    if k == 64 {
        assert(false);
    }
    lemma_pow2_monotone(k, 63);
}

proof fn lemma_pow2_monotone(a: nat, b: nat)
    requires
        a <= b,
    ensures
        pow2(a) <= pow2(b),
    decreases b,
{
    if a < b {
        lemma_pow2_monotone(a, (b - 1) as nat);
    }
}

proof fn lemma_pow2_64()
    ensures
        pow2(64) == 0x1_0000_0000_0000_0000,
        pow2(63) == 0x8000_0000_0000_0000,
{
    reveal_with_fuel(pow2, 65);
}

/// Luby terms scaled by a unit run length.
#[derive(Clone, Debug)]
pub struct Luby {
    u: u64,
    i: u64,
}

impl Luby {
    /// The unit run length.
    pub closed spec fn unit(&self) -> nat {
        self.u as nat
    }

    /// The index of the current term, counted from one.
    pub closed spec fn index(&self) -> nat {
        self.i as nat
    }

    /// The value of the schedule at its current term: the unit times the
    /// term, or the largest number that can be counted where that is
    /// less.
    pub open spec fn reach(&self) -> nat {
        if self.unit() * luby(self.index()) <= u64::MAX {
            self.unit() * luby(self.index())
        } else {
            u64::MAX as nat
        }
    }

    /// The index is a valid position of the sequence.
    pub closed spec fn wf(&self) -> bool {
        self.i >= 1
    }

    /// The schedule at its first term.
    pub fn new(unit_run: u64) -> (r: Self)
        ensures
            r.wf(),
            r.unit() == unit_run,
            r.index() == 1,
    {
        Self { u: unit_run, i: 1 }
    }

    /// The current term times the unit, held at `u64::MAX` where the
    /// product does not fit.
    pub fn value(&self) -> (r: u64)
        requires
            self.wf(),
        ensures
            r == if self.unit() * luby(self.index()) <= u64::MAX {
                self.unit() * luby(self.index())
            } else {
                u64::MAX as nat
            },
    {
        let t: u64 = luby_term(self.i);
        match self.u.checked_mul(t) {
            Some(v) => v,
            None => u64::MAX,
        }
    }

    /// Moves to the next term and returns its scaled value; the index
    /// stays where it is once it has reached `u64::MAX`.
    pub fn next(&mut self) -> (r: Option<u64>)
        requires
            old(self).wf(),
        ensures
            final(self).wf(),
            final(self).unit() == old(self).unit(),
            final(self).index() == if old(self).index() < u64::MAX {
                old(self).index() + 1
            } else {
                old(self).index()
            },
            r == Some(
                if final(self).unit() * luby(final(self).index()) <= u64::MAX {
                    (final(self).unit() * luby(final(self).index())) as u64
                } else {
                    u64::MAX
                },
            ),
    {
        if self.i < u64::MAX {
            self.i = self.i + 1;
        }
        Some(self.value())
    }
}

} // verus!
