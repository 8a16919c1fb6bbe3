//! The level of a new node: drawn from a geometric distribution in which
//! each further level is reached with probability 1/4, capped at
//! `MAX_LEVEL`.

use vstd::prelude::*;

verus! {

/// The number of lanes a skip list has room for; no node is taller.
pub const MAX_LEVEL: usize = 29;

/// The level drawn from `bits`: one more than the number of all-zero
/// two-bit groups at the low end of `bits`, at most `cap`. Each group is
/// all zero with probability 1/4, so uniformly random bits draw level
/// `k` or more with probability `4^-(k-1)`.
pub open spec fn level_of_bits(bits: nat, cap: nat) -> nat
    decreases cap,
{
    if cap <= 1 || bits % 4 != 0 {
        1
    } else {
        1 + level_of_bits(bits / 4, (cap - 1) as nat)
    }
}

/// A drawn level lies between 1 and the cap.
pub proof fn lemma_level_of_bits_range(bits: nat, cap: nat)
    requires
        cap >= 1,
    ensures
        1 <= level_of_bits(bits, cap) <= cap,
    decreases cap,
{
    if cap > 1 && bits % 4 == 0 {
        lemma_level_of_bits_range(bits / 4, (cap - 1) as nat);
    }
}

/// `4` to the power `e`.
pub open spec fn pow4(e: nat) -> nat
    decreases e,
{
    if e == 0 {
        1
    } else {
        4 * pow4((e - 1) as nat)
    }
}

/// Bits draw level `k` or more exactly when their low `2 (k - 1)` bits are
/// all zero, that is when `4^(k-1)` divides them. Of `4^n` equally likely
/// values, `4^(n-k+1)` do so: uniformly random bits draw level `k` or more
/// with probability `4^-(k-1)`.
pub proof fn law_level_threshold(bits: nat, cap: nat, k: nat)
    requires
        1 <= k <= cap,
    ensures
        level_of_bits(bits, cap) >= k <==> bits % pow4((k - 1) as nat) == 0,
    decreases k,
{
    if k > 1 {
        let m = pow4((k - 2) as nat);
        assert(m > 0) by {
            lemma_pow4_positive((k - 2) as nat);
        }
        assert(pow4((k - 1) as nat) == 4 * m);
        vstd::arithmetic::div_mod::lemma_mod_breakdown(bits as int, 4, m as int);
        law_level_threshold(bits / 4, (cap - 1) as nat, (k - 1) as nat);
        assert((bits as int) % (4 * (m as int)) == 4 * ((bits as int / 4) % (m as int)) + (bits as int) % 4);
    }
}

proof fn lemma_pow4_positive(e: nat)
    ensures
        pow4(e) > 0,
    decreases e,
{
    if e > 0 {
        lemma_pow4_positive((e - 1) as nat);
    }
}

/// The level that the random `bits` draw.
pub fn level_for_bits(bits: u64) -> (r: usize)
    ensures
        r == level_of_bits(bits as nat, MAX_LEVEL as nat),
{
    let mut level: usize = 1;
    let mut rest: u64 = bits;
    while level < MAX_LEVEL && rest % 4 == 0
        invariant
            1 <= level <= MAX_LEVEL,
            level_of_bits(bits as nat, MAX_LEVEL as nat) == (level - 1) + level_of_bits(
                rest as nat,
                (MAX_LEVEL - (level - 1)) as nat,
            ),
        decreases MAX_LEVEL - level,
    {
        level += 1;
        rest = rest / 4;
    }
    level
}

/// 64 random bits from `rand::random::<u64>()`, which draws them from the
/// thread-local generator. Nothing is promised of the value.
#[verifier::external_body]
fn random_bits() -> u64 {
    rand::random::<u64>()
}

/// A random level for a new node, between 1 and `MAX_LEVEL`.
pub fn random_level() -> (r: usize)
    ensures
        1 <= r <= MAX_LEVEL,
{
    let bits = random_bits();
    proof {
        lemma_level_of_bits_range(bits as nat, MAX_LEVEL as nat);
    }
    level_for_bits(bits)
}

} // verus!
