//! TCP sequence numbers: 32-bit numbers that wrap around.
use vstd::arithmetic::div_mod::lemma_sub_mod_noop;
use vstd::prelude::*;

verus! {

/// The sequence number `n` places after `a`.
pub open spec fn seq_add(a: u32, n: nat) -> u32 {
    ((a + n) % 0x1_0000_0000) as u32
}

/// How many places `to` is after `from`.
pub open spec fn seq_dist(from: u32, to: u32) -> nat {
    ((to - from) % 0x1_0000_0000) as nat
}

/// Whether `a` is before `b`, going from one to the other the shorter way.
pub open spec fn seq_before(a: u32, b: u32) -> bool {
    seq_dist(b, a) >= 0x8000_0000
}

pub fn wrapping_lt(a: u32, b: u32) -> (before: bool)
    ensures
        before == seq_before(a, b),
{
    let d: u32 = a.wrapping_sub(b);
    assert(((d as i32) < 0) == (d >= 0x8000_0000)) by (bit_vector);
    (d as i32) < 0
}

/// The sequence number after `n` more bytes.
pub fn advance(a: u32, n: usize) -> (b: u32)
    ensures
        b == seq_add(a, n as nat),
{
    let m: u32 = (n as u64 % 0x1_0000_0000) as u32;
    assert((a + n) % 0x1_0000_0000 == (a + m) % 0x1_0000_0000);
    a.wrapping_add(m)
}

pub proof fn lemma_seq_add_add(a: u32, m: nat, n: nat)
    ensures
        seq_add(seq_add(a, m), n) == seq_add(a, m + n),
{
}

pub proof fn lemma_seq_dist_add(a: u32, n: nat)
    requires
        n < 0x1_0000_0000,
    ensures
        seq_dist(a, seq_add(a, n)) == n,
{
}

pub proof fn lemma_seq_add_dist(a: u32, b: u32)
    ensures
        seq_add(a, seq_dist(a, b)) == b,
        seq_dist(a, b) < 0x1_0000_0000,
{
}

/// The distance of two numbers is the difference of their places, wrapped.
proof fn lemma_seq_difference(a: u32, m: nat, n: nat)
    ensures
        seq_dist(seq_add(a, n), seq_add(a, m)) == (m - n) % 0x1_0000_0000,
{
    lemma_sub_mod_noop(a + m, a + n, 0x1_0000_0000);
    assert((a + m) - (a + n) == m - n);
}

/// What wrapping makes of a number of less than one round.
proof fn lemma_wrapped(d: int)
    requires
        -0x1_0000_0000 < d < 0x1_0000_0000,
    ensures
        d % 0x1_0000_0000 == if d < 0 {
            d + 0x1_0000_0000
        } else {
            d
        },
{
}

/// Within half the number space, order is order of distances.
pub proof fn lemma_seq_before_add(a: u32, m: nat, n: nat)
    requires
        m <= 0x7FFF_FFFF,
        n <= 0x7FFF_FFFF,
    ensures
        seq_before(seq_add(a, m), seq_add(a, n)) == (m < n),
{
    lemma_seq_difference(a, m, n);
    lemma_wrapped(m - n);
}

/// A number after `u` places and not after `t` places lies between them.
pub proof fn lemma_seq_between(start: u32, u: nat, t: nat, a: nat)
    requires
        u <= t <= 0x7FFF_FFFF,
        a < 0x1_0000_0000,
        seq_before(seq_add(start, u), seq_add(start, a)),
        !seq_before(seq_add(start, t), seq_add(start, a)),
    ensures
        u < a <= t,
{
    lemma_seq_difference(start, u, a);
    lemma_seq_difference(start, t, a);
    lemma_wrapped(u - a);
    lemma_wrapped(t - a);
}

} // verus!
