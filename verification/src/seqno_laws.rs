//! What holds of sequence numbers: they are counted round and round in 32
//! bits.
use vstd::prelude::*;

use crate::seqno::{seq_add, seq_before, seq_dist};

verus! {

/// Counting on from a number, and the distance between two numbers, differ
/// from plain counting by whole rounds only.
pub proof fn law_numbers_go_round(a: u32, b: u32, n: nat)
    ensures
        (seq_add(a, n) - (a + n)) % 0x1_0000_0000 == 0,
        (a + seq_dist(a, b) - b) % 0x1_0000_0000 == 0,
        seq_dist(a, b) < 0x1_0000_0000,
{
    let m = 0x1_0000_0000int;
    let x = a + n;
    assert(x % m == x - (x / m) * m);
    assert((x % m - x) % m == 0) by {
        assert(x % m - x == (-(x / m)) * m);
        assert(((-(x / m)) * m) % m == 0);
    }
    let d = b - a;
    assert((d % m - d) % m == 0) by {
        assert(d % m - d == (-(d / m)) * m);
        assert(((-(d / m)) * m) % m == 0);
    }
}

/// A number is before another if and only if that is reached from it by
/// counting on for at least one and at most half a round.
pub proof fn law_before_is_within_half_a_round(a: u32, b: u32)
    ensures
        seq_before(a, b) <==> 1 <= (b - a) % 0x1_0000_0000 <= 0x8000_0000,
{
    let d = b - a;
    if d == 0 {
    } else if d > 0 {
        assert(d % 0x1_0000_0000 == d);
        assert((-d) % 0x1_0000_0000 == 0x1_0000_0000 - d);
    } else {
        assert((-d) % 0x1_0000_0000 == -d);
        assert(d % 0x1_0000_0000 == 0x1_0000_0000 + d);
    }
    assert(seq_dist(b, a) == (-d) % 0x1_0000_0000);
}

} // verus!
