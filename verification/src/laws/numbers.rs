//! What is drawn by the generators.

use crate::random::{sparse, stepped, wide, xorshift};
use vstd::prelude::*;

verus! {

/// A candidate has just the bits that three numbers, drawn one after another, have in common.
pub proof fn law_sparse(x: u32, part: u64)
    ensures
        sparse(x) & wide(x) == sparse(x),
        sparse(x) & wide(stepped(x, 4)) == sparse(x),
        sparse(x) & wide(stepped(x, 8)) == sparse(x),
        part & wide(x) == part && part & wide(stepped(x, 4)) == part && part & wide(stepped(x, 8))
            == part ==> part & sparse(x) == part,
{
    lemma_common(wide(x), wide(stepped(x, 4)), wide(stepped(x, 8)), part);
}

proof fn lemma_common(a: u64, b: u64, c: u64, part: u64)
    by (bit_vector)
    ensures
        (a & b & c) & a == a & b & c,
        (a & b & c) & b == a & b & c,
        (a & b & c) & c == a & b & c,
        part & a == part && part & b == part && part & c == part ==> part & (a & b & c) == part,
{
}

/// Sixteen bits of a wide number come from each of four states, the first lowest.
pub proof fn law_wide(x: u32)
    ensures
        wide(x) % 0x1_0000 == stepped(x, 1) as u64 % 0x1_0000,
        (wide(x) / 0x1_0000) % 0x1_0000 == stepped(x, 2) as u64 % 0x1_0000,
        (wide(x) / 0x1_0000_0000) % 0x1_0000 == stepped(x, 3) as u64 % 0x1_0000,
        wide(x) / 0x1_0000_0000_0000 == stepped(x, 4) as u64 % 0x1_0000,
{
    lemma_wide(
        stepped(x, 1) as u64,
        stepped(x, 2) as u64,
        stepped(x, 3) as u64,
        stepped(x, 4) as u64,
    );
}

proof fn lemma_wide(p: u64, q: u64, r: u64, s: u64)
    by (bit_vector)
    ensures
        ({
            let w = (p & 0xFFFF) | ((q & 0xFFFF) << 16) | ((r & 0xFFFF) << 32) | ((s & 0xFFFF)
                << 48);
            &&& w % 0x1_0000 == p % 0x1_0000
            &&& (w / 0x1_0000) % 0x1_0000 == q % 0x1_0000
            &&& (w / 0x1_0000_0000) % 0x1_0000 == r % 0x1_0000
            &&& w / 0x1_0000_0000_0000 == s % 0x1_0000
        }),
{
}

/// Steps follow one another: those after some steps are the later ones of the same sequence, and
/// each state has one successor.
pub proof fn law_steps(x: u32, m: nat, n: nat)
    ensures
        stepped(stepped(x, m), n) == stepped(x, m + n),
        stepped(x, n + 1) == xorshift(stepped(x, n)),
        stepped(x, 0) == x,
{
    crate::random::lemma_stepped_add(x, m, n);
}

} // verus!
