//! A small deterministic generator of pseudo-random numbers.

use vstd::prelude::*;

verus! {

/// The state that every sequence of numbers starts from.
pub const SEED: u32 = 1804289383;

/// One xorshift step.
pub open spec fn xorshift(x: u32) -> u32 {
    let a = x ^ (x << 13);
    let b = a ^ (a >> 17);
    b ^ (b << 5)
}

/// The state after `n` steps.
pub open spec fn stepped(x: u32, n: nat) -> u32
    decreases n,
{
    if n == 0 {
        x
    } else {
        xorshift(stepped(x, (n - 1) as nat))
    }
}

/// Sixteen bits from each of four states, the first lowest.
pub open spec fn wide(x: u32) -> u64 {
    let a = (stepped(x, 1) as u64) & 0xFFFF;
    let b = (stepped(x, 2) as u64) & 0xFFFF;
    let c = (stepped(x, 3) as u64) & 0xFFFF;
    let d = (stepped(x, 4) as u64) & 0xFFFF;
    a | (b << 16) | (c << 32) | (d << 48)
}

/// The common bits of three 64-bit numbers that are drawn one after another.
pub open spec fn sparse(x: u32) -> u64 {
    wide(x) & wide(stepped(x, 4)) & wide(stepped(x, 8))
}

/// The next 32-bit number; it is the new state.
pub fn get_random_num(state: &mut u32) -> (res: u32)
    ensures
        res == xorshift(*old(state)),
        *final(state) == res,
{
    let x: u32 = *state;
    let a: u32 = x ^ (x << 13);
    let b: u32 = a ^ (a >> 17);
    let c: u32 = b ^ (b << 5);
    *state = c;
    c
}

pub proof fn lemma_stepped_add(x: u32, m: nat, n: nat)
    ensures
        stepped(stepped(x, m), n) == stepped(x, m + n),
    decreases n,
{
    if n > 0 {
        lemma_stepped_add(x, m, (n - 1) as nat);
    }
}

/// The next 64-bit number, made of the low halves of four 32-bit numbers.
pub fn get_random_u64_num(state: &mut u32) -> (res: u64)
    ensures
        res == wide(*old(state)),
        *final(state) == stepped(*old(state), 4),
{
    proof {
        reveal_with_fuel(stepped, 5);
    }
    let a: u64 = (get_random_num(state) as u64) & 0xFFFF;
    let b: u64 = (get_random_num(state) as u64) & 0xFFFF;
    let c: u64 = (get_random_num(state) as u64) & 0xFFFF;
    let d: u64 = (get_random_num(state) as u64) & 0xFFFF;
    a | (b << 16) | (c << 32) | (d << 48)
}

/// A number with few bits set: the common bits of three 64-bit numbers.
pub fn generate_magic_number(state: &mut u32) -> (res: u64)
    ensures
        res == sparse(*old(state)),
        *final(state) == stepped(*old(state), 12),
{
    proof {
        lemma_stepped_add(*state, 4, 4);
        lemma_stepped_add(*state, 8, 4);
    }
    let a: u64 = get_random_u64_num(state);
    let b: u64 = get_random_u64_num(state);
    let c: u64 = get_random_u64_num(state);
    a & b & c
}

/// The next state of the 64-bit generator.
pub open spec fn shuffled(x: u64) -> u64 {
    let a = x ^ (x << 13);
    let b = a ^ (a >> 7);
    b ^ (b << 17)
}

/// Advances the 64-bit generator; the new state is the random number.
pub fn pseudo_rand(state: &mut u64) -> (res: u64)
    ensures
        res == shuffled(*old(state)),
        *final(state) == res,
{
    let x: u64 = *state;
    let a: u64 = x ^ (x << 13);
    let b: u64 = a ^ (a >> 7);
    let c: u64 = b ^ (b << 17);
    *state = c;
    c
}

} // verus!
