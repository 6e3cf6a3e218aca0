//! The splitmix64 generator, from which the per-instance hash tables are derived.
use vstd::prelude::*;
use vstd::wrapping::u64_specs;

verus! {

/// The increment of the splitmix64 state.
pub const GOLDEN_GAMMA: u64 = 0x9E37_79B9_7F4A_7C15;

/// First multiplier of the splitmix64 finaliser.
pub const MIX_MUL_1: u64 = 0xBF58_476D_1CE4_E5B9;

/// Second multiplier of the splitmix64 finaliser.
pub const MIX_MUL_2: u64 = 0x94D0_49BB_1331_11EB;

/// The generator's state after `n` steps from `seed`.
pub open spec fn splitmix_state(seed: u64, n: nat) -> u64
    decreases n,
{
    if n == 0 {
        seed
    } else {
        u64_specs::wrapping_add(splitmix_state(seed, (n - 1) as nat), GOLDEN_GAMMA)
    }
}

/// The splitmix64 output function applied to a state.
pub open spec fn mix64(z: u64) -> u64 {
    let a = u64_specs::wrapping_mul(z ^ (z >> 30u64), MIX_MUL_1);
    let b = u64_specs::wrapping_mul(a ^ (a >> 27u64), MIX_MUL_2);
    b ^ (b >> 31u64)
}

/// The `n`-th output (counting from 0) of splitmix64 seeded with `seed`.
pub open spec fn splitmix_output(seed: u64, n: nat) -> u64 {
    mix64(splitmix_state(seed, n + 1))
}

/// Executable finaliser.
pub fn mix(z: u64) -> (r: u64)
    ensures
        r == mix64(z),
{
    let a = (z ^ (z >> 30u64)).wrapping_mul(MIX_MUL_1);
    let b = (a ^ (a >> 27u64)).wrapping_mul(MIX_MUL_2);
    b ^ (b >> 31u64)
}

/// The first `n` outputs of splitmix64 seeded with `seed`.
pub fn splitmix_table(seed: u64, n: usize) -> (r: Vec<u64>)
    ensures
        r@.len() == n,
        forall|j: int| 0 <= j < n ==> #[trigger] r@[j] == splitmix_output(seed, j as nat),
{
    let mut r: Vec<u64> = Vec::with_capacity(n);
    let mut state: u64 = seed;
    let mut j: usize = 0;
    while j < n
        invariant
            j <= n,
            r@.len() == j,
            state == splitmix_state(seed, j as nat),
            forall|i: int| 0 <= i < j ==> #[trigger] r@[i] == splitmix_output(seed, i as nat),
        decreases n - j,
    {
        state = state.wrapping_add(GOLDEN_GAMMA);
        r.push(mix(state));
        j = j + 1;
    }
    r
}

} // verus!
