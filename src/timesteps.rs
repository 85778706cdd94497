//! The timesteps at which the variables of a planned path are placed.

use vstd::prelude::*;

verus! {

/// A timestep of the simulation.
pub type Timestep = u32;

/// The unbounded spacing rule: step `k` lies `(k - 1) / multiple + 1` after
/// step `k - 1`, so the gaps grow by one every `multiple` steps.
pub open spec fn raw_timestep(multiple: int, k: nat) -> int
    decreases k,
{
    if k == 0 {
        0
    } else {
        raw_timestep(multiple, (k - 1) as nat) + (k - 1) / multiple + 1
    }
}

/// Number of timesteps for a horizon, counted from step `k` on: the path stops
/// at the first step that reaches the horizon, or before step `horizon`.
pub open spec fn timesteps_len_from(horizon: int, multiple: int, k: nat) -> nat
    decreases horizon - k,
{
    if k >= horizon {
        k
    } else if raw_timestep(multiple, k) >= horizon {
        k + 1
    } else {
        timesteps_len_from(horizon, multiple, k + 1)
    }
}

/// Number of variable timesteps for a horizon.
pub open spec fn timesteps_len(horizon: int, multiple: int) -> nat {
    if horizon <= 1 {
        1
    } else {
        timesteps_len_from(horizon, multiple, 1)
    }
}

/// The variable timesteps: the spacing rule, clipped to the horizon, for as
/// many steps as `timesteps_len` gives.
pub open spec fn variable_timesteps(horizon: int, multiple: int) -> Seq<int> {
    Seq::new(
        timesteps_len(horizon, multiple),
        |k: int|
            if k == 0 {
                0
            } else if raw_timestep(multiple, k as nat) < horizon {
                raw_timestep(multiple, k as nat)
            } else {
                horizon
            },
    )
}

/// Compute the timesteps at which variables in the planned path are placed:
/// `0`, then each step `(i - 1) / lookahead_multiple + 1` after the one
/// before, and the horizon itself once a step would reach it.
/// With a horizon of 20 and a multiple of 3:
/// `0, 1, 2, 3, 5, 7, 9, 12, 15, 18, 20`.
pub fn get_variable_timesteps(lookahead_horizon: u32, lookahead_multiple: u32) -> (r: Vec<Timestep>)
    requires
        lookahead_multiple > 0 || lookahead_horizon <= 1,
    ensures
        r@.map_values(|t: Timestep| t as int) == variable_timesteps(
            lookahead_horizon as int,
            lookahead_multiple as int,
        ),
{
    let ghost h = lookahead_horizon as int;
    let ghost m = lookahead_multiple as int;
    let mut timesteps: Vec<Timestep> = Vec::new();
    timesteps.push(0);
    let mut i: u32 = 1;
    while i < lookahead_horizon
        invariant
            1 <= i,
            i as int <= h || h <= 1,
            h > 1 ==> m > 0,
            h == lookahead_horizon,
            m == lookahead_multiple,
            timesteps@.len() == i,
            timesteps@[i - 1] as int == raw_timestep(m, (i - 1) as nat),
            forall|k: int| 1 <= k < i ==> (#[trigger] timesteps@[k] as int) < h,
            forall|k: int|
                0 <= k < i ==> #[trigger] timesteps@[k] as int == raw_timestep(m, k as nat),
            timesteps_len(h, m) == timesteps_len_from(h, m, i as nat),
        decreases lookahead_horizon - i,
    {
        let last: u64 = timesteps[timesteps.len() - 1] as u64;
        let ts: u64 = last + ((i - 1) / lookahead_multiple) as u64 + 1;
        assert(ts == raw_timestep(m, i as nat));
        if ts >= lookahead_horizon as u64 {
            timesteps.push(lookahead_horizon);
            proof {
                assert(timesteps_len(h, m) == i + 1);
                assert(timesteps@.map_values(|t: Timestep| t as int) =~= variable_timesteps(h, m));
            }
            return timesteps;
        }
        timesteps.push(ts as u32);
        i = i + 1;
    }
    proof {
        assert(timesteps_len(h, m) == i);
        assert(timesteps@.map_values(|t: Timestep| t as int) =~= variable_timesteps(h, m));
    }
    timesteps
}

} // verus!
