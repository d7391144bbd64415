//! Model preparation before slicing: the rotations tried when orienting.

use vstd::prelude::*;

verus! {

/// The step between tried tilts, in degrees.
pub const ORIENT_STEP_DEGREES: i32 = 5;

/// The largest tried tilt either way, in degrees.
pub const ORIENT_LIMIT_DEGREES: i32 = 75;

/// The number of tilts tried about one axis: -75, -70, ..., 75.
pub const ORIENT_STEPS: usize = 31;

/// The `k`-th rotation tried: tilts about x and y in degrees, the x tilt
/// outer, the y tilt inner, and last the unrotated pose.
pub open spec fn orientation_candidate(k: int) -> (i32, i32) {
    if k == ORIENT_STEPS * ORIENT_STEPS {
        (0, 0)
    } else {
        (
            (-ORIENT_LIMIT_DEGREES + ORIENT_STEP_DEGREES * (k / ORIENT_STEPS as int)) as i32,
            (-ORIENT_LIMIT_DEGREES + ORIENT_STEP_DEGREES * (k % ORIENT_STEPS as int)) as i32,
        )
    }
}

/// The rotations tried when orienting a model, as tilts about the x and y
/// axes in degrees: every pair from -75 to 75 in steps of 5, then no tilt.
pub fn orientation_candidates() -> (candidates: Vec<(i32, i32)>)
    ensures
        candidates@.len() == ORIENT_STEPS * ORIENT_STEPS + 1,
        forall|k: int| 0 <= k < candidates@.len() ==> #[trigger] candidates@[k] == orientation_candidate(k),
{
    let mut candidates: Vec<(i32, i32)> = Vec::new();
    let mut i: usize = 0;
    while i < ORIENT_STEPS
        invariant
            0 <= i <= ORIENT_STEPS,
            candidates@.len() == i * ORIENT_STEPS,
            forall|k: int| 0 <= k < candidates@.len() ==> #[trigger] candidates@[k] == orientation_candidate(k),
        decreases ORIENT_STEPS - i,
    {
        let x = -ORIENT_LIMIT_DEGREES + ORIENT_STEP_DEGREES * (i as i32);
        let mut j: usize = 0;
        while j < ORIENT_STEPS
            invariant
                0 <= i < ORIENT_STEPS,
                0 <= j <= ORIENT_STEPS,
                x == -ORIENT_LIMIT_DEGREES + ORIENT_STEP_DEGREES * i,
                candidates@.len() == i * ORIENT_STEPS + j,
                forall|k: int| 0 <= k < candidates@.len() ==> #[trigger] candidates@[k] == orientation_candidate(k),
            decreases ORIENT_STEPS - j,
        {
            let y = -ORIENT_LIMIT_DEGREES + ORIENT_STEP_DEGREES * (j as i32);
            let k = candidates.len();
            assert((i * ORIENT_STEPS + j) / (ORIENT_STEPS as int) == i && (i * ORIENT_STEPS + j) % (ORIENT_STEPS as int) == j) by (nonlinear_arith)
                requires
                    0 <= j < ORIENT_STEPS,
                    0 <= i,
            ;
            candidates.push((x, y));
            assert(candidates@[k as int] == orientation_candidate(k as int));
            j += 1;
        }
        i += 1;
    }
    candidates.push((0, 0));
    candidates
}

} // verus!
