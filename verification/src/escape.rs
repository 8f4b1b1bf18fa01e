//! The escape-time loop: how many steps an orbit takes to leave a region.
//!
//! The loop is written over any kind of point `Z`. A caller supplies the step
//! of the orbit (for the Mandelbrot set, `z * z + c`) and the test that a point
//! has left (its squared norm exceeds 4).

use vstd::prelude::*;

verus! {

/// `orbit` starts at `start` and each of its points follows from the one
/// before by a call of `step`.
pub open spec fn is_orbit<Z, S: Fn(Z) -> Z>(orbit: Seq<Z>, start: Z, step: S) -> bool {
    &&& orbit.len() > 0
    &&& orbit[0] == start
    &&& forall|i: int|
        0 <= i < orbit.len() - 1 ==> call_ensures(step, (#[trigger] orbit[i],), orbit[i + 1])
}

/// None of the first `n` points of `orbit` has left the region.
pub open spec fn stays<Z, E: Fn(Z) -> bool>(orbit: Seq<Z>, escaped: E, n: int) -> bool {
    forall|i: int| 0 <= i < n ==> call_ensures(escaped, (#[trigger] orbit[i],), false)
}

/// Some orbit from `start` is first seen outside the region at its point
/// number `i`, counted from zero.
pub open spec fn escapes_at<Z, S: Fn(Z) -> Z, E: Fn(Z) -> bool>(
    start: Z,
    step: S,
    escaped: E,
    i: int,
) -> bool {
    exists|orbit: Seq<Z>|
        #![trigger is_orbit(orbit, start, step)]
        orbit.len() == i + 1 && is_orbit(orbit, start, step) && stays(orbit, escaped, i)
            && call_ensures(escaped, (orbit[i],), true)
}

/// Some orbit from `start` has its first `n` points inside the region.
pub open spec fn stays_until<Z, S: Fn(Z) -> Z, E: Fn(Z) -> bool>(
    start: Z,
    step: S,
    escaped: E,
    n: int,
) -> bool {
    exists|orbit: Seq<Z>|
        #![trigger is_orbit(orbit, start, step)]
        orbit.len() == n + 1 && is_orbit(orbit, start, step) && stays(orbit, escaped, n)
}

/// What following the orbit of `start` for at most `limit` points may give:
/// the number of the first point found outside the region, below `limit`, or
/// `None` where the first `limit` points are all inside.
pub open spec fn is_escape_time<Z, S: Fn(Z) -> Z, E: Fn(Z) -> bool>(
    time: Option<usize>,
    start: Z,
    limit: usize,
    step: S,
    escaped: E,
) -> bool {
    match time {
        Some(i) => i < limit && escapes_at(start, step, escaped, i as int),
        None => stays_until(start, step, escaped, limit as int),
    }
}

/// Follows the orbit of `start` for at most `limit` points. Each point is
/// tested before it is stepped: the result is the number of the first point
/// found outside the region, and `None` where the first `limit` points are all
/// inside.
pub fn escape_time<Z: Copy, S: Fn(Z) -> Z, E: Fn(Z) -> bool>(
    start: Z,
    limit: usize,
    step: S,
    escaped: E,
) -> (time: Option<usize>)
    requires
        forall|z: Z| call_requires(step, (z,)),
        forall|z: Z| call_requires(escaped, (z,)),
    ensures
        is_escape_time(time, start, limit, step, escaped),
{
    let mut z = start;
    let mut i: usize = 0;
    let mut orbit: Ghost<Seq<Z>> = Ghost(Seq::empty().push(start));
    while i < limit
        invariant
            i <= limit,
            orbit@.len() == i + 1,
            orbit@[i as int] == z,
            is_orbit(orbit@, start, step),
            stays(orbit@, escaped, i as int),
            forall|z: Z| call_requires(step, (z,)),
            forall|z: Z| call_requires(escaped, (z,)),
        decreases limit - i,
    {
        if escaped(z) {
            return Some(i);
        }
        let next = step(z);
        proof {
            let ghost before = orbit@;
            orbit@ = before.push(next);
            assert forall|k: int| 0 <= k < orbit@.len() - 1 implies call_ensures(
                step,
                (#[trigger] orbit@[k],),
                orbit@[k + 1],
            ) by {
                if k < i {
                    assert(call_ensures(step, (before[k],), before[k + 1]));
                }
            }
            assert forall|k: int| 0 <= k < i + 1 implies call_ensures(
                escaped,
                (#[trigger] orbit@[k],),
                false,
            ) by {
                if k < i {
                    assert(call_ensures(escaped, (before[k],), false));
                }
            }
        }
        z = next;
        i += 1;
    }
    None
}

/// A point that `step` leaves where it is, and that is inside the region,
/// never escapes, whatever the limit.
pub proof fn lemma_fixed_point_never_escapes<Z, S: Fn(Z) -> Z, E: Fn(Z) -> bool>(
    time: Option<usize>,
    start: Z,
    limit: usize,
    step: S,
    escaped: E,
)
    requires
        is_escape_time(time, start, limit, step, escaped),
        forall|z: Z| call_ensures(step, (start,), z) ==> z == start,
        !call_ensures(escaped, (start,), true),
    ensures
        time is None,
{
    if let Some(i) = time {
        let orbit = choose|orbit: Seq<Z>|
            #![trigger is_orbit(orbit, start, step)]
            orbit.len() == i + 1 && is_orbit(orbit, start, step) && stays(orbit, escaped, i as int)
                && call_ensures(escaped, (orbit[i as int],), true);
        lemma_orbit_of_fixed_point(orbit, start, step, i as int);
    }
}

/// The first test is on the start itself, the second on the point after it:
/// where the start is inside the region and every point that follows it is
/// outside, the escape time is 1 as soon as the limit allows two tests, and
/// `None` below that.
pub proof fn lemma_escape_after_one_step<Z, S: Fn(Z) -> Z, E: Fn(Z) -> bool>(
    time: Option<usize>,
    start: Z,
    limit: usize,
    step: S,
    escaped: E,
)
    requires
        is_escape_time(time, start, limit, step, escaped),
        !call_ensures(escaped, (start,), true),
        forall|z: Z| call_ensures(step, (start,), z) ==> !call_ensures(escaped, (z,), false),
    ensures
        time == if limit >= 2 {
            Some(1usize)
        } else {
            None
        },
{
    match time {
        Some(i) => {
            let orbit = choose|orbit: Seq<Z>|
                #![trigger is_orbit(orbit, start, step)]
                orbit.len() == i + 1 && is_orbit(orbit, start, step) && stays(
                    orbit,
                    escaped,
                    i as int,
                ) && call_ensures(escaped, (orbit[i as int],), true);
            if i >= 2 {
                assert(call_ensures(step, (orbit[0],), orbit[0int + 1]));
                assert(call_ensures(escaped, (orbit[1],), false));
            }
        },
        None => {
            let orbit = choose|orbit: Seq<Z>|
                #![trigger is_orbit(orbit, start, step)]
                orbit.len() == limit + 1 && is_orbit(orbit, start, step) && stays(
                    orbit,
                    escaped,
                    limit as int,
                );
            if limit >= 2 {
                assert(call_ensures(step, (orbit[0],), orbit[0int + 1]));
                assert(call_ensures(escaped, (orbit[1],), false));
            }
        },
    }
}

/// Every point of an orbit from a fixed point of `step` is that point.
proof fn lemma_orbit_of_fixed_point<Z, S: Fn(Z) -> Z>(orbit: Seq<Z>, start: Z, step: S, k: int)
    requires
        is_orbit(orbit, start, step),
        forall|z: Z| call_ensures(step, (start,), z) ==> z == start,
        0 <= k < orbit.len(),
    ensures
        orbit[k] == start,
    decreases k,
{
    if k > 0 {
        lemma_orbit_of_fixed_point(orbit, start, step, k - 1);
        assert(call_ensures(step, (orbit[k - 1],), orbit[k - 1 + 1]));
    }
}

} // verus!
