//! Escape times: how many steps an orbit takes to leave a region.
//!
//! The number type is the caller's. For the Mandelbrot set the orbit starts at
//! zero, a step takes `z` to `z * z + c`, and a point has escaped once its
//! squared norm exceeds four.

use vstd::prelude::*;

verus! {

/// `zs` is an orbit: it begins at `origin`, and each point is followed by one
/// that `step` may give for it.
pub open spec fn orbit_of<Z, S: Fn(Z) -> Z>(step: S, origin: Z, zs: Seq<Z>) -> bool {
    &&& zs.len() > 0
    &&& zs[0] == origin
    &&& forall|i: int| 0 <= i < zs.len() - 1 ==> step.ensures((#[trigger] zs[i],), zs[i + 1])
}

/// None of the first `upto` points of `zs` may be judged to have escaped.
pub open spec fn all_inside<Z, E: Fn(Z) -> bool>(escaped: E, zs: Seq<Z>, upto: int) -> bool {
    forall|i: int| 0 <= i < upto ==> escaped.ensures((#[trigger] zs[i],), false)
}

/// What `escape_time` may return: `Some(i)` where an orbit's point `i`, with
/// `i < limit`, is the first to have escaped; `None` where an orbit's first
/// `limit` points are all inside.
pub open spec fn escape_outcome<Z, E: Fn(Z) -> bool, S: Fn(Z) -> Z>(
    origin: Z,
    escaped: E,
    step: S,
    limit: usize,
    outcome: Option<usize>,
) -> bool {
    match outcome {
        Some(i) => i < limit && exists|zs: Seq<Z>|
            zs.len() == i + 1 && orbit_of(step, origin, zs) && all_inside(escaped, zs, i as int)
                && escaped.ensures((#[trigger] zs[i as int],), true),
        None => exists|zs: Seq<Z>|
            zs.len() == limit + 1 && #[trigger] orbit_of(step, origin, zs) && all_inside(
                escaped,
                zs,
                limit as int,
            ),
    }
}

/// Follows the orbit of `origin` under `step` for at most `limit` points and
/// returns the index of the first that `escaped` says has left, counted from
/// zero at `origin` itself; `None` if none of them has. Each point is tested
/// before the step away from it is taken.
pub fn escape_time<Z: Copy, E: Fn(Z) -> bool, S: Fn(Z) -> Z>(
    origin: Z,
    escaped: E,
    step: S,
    limit: usize,
) -> (outcome: Option<usize>)
    requires
        forall|z: Z| #[trigger] escaped.requires((z,)),
        forall|z: Z| #[trigger] step.requires((z,)),
    ensures
        escape_outcome(origin, escaped, step, limit, outcome),
        limit == 0 ==> outcome.is_none(),
{
    let mut z = origin;
    let ghost mut zs: Seq<Z> = seq![origin];
    let mut i: usize = 0;
    while i < limit
        invariant
            forall|z: Z| #[trigger] escaped.requires((z,)),
            forall|z: Z| #[trigger] step.requires((z,)),
            i <= limit,
            zs.len() == i + 1,
            zs[i as int] == z,
            orbit_of(step, origin, zs),
            all_inside(escaped, zs, i as int),
        decreases limit - i,
    {
        if escaped(z) {
            return Some(i);
        }
        let next = step(z);
        proof {
            let longer = zs.push(next);
            assert forall|j: int| 0 <= j < longer.len() - 1 implies step.ensures(
                (#[trigger] longer[j],),
                longer[j + 1],
            ) by {
                if j < i {
                    assert(step.ensures((zs[j],), zs[j + 1]));
                }
            }
            assert forall|j: int| 0 <= j < i + 1 implies escaped.ensures(
                (#[trigger] longer[j],),
                false,
            ) by {
                if j < i {
                    assert(escaped.ensures((zs[j],), false));
                }
            }
            zs = longer;
        }
        z = next;
        i = i + 1;
    }
    None
}

/// In an orbit that begins at a point which every step leaves in place, every
/// point is that point.
proof fn lemma_orbit_at_rest<Z, S: Fn(Z) -> Z>(step: S, origin: Z, zs: Seq<Z>, i: int)
    requires
        orbit_of(step, origin, zs),
        forall|z: Z| step.ensures((origin,), z) ==> z == origin,
        0 <= i < zs.len(),
    ensures
        zs[i] == origin,
    decreases i,
{
    if i > 0 {
        lemma_orbit_at_rest(step, origin, zs, i - 1);
        assert(step.ensures((zs[i - 1],), zs[i - 1 + 1]));
    }
}

/// A point that every step leaves in place, and that is never judged to have
/// escaped, has no escape time, whatever the limit.
pub proof fn lemma_fixed_point_never_escapes<Z, E: Fn(Z) -> bool, S: Fn(Z) -> Z>(
    origin: Z,
    escaped: E,
    step: S,
    limit: usize,
    outcome: Option<usize>,
)
    requires
        escape_outcome(origin, escaped, step, limit, outcome),
        forall|z: Z| step.ensures((origin,), z) ==> z == origin,
        !escaped.ensures((origin,), true),
    ensures
        outcome.is_none(),
{
    if let Some(i) = outcome {
        let zs = choose|zs: Seq<Z>|
            zs.len() == i + 1 && orbit_of(step, origin, zs) && all_inside(escaped, zs, i as int)
                && escaped.ensures((#[trigger] zs[i as int],), true);
        lemma_orbit_at_rest(step, origin, zs, i as int);
    }
}

/// Where the origin is inside and every point one step away from it has escaped,
/// the escape time is one, as soon as the limit allows two points.
pub proof fn lemma_escape_after_one_step<Z, E: Fn(Z) -> bool, S: Fn(Z) -> Z>(
    origin: Z,
    escaped: E,
    step: S,
    limit: usize,
    outcome: Option<usize>,
)
    requires
        escape_outcome(origin, escaped, step, limit, outcome),
        limit >= 2,
        !escaped.ensures((origin,), true),
        forall|z: Z| step.ensures((origin,), z) ==> !escaped.ensures((z,), false),
    ensures
        outcome == Some(1usize),
{
    match outcome {
        Some(i) => {
            let zs = choose|zs: Seq<Z>|
                zs.len() == i + 1 && orbit_of(step, origin, zs) && all_inside(
                    escaped,
                    zs,
                    i as int,
                ) && escaped.ensures((#[trigger] zs[i as int],), true);
            if i >= 2 {
                assert(step.ensures((zs[0],), zs[1]));
                assert(escaped.ensures((zs[1],), false));
            }
        },
        None => {
            let zs = choose|zs: Seq<Z>|
                zs.len() == limit + 1 && #[trigger] orbit_of(step, origin, zs) && all_inside(
                    escaped,
                    zs,
                    limit as int,
                );
            assert(step.ensures((zs[0],), zs[1]));
            assert(escaped.ensures((zs[1],), false));
        },
    }
}

} // verus!
