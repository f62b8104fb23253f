//! The two iteration schemes, with the arithmetic left to the caller: the
//! escape-time count of an orbit, and the Newton run that stops when its
//! correction becomes small. The caller hands in the numeric steps as
//! functions; what is fixed here is how often they are applied, when the run
//! stops, and what is reported.

use vstd::prelude::*;

verus! {

/// `trail` is an orbit from `start`: each point but the last was found not to
/// have escaped and was stepped to the next one.
pub open spec fn escape_trail<Z, E: Fn(Z) -> bool, S: Fn(Z) -> Z>(
    escaped: E,
    step: S,
    start: Z,
    trail: Seq<Z>,
) -> bool {
    &&& trail.len() >= 1
    &&& trail[0] == start
    &&& forall|j: int|
        0 <= j < trail.len() - 1 ==> escaped.ensures((#[trigger] trail[j],), false)
            && step.ensures((trail[j],), trail[j + 1])
}

/// `result` is what an escape-time run from `start` can report: the index of
/// the first point of an orbit that was found to have escaped, that index
/// being below the budget; or nothing, after an orbit of `budget` steps on
/// which no point that was tested had escaped.
pub open spec fn escape_run<Z, E: Fn(Z) -> bool, S: Fn(Z) -> Z>(
    escaped: E,
    step: S,
    start: Z,
    budget: u32,
    result: Option<u32>,
) -> bool {
    exists|trail: Seq<Z>|
        #![trigger escape_trail(escaped, step, start, trail)]
        escape_trail(escaped, step, start, trail) && match result {
            Some(count) => count < budget && trail.len() == count + 1 && escaped.ensures(
                (trail[count as int],),
                true,
            ),
            None => trail.len() == budget + 1,
        }
}

/// The point reached from `start` after `n` steps.
pub open spec fn orbit<Z>(step: spec_fn(Z) -> Z, start: Z, n: nat) -> Z
    decreases n,
{
    if n == 0 {
        start
    } else {
        step(orbit(step, start, (n - 1) as nat))
    }
}

/// The orbit from `start` has escaped at step `count`, and at no step before.
pub open spec fn escapes_at<Z>(
    escaped: spec_fn(Z) -> bool,
    step: spec_fn(Z) -> Z,
    start: Z,
    count: nat,
) -> bool {
    &&& escaped(orbit(step, start, count))
    &&& forall|j: nat| j < count ==> !escaped(#[trigger] orbit(step, start, j))
}

/// The escape-time count: the first step below `budget` at which the orbit
/// from `start` has escaped, if there is one.
pub open spec fn escape_count<Z>(
    escaped: spec_fn(Z) -> bool,
    step: spec_fn(Z) -> Z,
    start: Z,
    budget: nat,
) -> Option<nat> {
    if exists|count: nat| count < budget && escapes_at(escaped, step, start, count) {
        Some(choose|count: nat| count < budget && escapes_at(escaped, step, start, count))
    } else {
        None
    }
}

/// The test `escaped` answers as `model` says, for every point.
pub open spec fn test_is<Z, E: Fn(Z) -> bool>(escaped: E, model: spec_fn(Z) -> bool) -> bool {
    forall|z: Z, answer: bool| #[trigger] escaped.ensures((z,), answer) ==> answer == model(z)
}

/// The step `step` leads where `model` says, from every point.
pub open spec fn step_is<Z, S: Fn(Z) -> Z>(step: S, model: spec_fn(Z) -> Z) -> bool {
    forall|z: Z, next: Z| #[trigger] step.ensures((z,), next) ==> next == model(z)
}

/// The test and the step can be called at `start` and at every point that
/// the step leads to.
pub open spec fn escape_callable<Z, E: Fn(Z) -> bool, S: Fn(Z) -> Z>(
    escaped: E,
    step: S,
    start: Z,
) -> bool {
    &&& escaped.requires((start,))
    &&& step.requires((start,))
    &&& forall|z: Z, next: Z| #[trigger]
        step.ensures((z,), next) ==> escaped.requires((next,)) && step.requires((next,))
}

/// Counts the steps until the orbit of `step` from `start` escapes: before
/// each step the current point is tested, and the number of steps taken so
/// far is returned as soon as the test holds. After `budget` steps the run
/// gives up and returns nothing.
pub fn escape_time<Z: Copy, E: Fn(Z) -> bool, S: Fn(Z) -> Z>(
    start: Z,
    budget: u32,
    escaped: E,
    step: S,
) -> (result: Option<u32>)
    requires
        escape_callable(escaped, step, start),
    ensures
        escape_run(escaped, step, start, budget, result),
{
    let mut z = start;
    let mut count: u32 = 0;
    let ghost mut trail: Seq<Z> = seq![start];
    while count < budget
        invariant
            escape_callable(escaped, step, z),
            count <= budget,
            trail.len() == count + 1,
            trail[count as int] == z,
            escape_trail(escaped, step, start, trail),
        decreases budget - count,
    {
        if escaped(z) {
            return Some(count);
        }
        let next = step(z);
        proof {
            let longer = trail.push(next);
            assert forall|j: int| 0 <= j < longer.len() - 1 implies escaped.ensures(
                (#[trigger] longer[j],),
                false,
            ) && step.ensures((longer[j],), longer[j + 1]) by {
                if j < trail.len() - 1 {
                    assert(longer[j] == trail[j]);
                    assert(longer[j + 1] == trail[j + 1]);
                }
            }
            trail = longer;
        }
        z = next;
        count += 1;
    }
    None
}

/// Along a trail whose test and step have models, the points are those of
/// the model's orbit, and none but the last can have escaped.
pub proof fn lemma_trail_is_orbit<Z, E: Fn(Z) -> bool, S: Fn(Z) -> Z>(
    escaped: E,
    step: S,
    test_model: spec_fn(Z) -> bool,
    step_model: spec_fn(Z) -> Z,
    start: Z,
    trail: Seq<Z>,
    at: nat,
)
    requires
        escape_trail(escaped, step, start, trail),
        test_is(escaped, test_model),
        step_is(step, step_model),
        at < trail.len(),
    ensures
        trail[at as int] == orbit(step_model, start, at),
        at < trail.len() - 1 ==> !test_model(orbit(step_model, start, at)),
    decreases at,
{
    if at > 0 {
        lemma_trail_is_orbit(escaped, step, test_model, step_model, start, trail, (at - 1) as nat);
        let before = trail[at - 1];
        assert(step.ensures((before,), trail[at - 1 + 1]));
    }
    if at < trail.len() - 1 {
        let here = trail[at as int];
        assert(escaped.ensures((here,), false));
    }
}

/// There is at most one first escape.
pub proof fn lemma_first_escape_unique<Z>(
    escaped: spec_fn(Z) -> bool,
    step: spec_fn(Z) -> Z,
    start: Z,
    one: nat,
    other: nat,
)
    requires
        escapes_at(escaped, step, start, one),
        escapes_at(escaped, step, start, other),
    ensures
        one == other,
{
    if one < other {
        assert(!escaped(orbit(step, start, one)));
    } else if other < one {
        assert(!escaped(orbit(step, start, other)));
    }
}

/// The escape-time count is the first escape where that lies below the
/// budget, and nothing where the orbit has not escaped at any step below it.
pub proof fn lemma_escape_count<Z>(
    escaped: spec_fn(Z) -> bool,
    step: spec_fn(Z) -> Z,
    start: Z,
    budget: nat,
)
    ensures
        forall|count: nat|
            count < budget && #[trigger] escapes_at(escaped, step, start, count) ==> escape_count(
                escaped,
                step,
                start,
                budget,
            ) == Some(count),
        (forall|j: nat| j < budget ==> !escaped(#[trigger] orbit(step, start, j)))
            ==> escape_count(escaped, step, start, budget).is_none(),
        escape_count(escaped, step, start, budget) matches Some(count) ==> count < budget
            && escapes_at(escaped, step, start, count),
{
    assert forall|count: nat|
        count < budget && #[trigger] escapes_at(escaped, step, start, count) implies escape_count(
        escaped,
        step,
        start,
        budget,
    ) == Some(count) by {
        let chosen = choose|c: nat| c < budget && escapes_at(escaped, step, start, c);
        lemma_first_escape_unique(escaped, step, start, count, chosen);
    }
}

/// Where the test and the step have models, the run reports the escape-time
/// count of the model's orbit.
pub proof fn lemma_escape_time_is_count<Z, E: Fn(Z) -> bool, S: Fn(Z) -> Z>(
    escaped: E,
    step: S,
    test_model: spec_fn(Z) -> bool,
    step_model: spec_fn(Z) -> Z,
    start: Z,
    budget: u32,
    result: Option<u32>,
)
    requires
        escape_run(escaped, step, start, budget, result),
        test_is(escaped, test_model),
        step_is(step, step_model),
    ensures
        match result {
            Some(count) => escape_count(test_model, step_model, start, budget as nat) == Some(
                count as nat,
            ),
            None => escape_count(test_model, step_model, start, budget as nat).is_none(),
        },
{
    let trail = choose|trail: Seq<Z>|
        #![trigger escape_trail(escaped, step, start, trail)]
        escape_trail(escaped, step, start, trail) && match result {
            Some(count) => count < budget && trail.len() == count + 1 && escaped.ensures(
                (trail[count as int],),
                true,
            ),
            None => trail.len() == budget + 1,
        };
    lemma_escape_count(test_model, step_model, start, budget as nat);
    assert forall|j: nat| j < trail.len() - 1 implies !test_model(
        #[trigger] orbit(step_model, start, j),
    ) by {
        lemma_trail_is_orbit(escaped, step, test_model, step_model, start, trail, j);
    }
    match result {
        Some(count) => {
            lemma_trail_is_orbit(
                escaped,
                step,
                test_model,
                step_model,
                start,
                trail,
                count as nat,
            );
            assert(escapes_at(test_model, step_model, start, count as nat));
        },
        None => {},
    }
}

/// Budget invariance: a count found under one budget is the count under
/// every larger budget.
pub proof fn lemma_escape_budget_invariant<Z>(
    escaped: spec_fn(Z) -> bool,
    step: spec_fn(Z) -> Z,
    start: Z,
    count: nat,
    budget: nat,
    larger: nat,
)
    requires
        escape_count(escaped, step, start, budget) == Some(count),
        budget <= larger,
    ensures
        count < budget,
        escape_count(escaped, step, start, larger) == Some(count),
{
    lemma_escape_count(escaped, step, start, budget);
    lemma_escape_count(escaped, step, start, larger);
}

/// A point that has not escaped and that the step leaves where it is never
/// escapes, whatever the budget.
pub proof fn lemma_fixed_point_never_escapes<Z>(
    escaped: spec_fn(Z) -> bool,
    step: spec_fn(Z) -> Z,
    start: Z,
    budget: nat,
)
    requires
        !escaped(start),
        step(start) == start,
    ensures
        escape_count(escaped, step, start, budget).is_none(),
{
    assert forall|j: nat| true implies #[trigger] orbit(step, start, j) == start by {
        lemma_orbit_of_fixed_point(step, start, j);
    }
    lemma_escape_count(escaped, step, start, budget);
}

/// The orbit of a point that the step leaves where it is never moves.
pub proof fn lemma_orbit_of_fixed_point<Z>(step: spec_fn(Z) -> Z, start: Z, n: nat)
    requires
        step(start) == start,
    ensures
        orbit(step, start, n) == start,
    decreases n,
{
    if n > 0 {
        lemma_orbit_of_fixed_point(step, start, (n - 1) as nat);
    }
}

/// Budget invariance of the run: where the test and the step can give only
/// one answer each, a run that reported an escape reports the same escape
/// under every budget that is no smaller.
pub proof fn lemma_escape_time_keeps_count<Z, E: Fn(Z) -> bool, S: Fn(Z) -> Z>(
    escaped: E,
    step: S,
    test_model: spec_fn(Z) -> bool,
    step_model: spec_fn(Z) -> Z,
    start: Z,
    budget: u32,
    larger: u32,
    count: u32,
    again: Option<u32>,
)
    requires
        test_is(escaped, test_model),
        step_is(step, step_model),
        escape_run(escaped, step, start, budget, Some(count)),
        escape_run(escaped, step, start, larger, again),
        budget <= larger,
    ensures
        again == Some(count),
{
    lemma_escape_time_is_count(escaped, step, test_model, step_model, start, budget, Some(count));
    lemma_escape_time_is_count(escaped, step, test_model, step_model, start, larger, again);
    lemma_escape_budget_invariant(
        test_model,
        step_model,
        start,
        count as nat,
        budget as nat,
        larger as nat,
    );
}

/// Stability of the run at a fixed point: from a point that has not escaped
/// and that the step leaves where it is, the run reports no escape, whatever
/// the budget.
pub proof fn lemma_escape_time_at_fixed_point<Z, E: Fn(Z) -> bool, S: Fn(Z) -> Z>(
    escaped: E,
    step: S,
    test_model: spec_fn(Z) -> bool,
    step_model: spec_fn(Z) -> Z,
    start: Z,
    budget: u32,
    result: Option<u32>,
)
    requires
        test_is(escaped, test_model),
        step_is(step, step_model),
        !test_model(start),
        step_model(start) == start,
        escape_run(escaped, step, start, budget, result),
    ensures
        result.is_none(),
{
    lemma_escape_time_is_count(escaped, step, test_model, step_model, start, budget, result);
    lemma_fixed_point_never_escapes(test_model, step_model, start, budget as nat);
}

/// `trail` is a Newton path from `start`: each point but the last was
/// corrected to the next one.
pub open spec fn newton_trail<Z, A: Fn(Z) -> Option<Z>>(advance: A, start: Z, trail: Seq<Z>) -> bool {
    &&& trail.len() >= 1
    &&& trail[0] == start
    &&& forall|j: int|
        0 <= j < trail.len() - 1 ==> advance.ensures((#[trigger] trail[j],), Some(trail[j + 1]))
}

/// `end` is what a Newton run from `start` can come to: the steps left over
/// and the last iterate of a path of `budget - end.0` corrections, which ended
/// early only because no further correction was due.
pub open spec fn newton_run<Z, A: Fn(Z) -> Option<Z>>(
    advance: A,
    start: Z,
    budget: u32,
    end: (u32, Z),
) -> bool {
    exists|trail: Seq<Z>|
        #![trigger newton_trail(advance, start, trail)]
        {
            &&& newton_trail(advance, start, trail)
            &&& end.0 <= budget
            &&& trail.len() == budget - end.0 + 1
            &&& trail[budget - end.0] == end.1
            &&& end.0 > 0 ==> advance.ensures((end.1,), None)
        }
}

/// The correction `advance` answers as `model` says, at every point.
pub open spec fn advance_is<Z, A: Fn(Z) -> Option<Z>>(
    advance: A,
    model: spec_fn(Z) -> Option<Z>,
) -> bool {
    forall|z: Z, answer: Option<Z>| #[trigger]
        advance.ensures((z,), answer) ==> answer == model(z)
}

/// Where a Newton run from `z` with `remaining` steps ends: the steps left
/// over, and the iterate at which it stopped.
pub open spec fn newton_end<Z>(advance: spec_fn(Z) -> Option<Z>, z: Z, remaining: nat) -> (nat, Z)
    decreases remaining,
{
    if remaining == 0 {
        (0nat, z)
    } else {
        match advance(z) {
            None => (remaining, z),
            Some(next) => newton_end(advance, next, (remaining - 1) as nat),
        }
    }
}

/// The correction can be computed at `start` and at every point that it
/// leads to.
pub open spec fn newton_callable<Z, A: Fn(Z) -> Option<Z>>(advance: A, start: Z) -> bool {
    &&& advance.requires((start,))
    &&& forall|z: Z, next: Z| #[trigger]
        advance.ensures((z,), Some(next)) ==> advance.requires((next,))
}

/// Runs Newton's method from `start`. `advance` computes the correction at a
/// point: nothing where the correction is below the tolerance, else the
/// corrected point. The run stops at the first point that needs no
/// correction, or after `budget` corrections. It returns the number of
/// corrections that were left and the last point; no steps left means that
/// the run did not converge.
pub fn newton_iterate<Z: Copy, A: Fn(Z) -> Option<Z>>(start: Z, budget: u32, advance: A) -> (end:
    (u32, Z))
    requires
        newton_callable(advance, start),
    ensures
        newton_run(advance, start, budget, end),
{
    let mut z = start;
    let mut remaining: u32 = budget;
    let ghost mut trail: Seq<Z> = seq![start];
    while remaining > 0
        invariant
            newton_callable(advance, z),
            remaining <= budget,
            trail.len() == budget - remaining + 1,
            trail[budget - remaining] == z,
            newton_trail(advance, start, trail),
        decreases remaining,
    {
        match advance(z) {
            None => {
                return (remaining, z);
            },
            Some(next) => {
                proof {
                    let longer = trail.push(next);
                    assert forall|j: int| 0 <= j < longer.len() - 1 implies advance.ensures(
                        (#[trigger] longer[j],),
                        Some(longer[j + 1]),
                    ) by {
                        if j < trail.len() - 1 {
                            assert(longer[j] == trail[j]);
                            assert(longer[j + 1] == trail[j + 1]);
                        }
                    }
                    trail = longer;
                }
                z = next;
                remaining -= 1;
            },
        }
    }
    (remaining, z)
}

/// Along a Newton path whose correction has a model, the run from any point
/// of the path ends where the run from the path's last point ends.
proof fn lemma_newton_suffix<Z, A: Fn(Z) -> Option<Z>>(
    advance: A,
    model: spec_fn(Z) -> Option<Z>,
    start: Z,
    trail: Seq<Z>,
    left: nat,
    from: int,
)
    requires
        newton_trail(advance, start, trail),
        advance_is(advance, model),
        0 <= from < trail.len(),
        left >= trail.len() - 1 - from,
    ensures
        newton_end(model, trail[from], left) == newton_end(
            model,
            trail[trail.len() - 1],
            (left - (trail.len() - 1 - from)) as nat,
        ),
    decreases trail.len() - from,
{
    if from < trail.len() - 1 {
        let here = trail[from];
        assert(advance.ensures((here,), Some(trail[from + 1])));
        assert(model(here) == Some(trail[from + 1]));
        lemma_newton_suffix(advance, model, start, trail, (left - 1) as nat, from + 1);
    }
}

/// Where the correction has a model, the run ends where the model's run ends.
pub proof fn lemma_newton_iterate_is_end<Z, A: Fn(Z) -> Option<Z>>(
    advance: A,
    model: spec_fn(Z) -> Option<Z>,
    start: Z,
    budget: u32,
    end: (u32, Z),
)
    requires
        newton_run(advance, start, budget, end),
        advance_is(advance, model),
    ensures
        newton_end(model, start, budget as nat) == (end.0 as nat, end.1),
{
    let trail = choose|trail: Seq<Z>|
        #![trigger newton_trail(advance, start, trail)]
        {
            &&& newton_trail(advance, start, trail)
            &&& end.0 <= budget
            &&& trail.len() == budget - end.0 + 1
            &&& trail[budget - end.0] == end.1
            &&& end.0 > 0 ==> advance.ensures((end.1,), None)
        };
    lemma_newton_suffix(advance, model, start, trail, budget as nat, 0);
    if end.0 > 0 {
        assert(model(end.1) == None::<Z>);
    }
}

/// Determinism: where the correction can give only one answer at each point,
/// two runs from the same point with the same budget end alike.
pub proof fn lemma_newton_deterministic<Z, A: Fn(Z) -> Option<Z>>(
    advance: A,
    model: spec_fn(Z) -> Option<Z>,
    start: Z,
    budget: u32,
    first: (u32, Z),
    second: (u32, Z),
)
    requires
        advance_is(advance, model),
        newton_run(advance, start, budget, first),
        newton_run(advance, start, budget, second),
    ensures
        first == second,
{
    lemma_newton_iterate_is_end(advance, model, start, budget, first);
    lemma_newton_iterate_is_end(advance, model, start, budget, second);
}

/// A run that stopped with steps to spare stops at the same point under any
/// larger budget, after the same number of corrections.
pub proof fn lemma_newton_budget_invariant<Z>(
    advance: spec_fn(Z) -> Option<Z>,
    start: Z,
    budget: nat,
    larger: nat,
)
    requires
        newton_end(advance, start, budget).0 > 0,
        budget <= larger,
    ensures
        newton_end(advance, start, larger).1 == newton_end(advance, start, budget).1,
        larger - newton_end(advance, start, larger).0 == budget - newton_end(
            advance,
            start,
            budget,
        ).0,
    decreases budget,
{
    if budget > 0 {
        match advance(start) {
            None => {},
            Some(next) => {
                lemma_newton_budget_invariant(
                    advance,
                    next,
                    (budget - 1) as nat,
                    (larger - 1) as nat,
                );
            },
        }
    }
}

/// A run never reports more steps left than it was given.
pub proof fn lemma_newton_end_bounded<Z>(advance: spec_fn(Z) -> Option<Z>, start: Z, budget: nat)
    ensures
        newton_end(advance, start, budget).0 <= budget,
    decreases budget,
{
    if budget > 0 {
        match advance(start) {
            None => {},
            Some(next) => {
                lemma_newton_end_bounded(advance, next, (budget - 1) as nat);
            },
        }
    }
}

} // verus!
