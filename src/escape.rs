use vstd::prelude::*;

verus! {

/// The orbit is judged to have escaped at step `g` when the test made before
/// step `g` is the first positive one and `g` is below the bound.
pub open spec fn escapes_at(bound: nat, tests: Seq<bool>, g: nat) -> bool {
    &&& g < bound
    &&& g < tests.len()
    &&& tests[g as int]
    &&& forall|k: int| 0 <= k < g ==> !tests[k]
}

/// The escape index that a sequence of escape tests gives under `bound`.
pub open spec fn escape_index(bound: nat, tests: Seq<bool>) -> Option<nat>
    decreases tests.len(),
{
    if bound == 0 || tests.len() == 0 {
        None
    } else if tests[0] {
        Some(0)
    } else {
        match escape_index((bound - 1) as nat, tests.drop_first()) {
            Some(g) => Some(g + 1),
            None => None,
        }
    }
}

/// `orbit` starts at `start`, each point follows from the one before by `next`,
/// and `tests[k]` is what `outside` said of `orbit[k]`.
pub open spec fn is_trace<S, T: Fn(S) -> bool, N: Fn(S) -> S>(
    start: S,
    outside: T,
    next: N,
    orbit: Seq<S>,
    tests: Seq<bool>,
) -> bool {
    &&& orbit.len() == tests.len()
    &&& orbit.len() > 0 ==> orbit[0] == start
    &&& forall|k: int| 0 <= k < orbit.len() - 1 ==> next.ensures((orbit[k],), #[trigger] orbit[k + 1])
    &&& forall|k: int| 0 <= k < orbit.len() ==> outside.ensures((orbit[k],), #[trigger] tests[k])
}

/// `r` is what an escape-time run gives: there is an orbit from `start`, with
/// its tests, that ends at the escape step or runs the whole bound, and `r` is
/// its escape index.
pub open spec fn is_escape_result<S, T: Fn(S) -> bool, N: Fn(S) -> S>(
    bound: nat,
    start: S,
    outside: T,
    next: N,
    r: Option<u32>,
) -> bool {
    exists|orbit: Seq<S>, tests: Seq<bool>|
        {
            &&& is_trace(start, outside, next, orbit, tests)
            &&& tests.len() == match r {
                Some(g) => g + 1,
                None => bound as int,
            }
            &&& escape_index(bound, tests) == match r {
                Some(g) => Some(g as nat),
                None => None,
            }
        }
}

proof fn lemma_escape_index_at(bound: nat, tests: Seq<bool>, g: nat)
    requires
        escapes_at(bound, tests, g),
    ensures
        escape_index(bound, tests) == Some(g),
    decreases g,
{
    if g > 0 {
        assert(!tests[0]);
        let rest = tests.drop_first();
        assert forall|k: int| 0 <= k < g - 1 implies !rest[k] by {
            assert(!tests[k + 1]);
        }
        assert(rest[g - 1] == tests[g as int]);
        lemma_escape_index_at((bound - 1) as nat, rest, (g - 1) as nat);
    }
}

proof fn lemma_escape_index_none(bound: nat, tests: Seq<bool>)
    requires
        tests.len() >= bound,
        forall|k: int| 0 <= k < bound ==> !tests[k],
    ensures
        escape_index(bound, tests) == None::<nat>,
    decreases bound,
{
    if bound > 0 {
        let rest = tests.drop_first();
        assert forall|k: int| 0 <= k < bound - 1 implies !rest[k] by {
            assert(!tests[k + 1]);
        }
        lemma_escape_index_none((bound - 1) as nat, rest);
    }
}

/// Runs the escape-time iteration from `start`: before each of at most `bound`
/// steps, `outside` tests the current point; the first positive test ends the
/// run with its step index, and otherwise `next` gives the following point.
/// `None` means that no test within the bound was positive.
pub fn escape_time<S: Copy, T: Fn(S) -> bool, N: Fn(S) -> S>(
    bound: u32,
    start: S,
    outside: T,
    next: N,
) -> (r: Option<u32>)
    requires
        forall|z: S| outside.requires((z,)),
        forall|z: S| next.requires((z,)),
    ensures
        bound == 0 ==> r is None,
        r matches Some(g) ==> g < bound,
        is_escape_result(bound as nat, start, outside, next, r),
{
    let mut z = start;
    let mut g: u32 = 0;
    let ghost mut orbit: Seq<S> = Seq::empty();
    let ghost mut tests: Seq<bool> = Seq::empty();
    while g < bound
        invariant
            g <= bound,
            forall|z: S| outside.requires((z,)),
            forall|z: S| next.requires((z,)),
            orbit.len() == g,
            tests.len() == g,
            is_trace(start, outside, next, orbit, tests),
            g == 0 ==> z == start,
            g > 0 ==> next.ensures((orbit.last(),), z),
            forall|k: int| 0 <= k < g ==> !tests[k],
        decreases bound - g,
    {
        let out = outside(z);
        proof {
            let old_orbit = orbit;
            orbit = orbit.push(z);
            tests = tests.push(out);
            assert forall|k: int| 0 <= k < orbit.len() - 1 implies next.ensures(
                (orbit[k],),
                #[trigger] orbit[k + 1],
            ) by {
                if k < g - 1 {
                    assert(old_orbit[k + 1] == orbit[k + 1]);
                }
            }
        }
        if out {
            proof {
                assert(escapes_at(bound as nat, tests, g as nat));
                lemma_escape_index_at(bound as nat, tests, g as nat);
                assert(is_trace(start, outside, next, orbit, tests));
            }
            return Some(g);
        }
        z = next(z);
        g = g + 1;
    }
    proof {
        lemma_escape_index_none(bound as nat, tests);
        assert(is_trace(start, outside, next, orbit, tests));
    }
    None
}

/// A run whose starting point tests inside, and whose next point tests outside,
/// escapes at step 1 whenever the bound allows two tests.
pub proof fn lemma_escapes_after_one_step<S, T: Fn(S) -> bool, N: Fn(S) -> S>(
    bound: u32,
    start: S,
    outside: T,
    next: N,
    r: Option<u32>,
)
    requires
        bound >= 2,
        forall|b: bool| outside.ensures((start,), b) ==> !b,
        forall|z: S, b: bool| next.ensures((start,), z) && outside.ensures((z,), b) ==> b,
        is_escape_result(bound as nat, start, outside, next, r),
    ensures
        r == Some(1u32),
{
    let (orbit, tests) = choose|orbit: Seq<S>, tests: Seq<bool>|
        {
            &&& is_trace(start, outside, next, orbit, tests)
            &&& tests.len() == match r {
                Some(g) => g + 1,
                None => bound as int,
            }
            &&& escape_index(bound as nat, tests) == match r {
                Some(g) => Some(g as nat),
                None => None,
            }
        };
    assert(outside.ensures((orbit[0],), tests[0]));
    if tests.len() >= 2 {
        let z0: int = 0;
        assert(next.ensures((orbit[z0],), orbit[z0 + 1]));
        assert(outside.ensures((orbit[1],), tests[1]));
        assert(escapes_at(bound as nat, tests, 1));
        lemma_escape_index_at(bound as nat, tests, 1);
    }
}

/// A starting point that tests inside and that `next` leaves where it is never
/// escapes, whatever the bound.
pub proof fn lemma_inside_fixed_point_never_escapes<S, T: Fn(S) -> bool, N: Fn(S) -> S>(
    bound: u32,
    start: S,
    outside: T,
    next: N,
    r: Option<u32>,
)
    requires
        forall|b: bool| outside.ensures((start,), b) ==> !b,
        forall|z: S| next.ensures((start,), z) ==> z == start,
        is_escape_result(bound as nat, start, outside, next, r),
    ensures
        r is None,
{
    let (orbit, tests) = choose|orbit: Seq<S>, tests: Seq<bool>|
        {
            &&& is_trace(start, outside, next, orbit, tests)
            &&& tests.len() == match r {
                Some(g) => g + 1,
                None => bound as int,
            }
            &&& escape_index(bound as nat, tests) == match r {
                Some(g) => Some(g as nat),
                None => None,
            }
        };
    assert forall|k: int| 0 <= k < orbit.len() implies orbit[k] == start by {
        lemma_orbit_stays(start, outside, next, orbit, tests, k);
    }
    if let Some(g) = r {
        assert(escapes_at(bound as nat, tests, g as nat)) by {
            lemma_escape_index_found(bound as nat, tests);
        }
        assert(outside.ensures((orbit[g as int],), tests[g as int]));
    }
}

proof fn lemma_orbit_stays<S, T: Fn(S) -> bool, N: Fn(S) -> S>(
    start: S,
    outside: T,
    next: N,
    orbit: Seq<S>,
    tests: Seq<bool>,
    k: int,
)
    requires
        forall|z: S| next.ensures((start,), z) ==> z == start,
        is_trace(start, outside, next, orbit, tests),
        0 <= k < orbit.len(),
    ensures
        orbit[k] == start,
    decreases k,
{
    if k > 0 {
        lemma_orbit_stays(start, outside, next, orbit, tests, k - 1);
        let km = k - 1;
        assert(next.ensures((orbit[km],), orbit[km + 1]));
    }
}

proof fn lemma_escape_index_found(bound: nat, tests: Seq<bool>)
    requires
        escape_index(bound, tests) is Some,
    ensures
        escapes_at(bound, tests, escape_index(bound, tests)->Some_0),
    decreases tests.len(),
{
    if bound > 0 && tests.len() > 0 && !tests[0] {
        let rest = tests.drop_first();
        lemma_escape_index_found((bound - 1) as nat, rest);
        let g = escape_index((bound - 1) as nat, rest)->Some_0;
        assert forall|k: int| 0 <= k < g + 1 implies !tests[k] by {
            if k > 0 {
                assert(tests[k] == rest[k - 1]);
            }
        }
    }
}

} // verus!
