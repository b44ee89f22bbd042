use vstd::prelude::*;

verus! {

/// Result of iterating `z <- z^2 + c` from `z = 0` under a cap `take`.
#[derive(Clone, Copy, Debug, PartialEq, Eq, Structural)]
pub struct IterationResult {
    /// Number of completed iterations.
    pub count: u32,
    /// Whether `|z| > 2` was seen before `count` reached the cap.
    pub escaped: bool,
}

/// The result owed for a sequence of threshold tests, where `tests[j]` says
/// whether `|z_(j+1)| > 2`, starting the search at iteration `n + 1`.
pub open spec fn escape_from(tests: Seq<bool>, take: nat, n: nat) -> (nat, bool)
    decreases take - n,
{
    if n + 1 >= take {
        (take, false)
    } else if tests[n as int] {
        ((n + 1) as nat, true)
    } else {
        escape_from(tests, take, n + 1)
    }
}

/// The first iteration below the cap whose test reports an escape, or
/// `(take, false)` when there is none.
pub open spec fn escape_spec(tests: Seq<bool>, take: nat) -> (nat, bool) {
    escape_from(tests, take, 0)
}

impl IterationResult {
    pub open spec fn view_pair(self) -> (nat, bool) {
        (self.count as nat, self.escaped)
    }

    /// The state before the first iteration.
    pub fn start() -> (r: IterationResult)
        ensures
            r.count == 0,
            !r.escaped,
    {
        IterationResult { count: 0, escaped: false }
    }

    /// Whether another iteration must be run under the cap `take`.
    pub fn is_running(&self, take: u32) -> (r: bool)
        ensures
            r == (!self.escaped && self.count < take),
    {
        !self.escaped && self.count < take
    }

    /// Records one completed iteration whose threshold test gave `exceeded`.
    /// An escape seen at the cap itself does not count as an escape.
    pub fn advance(self, exceeded: bool, take: u32) -> (r: IterationResult)
        requires
            !self.escaped,
            self.count < take,
        ensures
            r.count == self.count + 1,
            r.escaped == (exceeded && self.count + 1 < take),
    {
        let count = self.count + 1;
        IterationResult { count, escaped: exceeded && count < take }
    }
}

/// Runs the escape decision over precomputed threshold tests: `tests[j]` is
/// the outcome of `|z_(j+1)| > 2`.
pub fn evaluate_tests(tests: &Vec<bool>, take: u32) -> (r: IterationResult)
    requires
        tests@.len() + 1 >= take,
    ensures
        r.view_pair() == escape_spec(tests@, take as nat),
        r.count <= take,
        r.escaped ==> 1 <= r.count < take,
        !r.escaped ==> r.count == take,
{
    let mut st = IterationResult::start();
    while st.is_running(take)
        invariant
            tests@.len() + 1 >= take,
            st.count <= take,
            !st.escaped ==> escape_from(tests@, take as nat, st.count as nat) == escape_spec(
                tests@,
                take as nat,
            ),
            st.escaped ==> st.view_pair() == escape_spec(tests@, take as nat),
        decreases take - st.count,
    {
        let exceeded = if st.count + 1 < take {
            tests[st.count as usize]
        } else {
            false
        };
        st = st.advance(exceeded, take);
    }
    proof {
        lemma_escape_bounds(tests@, take as nat);
    }
    st
}

proof fn lemma_escape_from_bounds(tests: Seq<bool>, take: nat, n: nat)
    ensures
        escape_from(tests, take, n).0 <= take,
        escape_from(tests, take, n).1 ==> n + 1 <= escape_from(tests, take, n).0 < take,
        !escape_from(tests, take, n).1 ==> escape_from(tests, take, n).0 == take,
    decreases take - n,
{
    if n + 1 < take && !tests[n as int] {
        lemma_escape_from_bounds(tests, take, n + 1);
    }
}

/// Whatever the test outcomes, the count stays within `[0, take]`; an escape
/// is reported only below the cap, and a non-escape only at the cap.
pub proof fn lemma_escape_bounds(tests: Seq<bool>, take: nat)
    ensures
        escape_spec(tests, take).0 <= take,
        escape_spec(tests, take).1 ==> 1 <= escape_spec(tests, take).0 < take,
        !escape_spec(tests, take).1 ==> escape_spec(tests, take).0 == take,
{
    lemma_escape_from_bounds(tests, take, 0);
}

/// The exact iterate `z_n` of `z <- z^2 + c` for a point `c = cr + ci*i`
/// with integer coordinates, as a pair (real, imaginary).
pub open spec fn orbit(cr: int, ci: int, n: nat) -> (int, int)
    decreases n,
{
    if n == 0 {
        (0, 0)
    } else {
        let z = orbit(cr, ci, (n - 1) as nat);
        (z.0 * z.0 - z.1 * z.1 + cr, 2 * z.0 * z.1 + ci)
    }
}

/// `|z| > 2`, compared as `|z|^2 > 4`.
pub open spec fn exceeds_two(z: (int, int)) -> bool {
    z.0 * z.0 + z.1 * z.1 > 4
}

/// Exact threshold tests of the first `len` iterations for `c = cr + ci*i`.
pub open spec fn exact_tests(cr: int, ci: int, len: nat) -> Seq<bool> {
    Seq::new(len, |j: int| exceeds_two(orbit(cr, ci, (j + 1) as nat)))
}

proof fn lemma_origin_orbit(n: nat)
    ensures
        orbit(0, 0, n) == (0int, 0int),
    decreases n,
{
    if n > 0 {
        lemma_origin_orbit((n - 1) as nat);
    }
}

proof fn lemma_origin_from(take: nat, n: nat)
    ensures
        escape_from(exact_tests(0, 0, take), take, n) == (take, false),
    decreases take - n,
{
    if n + 1 < take {
        lemma_origin_orbit(n + 1);
        lemma_origin_from(take, n + 1);
    }
}

/// `c = 0` never escapes: its orbit stays at 0, so the result is
/// `(take, false)` for every cap.
pub proof fn lemma_origin_never_escapes(take: nat)
    requires
        take >= 1,
    ensures
        escape_spec(exact_tests(0, 0, take), take) == (take, false),
{
    lemma_origin_from(take, 0);
}

/// `c = 5` escapes at the first iteration (`|z_1| = 5 > 2`) under any cap
/// of at least 2; under a cap of 1 no escape can be reported.
pub proof fn lemma_five_escapes_first(take: nat)
    requires
        take >= 2,
    ensures
        escape_spec(exact_tests(5, 0, take), take) == (1nat, true),
{
    reveal_with_fuel(orbit, 2);
    assert(orbit(5, 0, 1) == (5int, 0int));
    assert(exact_tests(5, 0, take)[0]);
}

} // verus!
