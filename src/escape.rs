//! The escape-time counter of one sample point.
//!
//! An orbit is seen as a sequence of flags: entry `k` tells whether iterate
//! `k + 1` of `z <- z^2 + c` (started from `z = c`) lies outside the escape
//! radius, `|z|^2 > 4`. The count of a point is the number of steps its orbit
//! stays inside before the first escaping step, observing at most
//! `STEP_LIMIT` steps; a point that never escapes there counts `STEP_LIMIT`.
use vstd::prelude::*;

verus! {

/// Iteration cap of the recurrence; counts lie in `0..MAX_ITER`.
pub const MAX_ITER: u32 = 256;

/// Most steps observed for one point, `MAX_ITER - 1`.
pub const STEP_LIMIT: u32 = 255;

/// Number of leading non-escaping steps of `orbit`.
pub open spec fn bounded_steps(orbit: Seq<bool>) -> nat
    decreases orbit.len(),
{
    if orbit.len() == 0 {
        0
    } else if orbit[0] {
        0
    } else {
        1 + bounded_steps(orbit.drop_first())
    }
}

/// The first `STEP_LIMIT` flags of `orbit` (all of it if shorter).
pub open spec fn observed(orbit: Seq<bool>) -> Seq<bool> {
    if orbit.len() <= STEP_LIMIT {
        orbit
    } else {
        orbit.take(STEP_LIMIT as int)
    }
}

/// The escape count of a point whose orbit is `orbit`.
pub open spec fn escape_count(orbit: Seq<bool>) -> nat {
    bounded_steps(observed(orbit))
}

/// A counter that has consumed `seen` still takes flags: below the step limit
/// and no escaping step seen yet.
pub open spec fn counting(seen: Seq<bool>) -> bool {
    seen.len() < STEP_LIMIT && bounded_steps(seen) == seen.len()
}

/// What a counter has consumed after being offered `escaped`: a flag offered
/// to a counter that has stopped is ignored.
pub open spec fn counter_step(seen: Seq<bool>, escaped: bool) -> Seq<bool> {
    if counting(seen) {
        seen.push(escaped)
    } else {
        seen
    }
}

/// What a fresh counter has consumed after being offered the first `n` flags of `orbit`.
pub open spec fn run_counter(orbit: Seq<bool>, n: nat) -> Seq<bool>
    recommends
        n <= orbit.len(),
    decreases n,
{
    if n == 0 {
        Seq::empty()
    } else {
        counter_step(run_counter(orbit, (n - 1) as nat), orbit[n - 1])
    }
}

/// `bounded_steps` never exceeds the length, and equals it exactly when no flag is set.
pub proof fn lemma_bounded_steps_len(orbit: Seq<bool>)
    ensures
        bounded_steps(orbit) <= orbit.len(),
        bounded_steps(orbit) == orbit.len() <==> forall|k: int| 0 <= k < orbit.len() ==> !orbit[k],
        bounded_steps(orbit) < orbit.len() ==> orbit[bounded_steps(orbit) as int],
    decreases orbit.len(),
{
    if orbit.len() > 0 && !orbit[0] {
        let rest = orbit.drop_first();
        lemma_bounded_steps_len(rest);
        if bounded_steps(orbit) == orbit.len() {
            assert forall|k: int| 0 <= k < orbit.len() implies !orbit[k] by {
                if k > 0 {
                    assert(orbit[k] == rest[k - 1]);
                }
            }
        }
        if forall|k: int| 0 <= k < orbit.len() ==> !orbit[k] {
            assert forall|k: int| 0 <= k < rest.len() implies !rest[k] by {
                assert(rest[k] == orbit[k + 1]);
            }
        }
    }
}

/// Appending to a sequence with an escaping step keeps its count.
pub proof fn lemma_bounded_steps_push(seen: Seq<bool>, escaped: bool)
    ensures
        bounded_steps(seen) < seen.len() ==> bounded_steps(seen.push(escaped)) == bounded_steps(
            seen,
        ),
        bounded_steps(seen) == seen.len() ==> bounded_steps(seen.push(escaped)) == seen.len() + (
        if escaped {
            0int
        } else {
            1int
        }),
    decreases seen.len(),
{
    lemma_bounded_steps_len(seen);
    if seen.len() > 0 {
        let rest = seen.drop_first();
        assert(seen.push(escaped).drop_first() =~= rest.push(escaped));
        assert(seen.push(escaped)[0] == seen[0]);
        lemma_bounded_steps_push(rest, escaped);
    } else {
        assert(seen.push(escaped).drop_first() =~= Seq::<bool>::empty());
        assert(bounded_steps(Seq::<bool>::empty()) == 0);
        assert(seen.push(escaped)[0] == escaped);
    }
}

/// `bounded_steps(s)` is the one position `b` with no escaping step before it
/// and either the end of `s` or an escaping step at it.
pub proof fn lemma_bounded_steps_char(s: Seq<bool>, b: nat)
    requires
        b <= s.len(),
        forall|k: int| 0 <= k < b ==> !s[k],
        b == s.len() || s[b as int],
    ensures
        bounded_steps(s) == b,
{
    lemma_bounded_steps_len(s);
    let c = bounded_steps(s);
    if c < b {
        assert(s[c as int]);
    } else if c > b {
        assert(b < s.len());
        assert(!s[b as int]) by {
            if c == s.len() {
            } else {
                lemma_bounded_steps_prefix_false(s, b as int);
            }
        }
    }
}

/// Every flag before position `bounded_steps(s)` is unset.
pub proof fn lemma_bounded_steps_prefix_false(s: Seq<bool>, k: int)
    requires
        0 <= k < bounded_steps(s),
    ensures
        !s[k],
    decreases s.len(),
{
    lemma_bounded_steps_len(s);
    if k > 0 {
        let rest = s.drop_first();
        lemma_bounded_steps_prefix_false(rest, k - 1);
        assert(rest[k - 1] == s[k]);
    }
}

/// A counter offered flags of `orbit` has consumed a prefix of it, and while
/// it still counts it has consumed every flag offered.
pub proof fn lemma_run_counter_prefix(orbit: Seq<bool>, n: nat)
    requires
        n <= orbit.len(),
    ensures
        run_counter(orbit, n).len() <= n,
        run_counter(orbit, n).len() <= STEP_LIMIT,
        run_counter(orbit, n) =~= orbit.take(run_counter(orbit, n).len() as int),
        counting(run_counter(orbit, n)) ==> run_counter(orbit, n).len() == n,
    decreases n,
{
    if n > 0 {
        lemma_run_counter_prefix(orbit, (n - 1) as nat);
        let r = run_counter(orbit, (n - 1) as nat);
        if counting(r) {
            assert(orbit.take(n as int) =~= r.push(orbit[n - 1]));
            lemma_bounded_steps_push(r, orbit[n - 1]);
        }
    }
}

/// Once a counter stops, later flags change nothing.
pub proof fn lemma_run_counter_stopped(orbit: Seq<bool>, n: nat, m: nat)
    requires
        n <= m <= orbit.len(),
        !counting(run_counter(orbit, n)),
    ensures
        run_counter(orbit, m) == run_counter(orbit, n),
    decreases m - n,
{
    if m > n {
        lemma_run_counter_stopped(orbit, n, (m - 1) as nat);
    }
}

/// A counter fed the flags of an orbit one at a time, until it stops, holds
/// the escape count of that orbit.
pub proof fn lemma_counter_yields_escape_count(orbit: Seq<bool>, n: nat)
    requires
        STEP_LIMIT <= orbit.len(),
        n <= orbit.len(),
        !counting(run_counter(orbit, n)),
    ensures
        bounded_steps(run_counter(orbit, n)) == escape_count(orbit),
{
    if n < STEP_LIMIT {
        lemma_run_counter_stopped(orbit, n, STEP_LIMIT as nat);
    }
    let m: nat = if n < STEP_LIMIT { STEP_LIMIT as nat } else { n };
    lemma_run_counter_stopped(orbit, n, m);
    lemma_run_counter_prefix(orbit, m);
    let r = run_counter(orbit, m);
    let obs = observed(orbit);
    assert(obs =~= orbit.take(STEP_LIMIT as int));
    lemma_bounded_steps_len(r);
    let b = bounded_steps(r);
    if b == r.len() {
        assert(r.len() == STEP_LIMIT);
        assert(r =~= obs);
    } else {
        assert forall|k: int| 0 <= k < b implies !obs[k] by {
            lemma_bounded_steps_prefix_false(r, k);
            assert(r[k] == orbit[k]);
        }
        assert(r[b as int] == orbit[b as int]);
        lemma_bounded_steps_char(obs, b);
    }
}

/// The per-pixel state of the scalar kernel: how many steps the orbit has
/// stayed inside the escape radius, and whether it still iterates.
pub struct EscapeCounter {
    iter: u8,
    running: bool,
    seen: Ghost<Seq<bool>>,
}

impl View for EscapeCounter {
    type V = Seq<bool>;

    /// The flags the counter has consumed.
    closed spec fn view(&self) -> Seq<bool> {
        self.seen@
    }
}

impl EscapeCounter {
    /// The fields agree with the flags consumed.
    pub closed spec fn wf(&self) -> bool {
        &&& self.seen@.len() <= STEP_LIMIT
        &&& self.iter == bounded_steps(self.seen@)
        &&& self.running == counting(self.seen@)
    }

    /// A counter that has consumed nothing.
    pub fn new() -> (r: EscapeCounter)
        ensures
            r.wf(),
            r@ == Seq::<bool>::empty(),
    {
        EscapeCounter { iter: 0, running: true, seen: Ghost(Seq::empty()) }
    }

    /// Whether the counter still takes flags: fewer than `STEP_LIMIT` steps
    /// observed and none of them escaping.
    pub fn is_running(&self) -> (r: bool)
        requires
            self.wf(),
        ensures
            r == counting(self@),
    {
        self.running
    }

    /// Takes the outcome of the next step: `escaped` tells whether the new
    /// iterate lies outside the escape radius. An escaping step stops the
    /// counter without counting; any other step counts one. Ignored once the
    /// counter has stopped.
    pub fn observe(&mut self, escaped: bool)
        requires
            old(self).wf(),
        ensures
            final(self).wf(),
            final(self)@ == counter_step(old(self)@, escaped),
    {
        if self.running {
            proof {
                lemma_bounded_steps_push(self.seen@, escaped);
            }
            let ghost seen = self.seen@.push(escaped);
            if escaped {
                self.running = false;
            } else {
                self.iter = self.iter + 1;
                self.running = self.iter < 255;
            }
            self.seen = Ghost(seen);
        }
    }

    /// Steps counted so far; once the counter has stopped, the pixel value.
    pub fn count(&self) -> (r: u8)
        requires
            self.wf(),
        ensures
            r == bounded_steps(self@),
    {
        self.iter
    }
}

} // verus!
