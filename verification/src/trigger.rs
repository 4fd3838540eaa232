use vstd::prelude::*;

verus! {

/// The interval a trigger gets when its owner names none: a fifth of a
/// second, in nanoseconds.
pub const DEFAULT_INTERVAL: u64 = 200_000_000;

/// Whether a pass that adds `delta` to an accumulator standing at `elapsed`
/// reaches the interval.
pub open spec fn fires(interval: int, elapsed: int, delta: int) -> bool {
    elapsed + delta >= interval
}

/// Where the accumulator stands after such a pass: back at zero when the
/// trigger fired, whatever the overshoot was, and at the sum otherwise.
pub open spec fn elapsed_after(interval: int, elapsed: int, delta: int) -> int {
    if fires(interval, elapsed, delta) {
        0
    } else {
        elapsed + delta
    }
}

/// Where the accumulator stands after one pass for each of `deltas`, in order.
pub open spec fn elapsed_after_all(interval: int, elapsed: int, deltas: Seq<u64>) -> int
    decreases deltas.len(),
{
    if deltas.len() == 0 {
        elapsed
    } else {
        elapsed_after(
            interval,
            elapsed_after_all(interval, elapsed, deltas.drop_last()),
            deltas.last() as int,
        )
    }
}

/// How many of those passes fire.
pub open spec fn fire_count(interval: int, elapsed: int, deltas: Seq<u64>) -> nat
    decreases deltas.len(),
{
    if deltas.len() == 0 {
        0
    } else {
        let before = deltas.drop_last();
        let fired = fires(
            interval,
            elapsed_after_all(interval, elapsed, before),
            deltas.last() as int,
        );
        fire_count(interval, elapsed, before) + if fired {
            1nat
        } else {
            0nat
        }
    }
}

/// The time that `deltas` add up to.
pub open spec fn total(deltas: Seq<u64>) -> int
    decreases deltas.len(),
{
    if deltas.len() == 0 {
        0
    } else {
        total(deltas.drop_last()) + deltas.last()
    }
}

/// Every pass that fires brings the accumulator to the interval exactly,
/// with no overshoot.
pub open spec fn lands_on_interval(interval: int, elapsed: int, deltas: Seq<u64>) -> bool
    decreases deltas.len(),
{
    if deltas.len() == 0 {
        true
    } else {
        let before = deltas.drop_last();
        let reached = elapsed_after_all(interval, elapsed, before) + deltas.last();
        lands_on_interval(interval, elapsed, before) && reached <= interval
    }
}

/// An interval and the time gathered towards it.
///
/// The accumulator never stands above the interval: a pass that reaches the
/// interval fires and puts it back to zero.
#[derive(Debug)]
pub struct TriggerState {
    interval: u64,
    elapsed: u64,
}

impl TriggerState {
    #[verifier::type_invariant]
    spec fn within_interval(&self) -> bool {
        self.elapsed <= self.interval
    }

    /// The configured interval, in nanoseconds.
    pub closed spec fn spec_interval(&self) -> u64 {
        self.interval
    }

    /// The time gathered since the trigger last fired, in nanoseconds.
    pub closed spec fn spec_elapsed(&self) -> u64 {
        self.elapsed
    }

    /// A repeating trigger with nothing gathered yet.
    pub fn new(interval: u64) -> (trigger: TriggerState)
        ensures
            trigger.spec_interval() == interval,
            trigger.spec_elapsed() == 0,
    {
        TriggerState { interval, elapsed: 0 }
    }

    #[verifier::when_used_as_spec(spec_interval)]
    pub fn interval(&self) -> (interval: u64)
        ensures
            interval == self.spec_interval(),
    {
        self.interval
    }

    #[verifier::when_used_as_spec(spec_elapsed)]
    pub fn elapsed(&self) -> (elapsed: u64)
        ensures
            elapsed == self.spec_elapsed(),
            elapsed <= self.spec_interval(),
    {
        proof {
            use_type_invariant(self);
        }
        self.elapsed
    }

    /// One scheduling pass: `delta` is the time since the previous pass.
    ///
    /// Fires when the gathered time reaches the interval, and then starts
    /// over from zero. However long the pass was, it fires at most once.
    pub fn tick(&mut self, delta: u64) -> (fired: bool)
        ensures
            fired == fires(
                old(self).spec_interval() as int,
                old(self).spec_elapsed() as int,
                delta as int,
            ),
            final(self).spec_interval() == old(self).spec_interval(),
            final(self).spec_elapsed() == elapsed_after(
                old(self).spec_interval() as int,
                old(self).spec_elapsed() as int,
                delta as int,
            ),
    {
        proof {
            use_type_invariant(&*self);
        }
        if delta >= self.interval - self.elapsed {
            self.elapsed = 0;
            true
        } else {
            self.elapsed = self.elapsed + delta;
            false
        }
    }

    /// One scheduling pass on behalf of a listener: `signal` is handed on
    /// when the trigger fires, and dropped when it does not.
    pub fn emit<T>(&mut self, delta: u64, signal: T) -> (emitted: Option<T>)
        ensures
            emitted == if fires(
                old(self).spec_interval() as int,
                old(self).spec_elapsed() as int,
                delta as int,
            ) {
                Some(signal)
            } else {
                None
            },
            final(self).spec_interval() == old(self).spec_interval(),
            final(self).spec_elapsed() == elapsed_after(
                old(self).spec_interval() as int,
                old(self).spec_elapsed() as int,
                delta as int,
            ),
    {
        if self.tick(delta) {
            Some(signal)
        } else {
            None
        }
    }

    /// Throws away the time gathered so far.
    pub fn reset(&mut self)
        ensures
            final(self).spec_interval() == old(self).spec_interval(),
            final(self).spec_elapsed() == 0,
    {
        self.elapsed = 0;
    }
}

impl Default for TriggerState {
    fn default() -> (trigger: TriggerState)
        ensures
            trigger.spec_interval() == DEFAULT_INTERVAL,
            trigger.spec_elapsed() == 0,
    {
        TriggerState::new(DEFAULT_INTERVAL)
    }
}

/// No fire accounts for no time, and one more fire for one more interval.
proof fn lemma_time_of_fires(count: int, interval: int)
    ensures
        0 * interval == 0,
        (count + 1) * interval == count * interval + interval,
{
    assert((count + 1) * interval == count * interval + interval) by (nonlinear_arith);
}

/// The accumulator stays below the interval, whatever the passes were.
pub proof fn lemma_elapsed_stays_below_interval(interval: int, elapsed: int, deltas: Seq<u64>)
    requires
        0 <= elapsed < interval,
    ensures
        0 <= elapsed_after_all(interval, elapsed, deltas) < interval,
    decreases deltas.len(),
{
    if deltas.len() > 0 {
        lemma_elapsed_stays_below_interval(interval, elapsed, deltas.drop_last());
    }
}

/// One pass fires at most once, and a pass long enough to span several
/// intervals still fires once and leaves nothing behind to catch up on.
pub proof fn lemma_long_pass_fires_once(interval: int, elapsed: int, delta: u64)
    requires
        0 <= elapsed,
        interval <= delta,
    ensures
        fire_count(interval, elapsed, seq![delta]) == 1,
        elapsed_after_all(interval, elapsed, seq![delta]) == 0,
{
    let passes = seq![delta];
    assert(passes.drop_last() =~= Seq::<u64>::empty());
    assert(passes.last() == delta);
    reveal_with_fuel(fire_count, 2);
    reveal_with_fuel(elapsed_after_all, 2);
}

/// Fires never outrun the clock: each one uses up at least a whole interval
/// of the time that went in.
pub proof fn lemma_fires_use_whole_intervals(interval: int, elapsed: int, deltas: Seq<u64>)
    requires
        0 < interval,
        0 <= elapsed < interval,
    ensures
        fire_count(interval, elapsed, deltas) * interval + elapsed_after_all(
            interval,
            elapsed,
            deltas,
        ) <= elapsed + total(deltas),
    decreases deltas.len(),
{
    if deltas.len() > 0 {
        let before = deltas.drop_last();
        lemma_fires_use_whole_intervals(interval, elapsed, before);
        lemma_elapsed_stays_below_interval(interval, elapsed, before);
        lemma_time_of_fires(fire_count(interval, elapsed, before) as int, interval);
    } else {
        lemma_time_of_fires(0, interval);
    }
}

/// When no pass overshoots, no time is lost: the fires account for exactly
/// one interval each, and the rest is still in the accumulator.
pub proof fn lemma_exact_passes_lose_nothing(interval: int, elapsed: int, deltas: Seq<u64>)
    requires
        0 < interval,
        0 <= elapsed < interval,
        lands_on_interval(interval, elapsed, deltas),
    ensures
        fire_count(interval, elapsed, deltas) * interval + elapsed_after_all(
            interval,
            elapsed,
            deltas,
        ) == elapsed + total(deltas),
    decreases deltas.len(),
{
    if deltas.len() > 0 {
        let before = deltas.drop_last();
        lemma_exact_passes_lose_nothing(interval, elapsed, before);
        lemma_time_of_fires(fire_count(interval, elapsed, before) as int, interval);
    } else {
        lemma_time_of_fires(0, interval);
    }
}

/// A fresh trigger fed passes that add up to `rounds` intervals fires
/// exactly `rounds` times, provided no pass overshoots the interval.
pub proof fn lemma_fires_once_per_interval(interval: int, deltas: Seq<u64>, rounds: nat)
    requires
        0 < interval,
        lands_on_interval(interval, 0, deltas),
        total(deltas) == rounds * interval,
    ensures
        fire_count(interval, 0, deltas) == rounds,
        elapsed_after_all(interval, 0, deltas) == 0,
{
    lemma_exact_passes_lose_nothing(interval, 0, deltas);
    lemma_elapsed_stays_below_interval(interval, 0, deltas);
    let count = fire_count(interval, 0, deltas) as int;
    let left = elapsed_after_all(interval, 0, deltas);
    let rounds = rounds as int;
    assert(count == rounds && left == 0) by (nonlinear_arith)
        requires
            count * interval + left == rounds * interval,
            0 <= left < interval,
            0 < interval,
    {
        assert((rounds - count) * interval == left);
        if rounds - count >= 1 {
            assert((rounds - count) * interval >= interval);
        }
        if rounds - count <= -1 {
            assert((rounds - count) * interval <= -interval);
        }
    }
}

/// A pass that overshoots the interval costs time: the fires and what is
/// left in the accumulator then account for less than went in.
pub proof fn lemma_overshoot_loses_time(interval: int, elapsed: int, deltas: Seq<u64>)
    requires
        0 < interval,
        0 <= elapsed < interval,
        !lands_on_interval(interval, elapsed, deltas),
    ensures
        fire_count(interval, elapsed, deltas) * interval + elapsed_after_all(
            interval,
            elapsed,
            deltas,
        ) < elapsed + total(deltas),
    decreases deltas.len(),
{
    if deltas.len() > 0 {
        let before = deltas.drop_last();
        let count = fire_count(interval, elapsed, before) as int;
        lemma_elapsed_stays_below_interval(interval, elapsed, before);
        if lands_on_interval(interval, elapsed, before) {
            lemma_exact_passes_lose_nothing(interval, elapsed, before);
        } else {
            lemma_overshoot_loses_time(interval, elapsed, before);
        }
        lemma_time_of_fires(count, interval);
    }
}

/// Passes that add up to `rounds` intervals but overshoot somewhere fire
/// fewer than `rounds` times: a trigger never catches up on a fire.
pub proof fn lemma_overshoot_drops_fires(interval: int, deltas: Seq<u64>, rounds: nat)
    requires
        0 < interval,
        !lands_on_interval(interval, 0, deltas),
        total(deltas) == rounds * interval,
    ensures
        fire_count(interval, 0, deltas) < rounds,
{
    lemma_overshoot_loses_time(interval, 0, deltas);
    lemma_elapsed_stays_below_interval(interval, 0, deltas);
    let count = fire_count(interval, 0, deltas) as int;
    let left = elapsed_after_all(interval, 0, deltas);
    let rounds = rounds as int;
    assert(count < rounds) by (nonlinear_arith)
        requires
            count * interval + left < rounds * interval,
            0 <= left,
            0 < interval,
    {
        if count >= rounds {
            assert(count * interval >= rounds * interval);
        }
    }
}

/// `steps` passes of the same length.
pub open spec fn even_steps(step: u64, steps: nat) -> Seq<u64> {
    Seq::new(steps, |i: int| step)
}

/// Passes of one length that divides the interval: a fresh trigger fires on
/// every `per_interval`-th pass and on no other.
pub proof fn lemma_even_steps(step: u64, per_interval: nat, steps: nat)
    requires
        0 < step,
        0 < per_interval,
    ensures
        fire_count(step * per_interval, 0, even_steps(step, steps)) == steps / per_interval,
        elapsed_after_all(step * per_interval, 0, even_steps(step, steps)) == (steps
            % per_interval) * step,
        lands_on_interval(step * per_interval, 0, even_steps(step, steps)),
        total(even_steps(step, steps)) == steps * step,
    decreases steps,
{
    let interval = step * per_interval;
    let passes = even_steps(step, steps);
    if steps > 0 {
        let fewer = (steps - 1) as nat;
        lemma_even_steps(step, per_interval, fewer);
        assert(passes.drop_last() =~= even_steps(step, fewer));
        assert(passes.last() == step);
        let before = (fewer % per_interval) * step;
        let k = per_interval as int;
        let n = steps as int;
        let s = step as int;
        assert(steps * step == fewer * step + step) by (nonlinear_arith)
            requires
                fewer == steps - 1,
        ;
        if fewer % per_interval == per_interval - 1 {
            assert(before + s == interval) by (nonlinear_arith)
                requires
                    before == (k - 1) * s,
                    interval == s * k,
            ;
            assert(n % k == 0 && n / k == (n - 1) / k + 1) by {
                vstd::arithmetic::div_mod::lemma_fundamental_div_mod(n - 1, k);
                assert(k * ((n - 1) / k + 1) == k * ((n - 1) / k) + k) by (nonlinear_arith);
                assert(((n - 1) / k + 1) * k == k * ((n - 1) / k + 1)) by (nonlinear_arith);
                vstd::arithmetic::div_mod::lemma_fundamental_div_mod_converse(
                    n,
                    k,
                    (n - 1) / k + 1,
                    0,
                );
            }
            assert((steps % per_interval) * step == 0) by (nonlinear_arith)
                requires
                    steps % per_interval == 0,
            ;
        } else {
            let r = (n - 1) % k;
            assert(0 <= r < k - 1);
            assert(before + s < interval) by (nonlinear_arith)
                requires
                    before == r * s,
                    interval == s * k,
                    0 <= r < k - 1,
                    0 < s,
            ;
            assert(n % k == r + 1 && n / k == (n - 1) / k) by {
                vstd::arithmetic::div_mod::lemma_fundamental_div_mod(n - 1, k);
                assert(((n - 1) / k) * k == k * ((n - 1) / k)) by (nonlinear_arith);
                vstd::arithmetic::div_mod::lemma_fundamental_div_mod_converse(
                    n,
                    k,
                    (n - 1) / k,
                    r + 1,
                );
            }
            assert((steps % per_interval) * step == before + s) by (nonlinear_arith)
                requires
                    steps % per_interval == r + 1,
                    before == r * s,
                    s == step,
            ;
        }
    } else {
        assert(0nat / per_interval == 0 && 0nat % per_interval == 0) by {
            vstd::arithmetic::div_mod::lemma_small_mod(0, per_interval);
            vstd::arithmetic::div_mod::lemma_basic_div(0, per_interval as int);
        }
    }
}

} // verus!
