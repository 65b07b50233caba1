//! When the ranking call to an endpoint is made: the policy the user picked, and the circuit that
//! leaves an endpoint alone for a while after it failed too often.

use crate::durations;
use vstd::prelude::*;

verus! {

/// How the user wants codebase searches to be ranked.
#[derive(Clone, Copy, Debug, PartialEq, Eq, Structural)]
pub enum ByoRankingMode {
    LexicalOnly,
    Balanced,
    Patient,
}

/// Whether a mode asks the endpoint.
pub open spec fn asks_endpoint(mode: ByoRankingMode) -> bool {
    mode != ByoRankingMode::LexicalOnly
}

/// How many seconds a mode waits for the endpoint.
pub open spec fn ranking_seconds(mode: ByoRankingMode) -> nat {
    match mode {
        ByoRankingMode::LexicalOnly => 0,
        ByoRankingMode::Balanced => 20,
        ByoRankingMode::Patient => 60,
    }
}

/// Ranking is worth more than a fast failure: a slow answer still routes the agent to the right
/// files, so even the shortest remote budget is wider than the one autofill can afford, but for
/// autofill's longest wait, which it equals.
#[derive(Clone, Copy, Debug, PartialEq, Eq)]
pub struct RankingPolicy {
    /// Whether the endpoint is asked at all; without it the lexical order is the answer.
    pub remote: bool,
    pub timeout: std::time::Duration,
    /// Consecutive failures after which the endpoint is left alone for `cooldown`.
    pub failure_limit: u32,
    pub cooldown: std::time::Duration,
}

impl RankingPolicy {
    /// The cooldown in whole milliseconds, as far as 64 bits hold them.
    pub open spec fn cooldown_ms(&self) -> nat {
        (durations::nanoseconds(self.cooldown) / 1_000_000) % 0x1_0000_0000_0000_0000
    }

    /// The policy that a mode stands for.
    pub fn for_mode(mode: ByoRankingMode) -> (policy: Self)
        ensures
            policy.remote == asks_endpoint(mode),
            durations::nanoseconds(policy.timeout) == ranking_seconds(mode) * 1_000_000_000,
            policy.failure_limit == (if asks_endpoint(mode) {
                2
            } else {
                u32::MAX
            }),
            durations::nanoseconds(policy.cooldown) == (if asks_endpoint(mode) {
                600_000_000_000nat
            } else {
                0
            }),
    {
        match mode {
            ByoRankingMode::LexicalOnly => RankingPolicy {
                remote: false,
                timeout: std::time::Duration::from_secs(0),
                failure_limit: u32::MAX,
                cooldown: std::time::Duration::from_secs(0),
            },
            ByoRankingMode::Balanced => RankingPolicy {
                remote: true,
                timeout: std::time::Duration::from_secs(20),
                failure_limit: 2,
                cooldown: std::time::Duration::from_secs(600),
            },
            ByoRankingMode::Patient => RankingPolicy {
                remote: true,
                timeout: std::time::Duration::from_secs(60),
                failure_limit: 2,
                cooldown: std::time::Duration::from_secs(600),
            },
        }
    }
}

/// Health of the remote ranking call.
#[derive(Debug)]
pub struct RankingCircuit {
    failures: u32,
    suspended_until_ms: u64,
}

/// What a [`RankingCircuit`] remembers.
pub struct CircuitView {
    /// Failures since the last success or suspension.
    pub failures: nat,
    pub suspended_until_ms: nat,
}

impl CircuitView {
    /// No failure, no suspension.
    pub open spec fn fresh() -> CircuitView {
        CircuitView { failures: 0, suspended_until_ms: 0 }
    }

    /// Whether the endpoint is left alone at the given time.
    pub open spec fn is_suspended(self, now_ms: nat) -> bool {
        now_ms < self.suspended_until_ms
    }

    /// Whether one more failure reaches the limit.
    pub open spec fn is_at_limit(self, failure_limit: nat) -> bool {
        self.failures + 1 >= failure_limit
    }

    /// What is remembered after one more failure.
    pub open spec fn after_failure(
        self,
        failure_limit: nat,
        cooldown_ms: nat,
        now_ms: nat,
    ) -> CircuitView {
        if self.is_at_limit(failure_limit) {
            CircuitView { failures: 0, suspended_until_ms: now_ms + cooldown_ms }
        } else {
            CircuitView { failures: self.failures + 1, ..self }
        }
    }

    /// What is remembered after failures at the given times, one after the other.
    pub open spec fn after_failures(
        self,
        failure_limit: nat,
        cooldown_ms: nat,
        times: Seq<nat>,
    ) -> CircuitView
        decreases times.len(),
    {
        if times.len() == 0 {
            self
        } else {
            self.after_failures(failure_limit, cooldown_ms, times.drop_last()).after_failure(
                failure_limit,
                cooldown_ms,
                times.last(),
            )
        }
    }
}

impl RankingCircuit {
    /// One more failure can always be counted: the count starts over before it is full.
    #[verifier::type_invariant]
    spec fn is_valid(self) -> bool {
        self.failures < u32::MAX
    }

    pub closed spec fn view(&self) -> CircuitView {
        CircuitView {
            failures: self.failures as nat,
            suspended_until_ms: self.suspended_until_ms as nat,
        }
    }

    /// A circuit that has seen no failure.
    pub fn new() -> (circuit: Self)
        ensures
            circuit@ == CircuitView::fresh(),
    {
        RankingCircuit { failures: 0, suspended_until_ms: 0 }
    }

    /// Whether the endpoint is left alone at the given time.
    pub fn is_suspended(&self, now_ms: u64) -> (suspended: bool)
        ensures
            suspended == self@.is_suspended(now_ms as nat),
    {
        now_ms < self.suspended_until_ms
    }

    /// Whether one more failure reaches the policy's limit.
    pub fn is_at_limit(&self, policy: &RankingPolicy) -> (reached: bool)
        ensures
            reached == self@.is_at_limit(policy.failure_limit as nat),
    {
        proof {
            use_type_invariant(self);
        }
        self.failures + 1 >= policy.failure_limit
    }

    /// Counts a failure; at the policy's limit the endpoint is suspended for the cooldown and the
    /// count starts over.
    pub fn note_failure(&mut self, policy: &RankingPolicy, now_ms: u64)
        requires
            old(self)@.is_at_limit(policy.failure_limit as nat) ==> now_ms + policy.cooldown_ms()
                <= u64::MAX,
        ensures
            final(self)@ == old(self)@.after_failure(
                policy.failure_limit as nat,
                policy.cooldown_ms(),
                now_ms as nat,
            ),
    {
        proof {
            use_type_invariant(&*self);
        }
        if self.is_at_limit(policy) {
            let millis: u128 = policy.cooldown.as_millis();
            let cooldown_ms: u64 = #[verifier::truncate]
            (millis as u64);
            assert(cooldown_ms as u128 == millis % 0x1_0000_0000_0000_0000) by (bit_vector)
                requires
                    cooldown_ms == millis as u64,
            ;
            self.failures = 0;
            self.suspended_until_ms = now_ms + cooldown_ms;
        } else {
            self.failures = self.failures + 1;
        }
    }

    /// Forgets all failures and lifts the suspension.
    pub fn note_success(&mut self)
        ensures
            final(self)@ == CircuitView::fresh(),
    {
        self.failures = 0;
        self.suspended_until_ms = 0;
    }
}

/// A circuit is seen as it is.
proof fn lemma_circuits_are_seen_whole(circuit: RankingCircuit)
    ensures
        circuit@.failures == circuit.failures,
        circuit@.suspended_until_ms == circuit.suspended_until_ms,
{
}

impl Clone for RankingCircuit {
    fn clone(&self) -> (copy: Self)
        ensures
            copy@ == self@,
    {
        proof {
            use_type_invariant(self);
        }
        RankingCircuit { failures: self.failures, suspended_until_ms: self.suspended_until_ms }
    }
}

/// Fewer failures in a row than the limit are counted and suspend nothing.
pub proof fn failures_below_the_limit_suspend_nothing(
    circuit: CircuitView,
    failure_limit: nat,
    cooldown_ms: nat,
    times: Seq<nat>,
)
    requires
        circuit.failures == 0,
        times.len() == 0 || times.len() < failure_limit,
    ensures
        circuit.after_failures(failure_limit, cooldown_ms, times) == (CircuitView {
            failures: times.len(),
            ..circuit
        }),
    decreases times.len(),
{
    if times.len() > 0 {
        failures_below_the_limit_suspend_nothing(
            circuit,
            failure_limit,
            cooldown_ms,
            times.drop_last(),
        );
    }
}

/// As many failures in a row as the limit suspend the endpoint: from the last of them until the
/// cooldown has passed, and no longer. The count starts over.
pub proof fn failures_at_the_limit_suspend_for_the_cooldown(
    circuit: CircuitView,
    failure_limit: nat,
    cooldown_ms: nat,
    times: Seq<nat>,
    now_ms: nat,
)
    requires
        circuit.failures == 0,
        times.len() == failure_limit,
        failure_limit > 0,
    ensures
        ({
            let after = circuit.after_failures(failure_limit, cooldown_ms, times);
            &&& after.failures == 0
            &&& after.is_suspended(now_ms) <==> now_ms < times.last() + cooldown_ms
        }),
{
    failures_below_the_limit_suspend_nothing(
        circuit,
        failure_limit,
        cooldown_ms,
        times.drop_last(),
    );
}

/// A success between failures resets the count: whatever came before it, fewer failures after it
/// than the limit leave the endpoint in use at all times.
pub proof fn success_resets_the_count(
    failure_limit: nat,
    cooldown_ms: nat,
    times: Seq<nat>,
    now_ms: nat,
)
    requires
        times.len() == 0 || times.len() < failure_limit,
    ensures
        !CircuitView::fresh().after_failures(failure_limit, cooldown_ms, times).is_suspended(
            now_ms,
        ),
{
    failures_below_the_limit_suspend_nothing(
        CircuitView::fresh(),
        failure_limit,
        cooldown_ms,
        times,
    );
}

/// A cooldown counts in whole milliseconds: at least what it says, rounded down.
pub proof fn cooldowns_count_in_milliseconds(policy: RankingPolicy)
    requires
        durations::nanoseconds(policy.cooldown) / 1_000_000 <= u64::MAX,
    ensures
        policy.cooldown_ms() * 1_000_000 <= durations::nanoseconds(policy.cooldown),
        durations::nanoseconds(policy.cooldown) < (policy.cooldown_ms() + 1) * 1_000_000,
{
}

/// One more failure is counted and changes nothing else, as long as the limit is not reached. At
/// the limit the endpoint is left alone from then on for exactly the cooldown, and the count
/// starts over.
pub proof fn each_failure_counts_once(
    circuit: CircuitView,
    failure_limit: nat,
    cooldown_ms: nat,
    now_ms: nat,
    later_ms: nat,
)
    ensures
        circuit.failures + 1 < failure_limit ==> circuit.after_failure(
            failure_limit,
            cooldown_ms,
            now_ms,
        ).failures == circuit.failures + 1 && circuit.after_failure(
            failure_limit,
            cooldown_ms,
            now_ms,
        ).is_suspended(later_ms) == circuit.is_suspended(later_ms),
        circuit.failures + 1 >= failure_limit ==> circuit.after_failure(
            failure_limit,
            cooldown_ms,
            now_ms,
        ).failures == 0 && (circuit.after_failure(
            failure_limit,
            cooldown_ms,
            now_ms,
        ).is_suspended(later_ms) <==> later_ms < now_ms + cooldown_ms),
        circuit.is_suspended(later_ms) <==> later_ms < circuit.suspended_until_ms,
        !CircuitView::fresh().is_suspended(later_ms),
        CircuitView::fresh().failures == 0,
{
}

} // verus!
