use vstd::arithmetic::div_mod::{lemma_fundamental_div_mod, lemma_fundamental_div_mod_converse};
use vstd::prelude::*;

use crate::error::VolestiError;

verus! {

/// Burn-in length of the default ball walk configuration.
pub const DEFAULT_BURN_IN: usize = 100;

/// Thinning of the default ball walk configuration: every step is kept.
pub const DEFAULT_THINNING: usize = 1;

/// A sampler must be asked for at least one sample.
pub fn check_sample_count(n_samples: usize) -> (r: Result<(), VolestiError>)
    ensures
        r == if n_samples == 0 {
            Err::<(), VolestiError>(VolestiError::ZeroSamples)
        } else {
            Ok(())
        },
{
    if n_samples == 0 {
        Err(VolestiError::ZeroSamples)
    } else {
        Ok(())
    }
}

/// The checks a ball walk makes before it takes any step.
///
/// `start_membership` is the outcome of testing the starting point against the
/// polytope: `Ok(inside)`, or the error that test reported.
pub fn validate_walk_start(
    n_samples: usize,
    start_membership: Result<bool, VolestiError>,
) -> (r: Result<(), VolestiError>)
    ensures
        n_samples == 0 ==> r == Err::<(), VolestiError>(VolestiError::ZeroSamples),
        n_samples > 0 ==> r == (match start_membership {
            Ok(true) => Ok::<(), VolestiError>(()),
            Ok(false) => Err(VolestiError::InfeasiblePolytope),
            Err(e) => Err(e),
        }),
{
    check_sample_count(n_samples)?;
    match start_membership {
        Ok(true) => Ok(()),
        Ok(false) => Err(VolestiError::InfeasiblePolytope),
        Err(e) => Err(e),
    }
}

/// The abstract state of a ball walk: its parameters and, for every proposal
/// made so far, whether the candidate lay inside the polytope.
pub struct WalkModel {
    pub burn_in: nat,
    pub thinning: nat,
    pub n_samples: nat,
    pub accepted: Seq<bool>,
}

impl WalkModel {
    /// Number of proposals a complete walk makes.
    pub open spec fn total_proposals(self) -> nat {
        self.burn_in + self.n_samples * self.thinning
    }

    pub open spec fn is_finished(self) -> bool {
        self.accepted.len() == self.total_proposals()
    }

    /// Whether the walk records a sample right after its `t`-th proposal
    /// (proposals counted from 1).
    pub open spec fn records_at(self, t: nat) -> bool {
        t > self.burn_in && (t - self.burn_in) % (self.thinning as int) == 0
    }

    /// Number of samples recorded once `t` proposals have been made.
    pub open spec fn samples_after(self, t: nat) -> nat {
        if t <= self.burn_in {
            0
        } else {
            ((t - self.burn_in) / (self.thinning as int)) as nat
        }
    }

    /// The proposal count at which sample `j` (counted from 0) is recorded.
    pub open spec fn record_time(self, j: nat) -> nat {
        self.burn_in + (j + 1) * self.thinning
    }
}

/// Where the chain stands after the first `t` proposals: the index of the last
/// accepted proposal, or -1 while it is still at its starting point.
pub open spec fn chain_position(accepted: Seq<bool>, t: int) -> int
    decreases t,
{
    if t <= 0 {
        -1
    } else if accepted[t - 1] {
        t - 1
    } else {
        chain_position(accepted, t - 1)
    }
}

/// Number of proposals among the first `t` after which the walk records a sample.
pub open spec fn recorded_count(m: WalkModel, t: nat) -> nat
    decreases t,
{
    if t == 0 {
        0
    } else {
        recorded_count(m, (t - 1) as nat) + if m.records_at(t) {
            1nat
        } else {
            0nat
        }
    }
}

/// What the caller of `WalkSchedule::advance` does with the current proposal.
#[derive(Debug, Clone, Copy, PartialEq, Eq, Structural)]
pub struct StepAction {
    /// The chain moves to the candidate point.
    pub move_to_candidate: bool,
    /// The current point (after the move, if any) is appended to the samples.
    pub record_sample: bool,
}

/// The decisions of a ball walk: burn-in, acceptance and thinning.
///
/// The caller draws each candidate point and tests it against the polytope;
/// `advance` says whether the chain moves and whether a sample is taken.
pub struct WalkSchedule {
    burn_in: usize,
    thinning: usize,
    n_samples: usize,
    sampling_steps: usize,
    burned: usize,
    step: usize,
    recorded: usize,
    accepted: Ghost<Seq<bool>>,
}

impl View for WalkSchedule {
    type V = WalkModel;

    closed spec fn view(&self) -> WalkModel {
        WalkModel {
            burn_in: self.burn_in as nat,
            thinning: self.thinning as nat,
            n_samples: self.n_samples as nat,
            accepted: self.accepted@,
        }
    }
}

/// `(s + 1) / t` grows by one exactly when `t` divides `s + 1`.
proof fn lemma_div_succ(s: int, t: int)
    requires
        s >= 0,
        t > 0,
    ensures
        (s + 1) / t == s / t + if (s + 1) % t == 0 {
            1int
        } else {
            0int
        },
{
    lemma_fundamental_div_mod(s, t);
    let q: int = s / t;
    let r: int = s % t;
    if r + 1 == t {
        assert(s + 1 == (q + 1) * t + 0) by (nonlinear_arith)
            requires
                s == t * q + r,
                r + 1 == t,
        ;
        lemma_fundamental_div_mod_converse(s + 1, t, q + 1, 0);
    } else {
        assert(s + 1 == q * t + (r + 1)) by (nonlinear_arith)
            requires
                s == t * q + r,
        ;
        lemma_fundamental_div_mod_converse(s + 1, t, q, r + 1);
    }
}

impl WalkSchedule {
    #[verifier::type_invariant]
    spec fn inv(self) -> bool {
        &&& self.thinning > 0
        &&& self.sampling_steps == self.n_samples * self.thinning
        &&& self.burned <= self.burn_in
        &&& self.step <= self.sampling_steps
        &&& self.step > 0 ==> self.burned == self.burn_in
        &&& self.accepted@.len() == self.burned + self.step
        &&& self.recorded == self.step / self.thinning
    }

    /// A walk that discards `burn_in` proposals and then keeps one point out of
    /// every `thinning` proposals until it holds `n_samples` samples.
    pub fn new(burn_in: usize, thinning: usize, n_samples: usize) -> (s: Self)
        requires
            thinning > 0,
            n_samples * thinning <= usize::MAX,
        ensures
            s@ == (WalkModel {
                burn_in: burn_in as nat,
                thinning: thinning as nat,
                n_samples: n_samples as nat,
                accepted: Seq::<bool>::empty(),
            }),
    {
        WalkSchedule {
            burn_in,
            thinning,
            n_samples,
            sampling_steps: n_samples * thinning,
            burned: 0,
            step: 0,
            recorded: 0,
            accepted: Ghost(Seq::empty()),
        }
    }

    /// Whether the walk has made all its proposals.
    pub fn is_finished(&self) -> (b: bool)
        ensures
            b == self@.is_finished(),
    {
        proof {
            use_type_invariant(self);
        }
        self.burned == self.burn_in && self.step == self.sampling_steps
    }

    /// Number of samples recorded so far.
    pub fn samples_recorded(&self) -> (n: usize)
        ensures
            n == self@.samples_after(self@.accepted.len()),
    {
        proof {
            use_type_invariant(self);
        }
        self.recorded
    }

    /// Takes one proposal into account: the chain moves exactly when the
    /// candidate is inside the polytope, and a sample is recorded after every
    /// `thinning`-th proposal that follows the burn-in.
    pub fn advance(&mut self, candidate_inside: bool) -> (action: StepAction)
        requires
            !old(self)@.is_finished(),
        ensures
            final(self)@ == (WalkModel {
                accepted: old(self)@.accepted.push(candidate_inside),
                ..old(self)@
            }),
            action.move_to_candidate == candidate_inside,
            action.record_sample == old(self)@.records_at(old(self)@.accepted.len() + 1),
    {
        proof {
            use_type_invariant(&*self);
        }
        let ghost new_accepted = self.accepted@.push(candidate_inside);
        if self.burned < self.burn_in {
            *self = WalkSchedule {
                burn_in: self.burn_in,
                thinning: self.thinning,
                n_samples: self.n_samples,
                sampling_steps: self.sampling_steps,
                burned: self.burned + 1,
                step: self.step,
                recorded: self.recorded,
                accepted: Ghost(new_accepted),
            };
            StepAction { move_to_candidate: candidate_inside, record_sample: false }
        } else {
            let step = self.step + 1;
            let record = step % self.thinning == 0;
            proof {
                lemma_div_succ(self.step as int, self.thinning as int);
            }
            let recorded = if record {
                self.recorded + 1
            } else {
                self.recorded
            };
            *self = WalkSchedule {
                burn_in: self.burn_in,
                thinning: self.thinning,
                n_samples: self.n_samples,
                sampling_steps: self.sampling_steps,
                burned: self.burned,
                step,
                recorded,
                accepted: Ghost(new_accepted),
            };
            StepAction { move_to_candidate: candidate_inside, record_sample: record }
        }
    }
}

/// A finished walk has recorded exactly the number of samples it was asked for.
pub proof fn lemma_finished_walk_has_all_samples(m: WalkModel)
    requires
        m.thinning > 0,
        m.is_finished(),
    ensures
        m.samples_after(m.accepted.len()) == m.n_samples,
{
    let n = m.n_samples as int;
    let t = m.thinning as int;
    if n > 0 {
        assert(n * t > 0) by (nonlinear_arith)
            requires
                n > 0,
                t > 0,
        ;
        lemma_fundamental_div_mod_converse(n * t, t, n, 0);
        assert(m.accepted.len() - m.burn_in == n * t);
        assert(m.accepted.len() > m.burn_in);
        assert((m.accepted.len() - m.burn_in) / t == n);
    } else {
        assert(n * t == 0) by (nonlinear_arith)
            requires
                n == 0,
        ;
    }
}

/// The number of samples recorded after `t` proposals, counted proposal by
/// proposal, is zero during the burn-in and then grows by one every
/// `thinning` proposals.
pub proof fn lemma_recorded_count(m: WalkModel, t: nat)
    requires
        m.thinning > 0,
    ensures
        recorded_count(m, t) == m.samples_after(t),
    decreases t,
{
    if t > 0 {
        lemma_recorded_count(m, (t - 1) as nat);
        if t > m.burn_in {
            let s: int = t - 1 - m.burn_in;
            lemma_div_succ(s, m.thinning as int);
            if s == 0 {
                lemma_fundamental_div_mod_converse(0, m.thinning as int, 0, 0);
            }
        }
    }
}

/// Sample `j` (counted from 0) is recorded right after proposal
/// `burn_in + (j + 1) * thinning`, the proposal that brings the number of
/// samples to `j + 1`; for every requested sample that proposal belongs to the walk.
pub proof fn lemma_record_time(m: WalkModel, j: nat)
    requires
        m.thinning > 0,
    ensures
        m.records_at(m.record_time(j)),
        m.samples_after(m.record_time(j)) == j + 1,
        j < m.n_samples ==> m.record_time(j) <= m.total_proposals(),
{
    let t = m.thinning as int;
    let k = (j + 1) as int;
    assert(k * t >= t) by (nonlinear_arith)
        requires
            k >= 1,
            t > 0,
    ;
    lemma_fundamental_div_mod_converse(k * t, t, k, 0);
    if j < m.n_samples {
        let n = m.n_samples as int;
        assert(k * t <= n * t) by (nonlinear_arith)
            requires
                k <= n,
                t > 0,
        ;
    }
}

/// After any number of proposals the chain stands at its starting point or at
/// a candidate that was accepted.
pub proof fn lemma_position_is_start_or_accepted(accepted: Seq<bool>, t: int)
    requires
        0 <= t <= accepted.len(),
    ensures
        chain_position(accepted, t) == -1 || (0 <= chain_position(accepted, t) < t
            && accepted[chain_position(accepted, t)]),
    decreases t,
{
    if t > 0 && !accepted[t - 1] {
        lemma_position_is_start_or_accepted(accepted, t - 1);
    }
}

/// A later proposal does not change where the chain stood after earlier ones.
proof fn lemma_position_prefix(accepted: Seq<bool>, inside: bool, t: int)
    requires
        0 <= t <= accepted.len(),
    ensures
        chain_position(accepted.push(inside), t) == chain_position(accepted, t),
    decreases t,
{
    if t > 0 {
        lemma_position_prefix(accepted, inside, t - 1);
    }
}

/// One more proposal moves the chain to it exactly when it is accepted, and
/// leaves where the chain stood after earlier proposals unchanged.
pub proof fn lemma_position_after_step(accepted: Seq<bool>, inside: bool, t: int)
    requires
        0 <= t <= accepted.len(),
    ensures
        chain_position(accepted.push(inside), t) == chain_position(accepted, t),
        chain_position(accepted.push(inside), accepted.len() + 1int) == if inside {
            accepted.len() as int
        } else {
            chain_position(accepted, accepted.len() as int)
        },
{
    lemma_position_prefix(accepted, inside, t);
    lemma_position_prefix(accepted, inside, accepted.len() as int);
    assert(accepted.push(inside)[accepted.len() as int] == inside);
}

/// Every sample of a finished walk is its starting point or a candidate that
/// passed the membership test: the walk never records a rejected candidate.
pub proof fn lemma_samples_are_start_or_accepted(m: WalkModel, j: nat)
    requires
        m.thinning > 0,
        m.is_finished(),
        j < m.n_samples,
    ensures
        ({
            let p = chain_position(m.accepted, m.record_time(j) as int);
            p == -1 || (0 <= p < m.accepted.len() && m.accepted[p])
        }),
{
    lemma_record_time(m, j);
    lemma_position_is_start_or_accepted(m.accepted, m.record_time(j) as int);
}

} // verus!
