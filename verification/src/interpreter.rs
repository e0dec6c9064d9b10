//! Interpreter - Execute Effects using a Provider
//!
//! The Interpreter executes Effects contained in a Plan in order,
//! collecting the results. The provider calls themselves happen outside the
//! library: for each effect the interpreter says what to ask of the
//! provider, and records what came back.

use vstd::prelude::*;

use crate::effect::Effect;
use crate::plan::Plan;
use crate::resource::{copy_id, copy_resource, Resource, ResourceId, State};
use crate::text::str_to_string;

verus! {

/// Error reported by a provider
#[derive(Debug, Clone)]
pub struct ProviderError {
    pub message: String,
}

/// Result of executing each Effect
#[derive(Debug)]
pub enum EffectOutcome {
    /// Read succeeded
    Read { state: State },
    /// Create succeeded
    Created { state: State },
    /// Update succeeded
    Updated { state: State },
    /// Delete succeeded
    Deleted,
    /// Skipped (e.g., dry-run)
    Skipped { reason: String },
}

/// Result of executing the entire Plan
#[derive(Debug)]
pub struct ApplyResult {
    pub outcomes: Vec<Result<EffectOutcome, ProviderError>>,
    pub success_count: usize,
    pub failure_count: usize,
}

impl ApplyResult {
    pub fn is_success(&self) -> (r: bool)
        ensures
            r == (self.failure_count == 0),
    {
        self.failure_count == 0
    }
}

/// Interpreter configuration
#[derive(Debug, Clone, Copy)]
pub struct InterpreterConfig {
    /// If true, skip actual side effects
    pub dry_run: bool,
    /// Continue on error
    pub continue_on_error: bool,
}

impl Default for InterpreterConfig {
    fn default() -> (r: Self)
        ensures
            !r.dry_run && !r.continue_on_error,
    {
        InterpreterConfig { dry_run: false, continue_on_error: false }
    }
}

/// Interpreter that executes Effects using a Provider
pub struct Interpreter<P> {
    provider: P,
    config: InterpreterConfig,
}

/// What an effect asks of the provider.
#[derive(Debug)]
pub enum ProviderCall {
    /// Read a resource's state (looked up by name, without an identifier)
    Read { id: ResourceId },
    /// Create a resource
    Create { resource: Resource },
    /// Update a resource from its current state
    Update { id: ResourceId, identifier: String, from: State, to: Resource },
    /// Delete a resource
    Delete { id: ResourceId, identifier: String },
}

/// The next step of executing an effect.
#[derive(Debug)]
pub enum Step {
    /// The outcome is known without the provider.
    Done(Result<EffectOutcome, ProviderError>),
    /// The provider must be called.
    Call(ProviderCall),
}

/// An application of a plan in progress.
#[derive(Debug)]
pub struct ApplyRun {
    /// What was recorded so far
    pub result: ApplyResult,
    /// The index of the next effect
    pub next: usize,
    /// Whether the run stopped at an error
    pub stopped: bool,
}

/// Whether an application's counts agree with its outcomes: as many
/// successes and failures as `Ok` and `Err` outcomes.
pub open spec fn counts_agree(r: ApplyResult) -> bool {
    &&& r.success_count + r.failure_count == r.outcomes.len()
    &&& r.failure_count == count_errors(r.outcomes@)
}

/// How many outcomes are errors.
pub open spec fn count_errors(s: Seq<Result<EffectOutcome, ProviderError>>) -> nat
    decreases s.len(),
{
    if s.len() == 0 {
        0
    } else {
        count_errors(s.drop_last()) + if s.last() is Err {
            1nat
        } else {
            0nat
        }
    }
}

impl<P> Interpreter<P> {
    pub fn new(provider: P) -> (r: Self)
        ensures
            !r.config().dry_run && !r.config().continue_on_error,
            r.held_provider() == provider,
    {
        Interpreter { provider, config: InterpreterConfig::default() }
    }

    pub fn with_config(self, config: InterpreterConfig) -> (r: Self)
        ensures
            r.config() == config,
            r.held_provider() == self.held_provider(),
    {
        Interpreter { provider: self.provider, config }
    }

    /// The interpreter's configuration.
    pub closed spec fn config(&self) -> InterpreterConfig {
        self.config
    }

    /// The provider the interpreter holds.
    pub closed spec fn held_provider(&self) -> P {
        self.provider
    }

    /// The provider the effects are executed through.
    pub fn provider(&self) -> (r: &P)
        ensures
            *r == self.held_provider(),
    {
        &self.provider
    }

    /// Whether the interpreter skips side effects.
    pub fn is_dry_run(&self) -> (r: bool)
        ensures
            r == self.config().dry_run,
    {
        self.config.dry_run
    }

    /// Execute a single Effect: what to ask of the provider, or the outcome
    /// when no call is needed (in dry-run mode every effect is skipped).
    pub fn execute_effect(&self, effect: &Effect) -> (r: Step)
        ensures
            self.config().dry_run ==> (r matches Step::Done(Ok(EffectOutcome::Skipped { reason })) && reason@ == "dry-run mode"@),
            !self.config().dry_run ==> r is Call && match (effect, r->Call_0) {
                (Effect::Read { resource }, ProviderCall::Read { id }) => id@ == resource.id@,
                (Effect::Create(res), ProviderCall::Create { resource }) => resource.id@ == res.id@ && resource.attributes@ == res.attributes@,
                (Effect::Update { id, from, to }, ProviderCall::Update { id: i2, identifier, from: f2, to: t2 }) =>
                    i2@ == id@ && identifier@ == Seq::<char>::empty() && f2.id@ == from.id@ && f2.attributes@ == from.attributes@ && f2.exists == from.exists
                        && t2.id@ == to.id@ && t2.attributes@ == to.attributes@,
                (Effect::Delete(id), ProviderCall::Delete { id: i2, identifier }) => i2@ == id@ && identifier@ == Seq::<char>::empty(),
                _ => false,
            },
    {
        if self.config.dry_run {
            return Step::Done(Ok(EffectOutcome::Skipped { reason: str_to_string("dry-run mode") }));
        }
        proof {
            reveal_strlit("");
        }
        match effect {
            Effect::Read { resource } => Step::Call(ProviderCall::Read { id: copy_id(&resource.id) }),
            Effect::Create(resource) => Step::Call(ProviderCall::Create { resource: copy_resource(resource) }),
            Effect::Update { id, from, to } => {
                // The state carries no provider identifier; the empty one is passed.
                let f = State {
                    id: copy_id(&from.id),
                    attributes: crate::resource::copy_map(&from.attributes),
                    exists: from.exists,
                };
                Step::Call(ProviderCall::Update {
                    id: copy_id(id),
                    identifier: str_to_string(""),
                    from: f,
                    to: copy_resource(to),
                })
            },
            Effect::Delete(id) => Step::Call(ProviderCall::Delete { id: copy_id(id), identifier: str_to_string("") }),
        }
    }

    /// A run that has recorded nothing yet.
    pub fn start(&self) -> (r: ApplyRun)
        ensures
            r.next == 0,
            !r.stopped,
            r.result.outcomes@.len() == 0,
            counts_agree(r.result),
    {
        ApplyRun {
            result: ApplyResult { outcomes: Vec::new(), success_count: 0, failure_count: 0 },
            next: 0,
            stopped: false,
        }
    }

    /// Whether the run is over: it stopped at an error, or every effect ran.
    pub fn finished(&self, plan: &Plan, run: &ApplyRun) -> (r: bool)
        ensures
            r == (run.stopped || run.next >= plan@.len()),
    {
        run.stopped || run.next >= plan.effects().len()
    }

    /// Records the outcome of the next effect. A failure stops the run
    /// unless the interpreter continues on errors.
    pub fn record(&self, run: &mut ApplyRun, outcome: Result<EffectOutcome, ProviderError>)
        requires
            counts_agree(old(run).result),
            old(run).result.outcomes.len() < usize::MAX,
            old(run).next < usize::MAX,
        ensures
            counts_agree(final(run).result),
            final(run).result.outcomes@ == old(run).result.outcomes@.push(outcome),
            final(run).next == old(run).next + 1,
            final(run).stopped == (old(run).stopped || (outcome is Err && !self.config().continue_on_error)),
    {
        let ghost before = run.result.outcomes@;
        let failed = outcome.is_err();
        if failed {
            run.result.failure_count += 1;
            if !self.config.continue_on_error {
                run.stopped = true;
            }
        } else {
            run.result.success_count += 1;
        }
        run.result.outcomes.push(outcome);
        run.next += 1;
        proof {
            assert(run.result.outcomes@.drop_last() =~= before);
        }
    }

    /// The result of a finished run.
    pub fn finish(&self, run: ApplyRun) -> (r: ApplyResult)
        ensures
            r == run.result,
    {
        run.result
    }
}

/// What holds of a run driven by `start`, then `record` while not
/// `finished`, over a plan of `plan_len` effects: the counts agree with the
/// outcomes, one outcome per effect run so far, and the run stopped exactly
/// when it stops on errors and an error was recorded.
pub open spec fn run_inv(run: ApplyRun, plan_len: nat, stop_on_error: bool) -> bool {
    &&& counts_agree(run.result)
    &&& run.result.outcomes@.len() == run.next
    &&& run.next <= plan_len
    &&& run.stopped == (stop_on_error && count_errors(run.result.outcomes@) > 0)
}

/// Whether an outcome is the one a dry run gives.
pub open spec fn is_dry_run_outcome(o: Result<EffectOutcome, ProviderError>) -> bool {
    o matches Ok(EffectOutcome::Skipped { reason }) && reason@ == "dry-run mode"@
}

proof fn lemma_no_errors(s: Seq<Result<EffectOutcome, ProviderError>>)
    ensures
        count_errors(s) == 0 <==> forall|i: int| 0 <= i < s.len() ==> s[i] is Ok,
    decreases s.len(),
{
    if s.len() > 0 {
        lemma_no_errors(s.drop_last());
        if count_errors(s) == 0 {
            assert forall|i: int| 0 <= i < s.len() implies s[i] is Ok by {
                if i < s.len() - 1 {
                    assert(s.drop_last()[i] == s[i]);
                }
            }
        } else if forall|i: int| 0 <= i < s.len() ==> s[i] is Ok {
            assert forall|i: int| 0 <= i < s.drop_last().len() implies s.drop_last()[i] is Ok by {
                assert(s.drop_last()[i] == s[i]);
            }
            assert(s.last() is Ok);
        }
    }
}

impl<P> Interpreter<P> {
    /// A new run meets the run invariant.
    pub proof fn lemma_start_inv(&self, run: ApplyRun, plan_len: nat)
        requires
            run.next == 0,
            !run.stopped,
            run.result.outcomes@.len() == 0,
            counts_agree(run.result),
        ensures
            run_inv(run, plan_len, !self.config().continue_on_error),
    {
    }

    /// Recording the outcome of the next effect of a run that is not
    /// finished keeps the run invariant.
    pub proof fn lemma_record_inv(
        &self,
        before: ApplyRun,
        after: ApplyRun,
        plan_len: nat,
        outcome: Result<EffectOutcome, ProviderError>,
    )
        requires
            run_inv(before, plan_len, !self.config().continue_on_error),
            !(before.stopped || before.next >= plan_len),
            counts_agree(after.result),
            after.result.outcomes@ == before.result.outcomes@.push(outcome),
            after.next == before.next + 1,
            after.stopped == (before.stopped || (outcome is Err && !self.config().continue_on_error)),
        ensures
            run_inv(after, plan_len, !self.config().continue_on_error),
    {
        assert(after.result.outcomes@.drop_last() =~= before.result.outcomes@);
    }

    /// A finished run succeeds (no failures) exactly when every effect of
    /// the plan ran and each returned `Ok`.
    pub proof fn lemma_success_law(&self, run: ApplyRun, plan_len: nat)
        requires
            run_inv(run, plan_len, !self.config().continue_on_error),
            run.stopped || run.next >= plan_len,
        ensures
            run.result.failure_count == 0 <==> (run.result.outcomes@.len() == plan_len && forall|i: int|
                0 <= i < run.result.outcomes@.len() ==> run.result.outcomes@[i] is Ok),
    {
        lemma_no_errors(run.result.outcomes@);
    }

    /// A dry run that recorded what `execute_effect` gave for each effect
    /// ends with one skipped outcome per effect of the plan.
    pub proof fn lemma_dry_run_law(&self, run: ApplyRun, plan_len: nat)
        requires
            self.config().dry_run,
            run_inv(run, plan_len, !self.config().continue_on_error),
            run.stopped || run.next >= plan_len,
            forall|i: int| 0 <= i < run.result.outcomes@.len() ==> is_dry_run_outcome(#[trigger] run.result.outcomes@[i]),
        ensures
            run.result.outcomes@.len() == plan_len,
            run.result.failure_count == 0,
    {
        lemma_no_errors(run.result.outcomes@);
        assert forall|i: int| 0 <= i < run.result.outcomes@.len() implies run.result.outcomes@[i] is Ok by {
            assert(is_dry_run_outcome(run.result.outcomes@[i]));
        }
    }
}

/// The outcome of a provider call that answered with a state.
pub fn outcome_of(call: &ProviderCall, state: State) -> (r: EffectOutcome)
    ensures
        match call {
            ProviderCall::Read { .. } => r == EffectOutcome::Read { state },
            ProviderCall::Create { .. } => r == EffectOutcome::Created { state },
            ProviderCall::Update { .. } => r == EffectOutcome::Updated { state },
            ProviderCall::Delete { .. } => r == EffectOutcome::Deleted,
        },
{
    match call {
        ProviderCall::Read { .. } => EffectOutcome::Read { state },
        ProviderCall::Create { .. } => EffectOutcome::Created { state },
        ProviderCall::Update { .. } => EffectOutcome::Updated { state },
        ProviderCall::Delete { .. } => EffectOutcome::Deleted,
    }
}

} // verus!
