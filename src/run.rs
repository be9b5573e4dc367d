//! The order of the steps of a run, and what a failed step does to it.
//!
//! A run checks its configuration once, then for each target provisions the
//! environment, builds, and packages the install tree, and finally closes
//! the archive. Any failed step ends the run: nothing after it is performed
//! and the archive is never closed. The caller performs each step and
//! reports whether it succeeded.
use vstd::prelude::*;

verus! {

/// The step that failed and ended a run.
#[derive(PartialEq, Eq, Structural, Clone, Copy, Debug)]
pub enum Failure {
    /// The path of the Visual Studio setup script was not configured.
    MissingConfig,
    /// The setup script could not be run or exited with a failure.
    SetupScript,
    /// The build routine failed.
    Build,
    /// Walking or reading the install tree, or writing it to the archive,
    /// failed.
    Packaging,
    /// Closing the archive failed.
    Finalize,
}

/// Where a run stands: the step to perform next, or how it ended.
#[derive(PartialEq, Eq, Structural, Clone, Copy, Debug)]
pub enum Stage {
    /// Check that the setup script's path is configured.
    CheckConfig,
    /// Run the setup script for target `i` and apply what it prints.
    Provision(usize),
    /// Build target `i`.
    Build(usize),
    /// Write target `i`'s install tree into the archive.
    Package(usize),
    /// Close the archive.
    Finalize,
    /// Every step succeeded.
    Complete,
    /// A step failed; the run performs nothing more.
    Aborted(Failure),
}

/// Whether `s` asks for a step to be performed.
pub open spec fn is_working(s: Stage) -> bool {
    !(s is Complete) && !(s is Aborted)
}

/// The stage after `s` once its step was performed with outcome `ok`, in a
/// run of `n` targets.
pub open spec fn next_stage(s: Stage, n: nat, ok: bool) -> Stage {
    match s {
        Stage::CheckConfig => if !ok {
            Stage::Aborted(Failure::MissingConfig)
        } else if n == 0 {
            Stage::Finalize
        } else {
            Stage::Provision(0)
        },
        Stage::Provision(i) => if ok {
            Stage::Build(i)
        } else {
            Stage::Aborted(Failure::SetupScript)
        },
        Stage::Build(i) => if ok {
            Stage::Package(i)
        } else {
            Stage::Aborted(Failure::Build)
        },
        Stage::Package(i) => if !ok {
            Stage::Aborted(Failure::Packaging)
        } else if i + 1 < n {
            Stage::Provision((i + 1) as usize)
        } else {
            Stage::Finalize
        },
        Stage::Finalize => if ok {
            Stage::Complete
        } else {
            Stage::Aborted(Failure::Finalize)
        },
        Stage::Complete => Stage::Complete,
        Stage::Aborted(f) => Stage::Aborted(f),
    }
}

/// The stage that a run reaches from `s` when its steps have the outcomes
/// `outcomes`, in order.
pub open spec fn run_from(s: Stage, n: nat, outcomes: Seq<bool>) -> Stage
    decreases outcomes.len(),
{
    if outcomes.len() == 0 {
        s
    } else {
        next_stage(run_from(s, n, outcomes.drop_last()), n, outcomes.last())
    }
}

/// The stage after `stage` once its step was performed, in a run of
/// `n_targets` targets; `ok` tells whether the step succeeded. A run that
/// has ended stays where it is.
pub fn advance(stage: Stage, n_targets: usize, ok: bool) -> (r: Stage)
    ensures
        r == next_stage(stage, n_targets as nat, ok),
{
    match stage {
        Stage::CheckConfig => if !ok {
            Stage::Aborted(Failure::MissingConfig)
        } else if n_targets == 0 {
            Stage::Finalize
        } else {
            Stage::Provision(0)
        },
        Stage::Provision(i) => if ok {
            Stage::Build(i)
        } else {
            Stage::Aborted(Failure::SetupScript)
        },
        Stage::Build(i) => if ok {
            Stage::Package(i)
        } else {
            Stage::Aborted(Failure::Build)
        },
        Stage::Package(i) => if !ok {
            Stage::Aborted(Failure::Packaging)
        } else if i < n_targets && i + 1 < n_targets {
            Stage::Provision(i + 1)
        } else {
            Stage::Finalize
        },
        Stage::Finalize => if ok {
            Stage::Complete
        } else {
            Stage::Aborted(Failure::Finalize)
        },
        Stage::Complete => Stage::Complete,
        Stage::Aborted(f) => Stage::Aborted(f),
    }
}

/// A run ends once and for all: from an ended stage no outcome leads to
/// another stage.
pub proof fn lemma_end_is_final(s: Stage, n: nat, outcomes: Seq<bool>)
    requires
        !is_working(s),
    ensures
        run_from(s, n, outcomes) == s,
    decreases outcomes.len(),
{
    if outcomes.len() > 0 {
        lemma_end_is_final(s, n, outcomes.drop_last());
    }
}

/// A failed step aborts the run: whatever the later outcomes, it never
/// closes the archive nor completes.
pub proof fn lemma_failure_aborts(s: Stage, n: nat, before: Seq<bool>, after: Seq<bool>)
    requires
        is_working(run_from(s, n, before)),
    ensures
        run_from(s, n, before.push(false) + after) is Aborted,
    decreases after.len(),
{
    if after.len() == 0 {
        assert(before.push(false) + after =~= before.push(false));
        assert(before.push(false).drop_last() =~= before);
    } else {
        lemma_failure_aborts(s, n, before, after.drop_last());
        assert((before.push(false) + after).drop_last() =~= before.push(false) + after.drop_last());
    }
}

/// Without the setup script's path the run aborts at once, before any
/// target is provisioned.
pub proof fn lemma_missing_config_first(n: nat, outcomes: Seq<bool>)
    ensures
        run_from(Stage::CheckConfig, n, seq![false] + outcomes) == Stage::Aborted(
            Failure::MissingConfig,
        ),
{
    assert(seq![false].drop_last() =~= Seq::<bool>::empty());
    assert(run_from(Stage::CheckConfig, n, Seq::<bool>::empty()) == Stage::CheckConfig);
    assert(seq![false].last() == false);
    assert(run_from(Stage::CheckConfig, n, seq![false]) == Stage::Aborted(Failure::MissingConfig));
    lemma_end_is_final(Stage::Aborted(Failure::MissingConfig), n, outcomes);
    lemma_run_concat(Stage::CheckConfig, n, seq![false], outcomes);
}

/// Running `a` then `b` is running `a + b`.
pub proof fn lemma_run_concat(s: Stage, n: nat, a: Seq<bool>, b: Seq<bool>)
    ensures
        run_from(s, n, a + b) == run_from(run_from(s, n, a), n, b),
    decreases b.len(),
{
    if b.len() == 0 {
        assert(a + b =~= a);
    } else {
        lemma_run_concat(s, n, a, b.drop_last());
        assert((a + b).drop_last() =~= a + b.drop_last());
    }
}

} // verus!
