use openssl_bundle::run::{advance, Failure, Stage};

fn drive(n: usize, outcomes: &[bool]) -> (Stage, Vec<Stage>) {
    let mut s = Stage::CheckConfig;
    let mut seen = vec![s];
    for &ok in outcomes {
        s = advance(s, n, ok);
        seen.push(s);
    }
    (s, seen)
}

#[test]
fn missing_config_aborts_before_any_script() {
    let (end, seen) = drive(4, &[false, true, true, true]);
    assert_eq!(end, Stage::Aborted(Failure::MissingConfig));
    assert_eq!(seen.iter().filter(|s| matches!(s, Stage::Provision(_))).count(), 0);
}

#[test]
fn failed_setup_script_never_finalizes() {
    let (end, seen) = drive(4, &[true, true, true, true, false, true, true, true, true]);
    assert_eq!(end, Stage::Aborted(Failure::SetupScript));
    assert!(!seen.iter().any(|s| matches!(s, Stage::Finalize | Stage::Complete)));
}

#[test]
fn all_steps_succeed() {
    let (end, seen) = drive(2, &[true; 8]);
    assert_eq!(end, Stage::Complete);
    assert_eq!(
        seen,
        vec![
            Stage::CheckConfig,
            Stage::Provision(0),
            Stage::Build(0),
            Stage::Package(0),
            Stage::Provision(1),
            Stage::Build(1),
            Stage::Package(1),
            Stage::Finalize,
            Stage::Complete,
        ]
    );
}

#[test]
fn each_failure_names_its_step() {
    assert_eq!(advance(Stage::Build(1), 4, false), Stage::Aborted(Failure::Build));
    assert_eq!(advance(Stage::Package(0), 4, false), Stage::Aborted(Failure::Packaging));
    assert_eq!(advance(Stage::Finalize, 4, false), Stage::Aborted(Failure::Finalize));
    assert_eq!(advance(Stage::Provision(2), 4, false), Stage::Aborted(Failure::SetupScript));
}

#[test]
fn no_targets_goes_straight_to_finalize() {
    assert_eq!(advance(Stage::CheckConfig, 0, true), Stage::Finalize);
}

#[test]
fn ended_run_stays_ended() {
    assert_eq!(advance(Stage::Complete, 4, false), Stage::Complete);
    let a = Stage::Aborted(Failure::Build);
    assert_eq!(advance(a, 4, true), a);
}
