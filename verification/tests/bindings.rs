use turmoil_wasm::bindings::{push_decimal, status, BindingError, StepAction, StepRun};

#[test]
fn status_of_fresh_simulation() {
    assert_eq!(status(&0.0f64.to_string(), 1), "{\"elapsed\": 0, \"steps\": 1}");
}

#[test]
fn status_mentions_elapsed_and_steps() {
    let s = status("1234", 56);
    assert!(s.contains("elapsed"));
    assert!(s.contains("steps"));
    assert_eq!(s, "{\"elapsed\": 1234, \"steps\": 56}");
}

#[test]
fn status_large_values() {
    assert_eq!(
        status("1", usize::MAX),
        format!("{{\"elapsed\": 1, \"steps\": {}}}", usize::MAX)
    );
}

#[test]
fn status_shows_elapsed_as_the_float_displays() {
    // Large times show the float's shortest digits, not the exact integer.
    let ms = (1u128 << 64) as f64;
    assert_eq!(
        status(&ms.to_string(), 3),
        "{\"elapsed\": 18446744073709552000, \"steps\": 3}"
    );
    assert_eq!(
        status(&1500.0f64.to_string(), 3),
        format!("{{\"elapsed\": {}, \"steps\": {}}}", 1500.0f64, 3)
    );
}

#[test]
fn decimal_digits() {
    let mut s = String::from("x");
    push_decimal(&mut s, 0);
    push_decimal(&mut s, 907);
    push_decimal(&mut s, 10);
    assert_eq!(s, "x090710");
}

#[test]
fn error_messages() {
    assert_eq!(
        BindingError::InvalidIpAddress("invalid IP address syntax".to_string()).message(),
        "Invalid IP address: invalid IP address syntax"
    );
    assert_eq!(
        BindingError::SimulationFailed("boom".to_string()).message(),
        "Simulation failed: boom"
    );
    assert_eq!(
        BindingError::StepFailed("x".to_string()).message(),
        "Step failed: x"
    );
    assert_eq!(
        BindingError::HostCallback("JsValue(1)".to_string()).message(),
        "Host callback error: JsValue(1)"
    );
    assert_eq!(
        BindingError::ClientCallback("".to_string()).message(),
        "Client callback error: "
    );
}

fn drive(requested: usize, outcomes: &[Result<bool, String>]) -> (usize, Result<(), BindingError>) {
    let mut run = StepRun::new(requested);
    let mut i = 0;
    while let StepAction::Step = run.next_action() {
        let outcome = outcomes[i].clone();
        i += 1;
        if let Err(e) = run.record(outcome) {
            return (run.taken(), Err(e));
        }
    }
    (run.taken(), Ok(()))
}

#[test]
fn step_run_takes_every_requested_step() {
    let outcomes: Vec<Result<bool, String>> = vec![Ok(false); 5];
    let (taken, result) = drive(5, &outcomes);
    assert_eq!(taken, 5);
    assert!(result.is_ok());
}

#[test]
fn step_run_goes_on_after_simulation_finishes() {
    let outcomes: Vec<Result<bool, String>> = vec![Ok(true), Ok(true), Ok(false)];
    let (taken, result) = drive(3, &outcomes);
    assert_eq!(taken, 3);
    assert!(result.is_ok());
}

#[test]
fn step_run_of_zero_steps() {
    let (taken, result) = drive(0, &[]);
    assert_eq!(taken, 0);
    assert!(result.is_ok());
}

#[test]
fn step_run_stops_at_first_failure() {
    let outcomes: Vec<Result<bool, String>> = vec![
        Ok(false),
        Ok(false),
        Err("host crashed".to_string()),
        Ok(false),
    ];
    let (taken, result) = drive(4, &outcomes);
    assert_eq!(taken, 2);
    match result {
        Err(e) => {
            assert!(matches!(e, BindingError::StepFailed(_)));
            assert_eq!(e.message(), "Step failed: host crashed");
        }
        Ok(()) => panic!("a failed step must end the run"),
    }
}
