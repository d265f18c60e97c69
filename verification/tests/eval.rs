use lymals::config::EvaluationSettings;
use lymals::eval::{evaluate, state, EvaluationError, EvaluationRequest, EvaluationState};

#[test]
fn default_evaluation_is_disabled_and_executes_nothing() {
    let settings = EvaluationSettings::default();

    assert_eq!(state(&settings), EvaluationState::Disabled);
    assert_eq!(
        evaluate(EvaluationRequest {
            expression: "os.execute('whoami')",
            settings: &settings,
        }),
        Err(EvaluationError::Disabled)
    );
}

#[test]
fn enabled_evaluation_is_still_reserved_in_v1() {
    let settings = EvaluationSettings { enabled: true };

    assert_eq!(state(&settings), EvaluationState::Reserved);
    assert_eq!(
        evaluate(EvaluationRequest {
            expression: "1 + 1",
            settings: &settings,
        }),
        Err(EvaluationError::Reserved)
    );
}

#[test]
fn evaluation_error_messages() {
    assert_eq!(
        EvaluationError::Disabled.message(),
        "evaluation is disabled; lymals v1 is parse-only"
    );
    assert!(EvaluationError::Reserved.message().contains("reserved"));
}
