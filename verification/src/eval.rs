//! Expression evaluation, which this parse-only server never performs.
use vstd::prelude::*;

use crate::config::EvaluationSettings;

verus! {

#[derive(Debug, Clone, Copy, PartialEq, Eq, Structural)]
pub enum EvaluationState {
    Disabled,
    Reserved,
}

#[derive(Debug, Clone, PartialEq, Eq)]
pub struct EvaluationRequest<'a> {
    pub expression: &'a str,
    pub settings: &'a EvaluationSettings,
}

#[derive(Debug, Clone, PartialEq, Eq)]
pub struct EvaluationResult {
    pub state: EvaluationState,
    pub value: Option<String>,
}

#[derive(Debug, Clone, Copy, PartialEq, Eq, Structural)]
pub enum EvaluationError {
    Disabled,
    Reserved,
}

impl EvaluationError {
    /// The message the error displays.
    pub fn message(self) -> (m: &'static str)
        ensures
            m@ == match self {
                EvaluationError::Disabled => "evaluation is disabled; lymals v1 is parse-only"@,
                EvaluationError::Reserved =>
                    "evaluation is reserved for a future sandboxed extension and is not shipped in v1"@,
            },
    {
        match self {
            EvaluationError::Disabled => "evaluation is disabled; lymals v1 is parse-only",
            EvaluationError::Reserved =>
                "evaluation is reserved for a future sandboxed extension and is not shipped in v1",
        }
    }
}

/// Never evaluates: disabled settings refuse, and enabled ones are reserved.
pub fn evaluate(request: EvaluationRequest<'_>) -> (r: Result<EvaluationResult, EvaluationError>)
    ensures
        r == Err::<EvaluationResult, EvaluationError>(if request.settings.enabled {
            EvaluationError::Reserved
        } else {
            EvaluationError::Disabled
        }),
{
    if !request.settings.enabled {
        return Err(EvaluationError::Disabled);
    }
    Err(EvaluationError::Reserved)
}

pub fn state(settings: &EvaluationSettings) -> (s: EvaluationState)
    ensures
        s == (if settings.enabled {
            EvaluationState::Reserved
        } else {
            EvaluationState::Disabled
        }),
{
    if settings.enabled {
        EvaluationState::Reserved
    } else {
        EvaluationState::Disabled
    }
}

/// No request is ever evaluated, and the refusal matches the reported state.
pub proof fn lemma_evaluation_never_runs(request: EvaluationRequest<'_>)
    ensures
        ({
            let refusal = if request.settings.enabled {
                EvaluationError::Reserved
            } else {
                EvaluationError::Disabled
            };
            let reported = if request.settings.enabled {
                EvaluationState::Reserved
            } else {
                EvaluationState::Disabled
            };
            &&& (refusal == EvaluationError::Disabled <==> reported == EvaluationState::Disabled)
            &&& (refusal == EvaluationError::Reserved <==> reported == EvaluationState::Reserved)
        }),
{
}

} // verus!
