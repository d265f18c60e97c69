use lymals::state::{is_shutdown, LifecyclePhase};

#[test]
fn a_new_session_is_created_and_not_shut_down() {
    let phase = LifecyclePhase::default();
    assert_eq!(phase, LifecyclePhase::Created);
    assert!(!is_shutdown(phase));
    assert!(!is_shutdown(LifecyclePhase::Initialized));
    assert!(is_shutdown(LifecyclePhase::Shutdown));
}
