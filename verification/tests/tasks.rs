use lymals::tasks::{debounce_millis_for_document_change, CancellationRegistry, VersionedDocumentGuard};
use tower_lsp::lsp_types::Url;

#[test]
fn versioned_guard_rejects_stale_results() {
    let guard = VersionedDocumentGuard::new(Url::parse("file:///test.luma").unwrap(), 2);

    assert!(guard.is_current(Some(2)));
    assert!(!guard.is_current(Some(3)));
    assert!(!guard.is_current(None));
}

#[test]
fn debounce_baseline_is_nonzero() {
    assert!(debounce_millis_for_document_change() > 0);
}

#[test]
fn guard_keeps_its_version_and_uri() {
    let guard = VersionedDocumentGuard::new(Url::parse("file:///a.luma").unwrap(), 7);
    assert_eq!(guard.version(), 7);
    assert_eq!(guard.uri().as_str(), "file:///a.luma");
    assert_eq!(debounce_millis_for_document_change(), 50);
}

#[test]
fn cancellation_registry_tracks_request_ids() {
    let mut registry = CancellationRegistry::default();

    registry.cancel(7);
    assert!(registry.is_cancelled(7));
    registry.finish(7);
    assert!(!registry.is_cancelled(7));
}

#[test]
fn finishing_one_request_keeps_the_others_cancelled() {
    let mut registry = CancellationRegistry::new();
    registry.cancel(1);
    registry.cancel(2);
    registry.cancel(1);
    registry.finish(1);
    assert!(!registry.is_cancelled(1));
    assert!(registry.is_cancelled(2));
    assert!(!registry.is_cancelled(3));
    registry.finish(3);
    assert!(registry.is_cancelled(2));
}
