use lambda_otel_relay::scenario::{Action, Scenario};

#[test]
fn new_scenario_is_empty() {
    assert!(Scenario::new().actions.is_empty());
}

#[test]
fn post_otlp_records_base64_body() {
    let s = Scenario::new().post_otlp("/v1/traces", b"hi");
    assert_eq!(s.actions.len(), 1);
    match &s.actions[0] {
        Action::PostOtlp { path, body } => {
            assert_eq!(path, "/v1/traces");
            assert_eq!(body, "aGk=");
        }
        other => panic!("unexpected action: {other:?}"),
    }
}

#[test]
fn get_collected_records_bounds() {
    let s = Scenario::new().get_collected(Some(250), Some(3));
    assert_eq!(s.actions.len(), 1);
    match &s.actions[0] {
        Action::GetCollected {
            timeout_ms,
            min_expected,
        } => {
            assert_eq!(*timeout_ms, Some(250));
            assert_eq!(*min_expected, Some(3));
        }
        other => panic!("unexpected action: {other:?}"),
    }
}

#[test]
fn actions_accumulate_in_order() {
    let s = Scenario::new()
        .post_otlp("/v1/logs", b"abc")
        .get_collected(None, None);
    assert_eq!(s.actions.len(), 2);
    assert!(matches!(&s.actions[0], Action::PostOtlp { .. }));
    assert!(matches!(&s.actions[1], Action::GetCollected { .. }));
}
