use paydrop::errors::Error;
use paydrop::intents::{AnyonePay, IntentStatus};

fn orchestrator() -> AnyonePay {
    AnyonePay::new("x402.near".to_string(), "intents.near".to_string())
}

fn create_i1(p: &mut AnyonePay) {
    p.create_intent(
        "i1".to_string(),
        "alice.near".to_string(),
        "swap".to_string(),
        "addr1".to_string(),
        1000,
        "https://x".to_string(),
        7,
    );
}

#[test]
fn scenario_full_settlement() {
    let mut p = orchestrator();
    create_i1(&mut p);
    assert_eq!(p.get_intent("i1".to_string()).unwrap().status, IntentStatus::Pending);
    p.mark_funded("i1".to_string()).unwrap();
    assert_eq!(p.get_intent("i1".to_string()).unwrap().status, IntentStatus::Funded);
    let req = p.execute_x402_payment("i1".to_string(), 1000, "bob.near".to_string()).unwrap();
    assert_eq!(req.intent_id, "i1");
    assert_eq!(req.amount, 1000);
    assert_eq!(req.recipient, "bob.near");
    assert_eq!(req.currency, "usdc");
    assert_eq!(p.get_intent("i1".to_string()).unwrap().status, IntentStatus::Executing);
    let done = p.on_x402_payment_success("i1".to_string()).unwrap();
    assert_eq!(done.status, IntentStatus::Completed);
    assert_eq!(p.get_intent("i1".to_string()).unwrap().status, IntentStatus::Completed);
}

#[test]
fn create_then_lookup_returns_supplied_fields() {
    let mut p = orchestrator();
    let created = p.create_intent(
        "i9".to_string(),
        "carol.near".to_string(),
        "bridge".to_string(),
        "addr9".to_string(),
        42,
        "https://y".to_string(),
        99,
    );
    assert_eq!(created.status, IntentStatus::Pending);
    let looked = p.get_intent("i9".to_string()).unwrap();
    assert_eq!(looked.id, "i9");
    assert_eq!(looked.user, "carol.near");
    assert_eq!(looked.intent_type, "bridge");
    assert_eq!(looked.deposit_address, "addr9");
    assert_eq!(looked.amount, 42);
    assert_eq!(looked.status, IntentStatus::Pending);
    assert_eq!(looked.redirect_url, "https://y");
    assert_eq!(looked.created_at, 99);
}

#[test]
fn execute_outside_funded_fails_invalid_state() {
    let mut p = orchestrator();
    create_i1(&mut p);
    // still Pending
    assert!(matches!(
        p.execute_x402_payment("i1".to_string(), 1000, "bob.near".to_string()),
        Err(Error::InvalidState)
    ));
    assert_eq!(p.get_intent("i1".to_string()).unwrap().status, IntentStatus::Pending);
    // and once Completed it stays terminal
    p.mark_funded("i1".to_string()).unwrap();
    p.execute_x402_payment("i1".to_string(), 1000, "bob.near".to_string()).unwrap();
    p.on_x402_payment_success("i1".to_string()).unwrap();
    assert!(matches!(
        p.execute_x402_payment("i1".to_string(), 1000, "bob.near".to_string()),
        Err(Error::InvalidState)
    ));
    assert_eq!(p.get_intent("i1".to_string()).unwrap().status, IntentStatus::Completed);
}

#[test]
fn rejection_moves_executing_to_failed() {
    let mut p = orchestrator();
    create_i1(&mut p);
    p.mark_funded("i1".to_string()).unwrap();
    p.execute_x402_payment("i1".to_string(), 1000, "bob.near".to_string()).unwrap();
    let failed = p.on_x402_payment_rejected("i1".to_string()).unwrap();
    assert_eq!(failed.status, IntentStatus::Failed);
    // terminal: neither settlement callback applies any more
    assert!(matches!(
        p.on_x402_payment_success("i1".to_string()),
        Err(Error::InvalidState)
    ));
    assert_eq!(p.get_intent("i1".to_string()).unwrap().status, IntentStatus::Failed);
}

#[test]
fn settlement_callbacks_require_executing() {
    let mut p = orchestrator();
    create_i1(&mut p);
    assert!(matches!(
        p.on_x402_payment_success("i1".to_string()),
        Err(Error::InvalidState)
    ));
    assert!(matches!(
        p.on_x402_payment_rejected("i1".to_string()),
        Err(Error::InvalidState)
    ));
    assert_eq!(p.get_intent("i1".to_string()).unwrap().status, IntentStatus::Pending);
}

#[test]
fn mark_funded_requires_pending() {
    let mut p = orchestrator();
    create_i1(&mut p);
    p.mark_funded("i1".to_string()).unwrap();
    assert_eq!(p.mark_funded("i1".to_string()), Err(Error::InvalidState));
    assert_eq!(p.get_intent("i1".to_string()).unwrap().status, IntentStatus::Funded);
}

#[test]
fn unknown_intent_ids_fail_not_found() {
    let mut p = orchestrator();
    assert_eq!(p.mark_funded("nope".to_string()), Err(Error::NotFound));
    assert!(p.get_intent("nope".to_string()).is_none());
    assert!(matches!(p.verify_deposit("nope".to_string()), Err(Error::NotFound)));
    assert!(matches!(
        p.execute_x402_payment("nope".to_string(), 1, "bob.near".to_string()),
        Err(Error::NotFound)
    ));
    assert!(matches!(p.on_x402_payment_success("nope".to_string()), Err(Error::NotFound)));
    assert!(matches!(p.on_x402_payment_rejected("nope".to_string()), Err(Error::NotFound)));
}

#[test]
fn verify_deposit_dispatches_the_bound_address() {
    let mut p = orchestrator();
    create_i1(&mut p);
    let q = p.verify_deposit("i1".to_string()).unwrap();
    assert_eq!(q.intent_id, "i1");
    assert_eq!(q.deposit_address, "addr1");
}

#[test]
fn duplicate_id_overwrites_prior_record() {
    let mut p = orchestrator();
    create_i1(&mut p);
    p.mark_funded("i1".to_string()).unwrap();
    // re-creating under the same id silently resets the record
    p.create_intent(
        "i1".to_string(),
        "dave.near".to_string(),
        "swap".to_string(),
        "addr2".to_string(),
        5,
        "https://z".to_string(),
        8,
    );
    let looked = p.get_intent("i1".to_string()).unwrap();
    assert_eq!(looked.user, "dave.near");
    assert_eq!(looked.status, IntentStatus::Pending);
    assert_eq!(looked.amount, 5);
}

#[test]
fn default_orchestrator_is_empty() {
    let p = AnyonePay::default();
    assert!(p.get_intent("i1".to_string()).is_none());
}
