use stacks_marf::special::{
    apply_lock_outcome, handle_contract_call_special_cases, lock_event, lock_request_after_cost,
    record_event, special_case_cost, unlock_height_of, BootContract, LockEvent, LockOutcome,
    RuntimeCost, SpecialCaseAction, SpecialCaseError,
};

#[test]
fn first_contract_stacking_locks() {
    assert_eq!(
        handle_contract_call_special_cases(BootContract::PoxV1, "stack-stx", 100, 50),
        Ok(SpecialCaseAction::LockV1)
    );
    assert_eq!(
        handle_contract_call_special_cases(BootContract::PoxV1, "delegate-stack-stx", 100, 50),
        Ok(SpecialCaseAction::LockV1)
    );
    assert_eq!(
        handle_contract_call_special_cases(BootContract::PoxV1, "stack-extend", 100, 50),
        Ok(SpecialCaseAction::NoAction)
    );
}

#[test]
fn first_contract_defunct_after_unlock_height() {
    assert_eq!(
        handle_contract_call_special_cases(BootContract::PoxV1, "stack-stx", 100, 100),
        Err(SpecialCaseError::DefunctPoxContract)
    );
    assert_eq!(
        handle_contract_call_special_cases(BootContract::PoxV1, "get-info", 10, 200),
        Err(SpecialCaseError::DefunctPoxContract)
    );
}

#[test]
fn second_contract_locks_and_extends() {
    assert_eq!(
        handle_contract_call_special_cases(BootContract::PoxV2, "stack-stx", 0, 500),
        Ok(SpecialCaseAction::LockV2)
    );
    assert_eq!(
        handle_contract_call_special_cases(BootContract::PoxV2, "delegate-stack-extend", 0, 500),
        Ok(SpecialCaseAction::ExtendV2)
    );
    assert_eq!(
        handle_contract_call_special_cases(BootContract::PoxV2, "stack-extend", 0, 500),
        Ok(SpecialCaseAction::ExtendV2)
    );
    assert_eq!(
        handle_contract_call_special_cases(BootContract::PoxV2, "stack-stx-x", 0, 500),
        Ok(SpecialCaseAction::NoAction)
    );
}

#[test]
fn other_contracts_need_nothing() {
    assert_eq!(
        handle_contract_call_special_cases(BootContract::Other, "stack-stx", 0, 500),
        Ok(SpecialCaseAction::NoAction)
    );
}

#[test]
fn unlock_heights() {
    assert_eq!(unlock_height_of(42), Some(42));
    assert_eq!(unlock_height_of(u64::MAX as u128), Some(u64::MAX));
    assert_eq!(unlock_height_of(u64::MAX as u128 + 1), None);
}

use stacks_marf::special::{
    is_extend_result, is_stacking_result, parse_pox_extend_result, parse_pox_stacking_result,
    pox_lock_request, LockRequest, Value,
};

fn tuple(fields: Vec<(&str, Value)>) -> Value {
    Value::Tuple(fields.into_iter().map(|(n, v)| (n.to_string(), v)).collect())
}

fn ok(v: Value) -> Value {
    Value::Response(true, Box::new(v))
}

fn err(v: Value) -> Value {
    Value::Response(false, Box::new(v))
}

fn stacking_ok(height: u128) -> Value {
    ok(tuple(vec![
        ("lock-amount", Value::UInt(1000)),
        ("stacker", Value::Principal("SP000".to_string())),
        ("unlock-burn-height", Value::UInt(height)),
    ]))
}

#[test]
fn parses_stacking_results() {
    assert_eq!(
        parse_pox_stacking_result(&stacking_ok(700)),
        Ok(("SP000".to_string(), 1000, 700))
    );
    assert_eq!(parse_pox_stacking_result(&err(Value::Int(-3))), Err(-3));
    assert!(is_stacking_result(&stacking_ok(700)));
    assert!(is_stacking_result(&err(Value::Int(-3))));
    assert!(!is_stacking_result(&stacking_ok(u64::MAX as u128 + 1)));
    assert!(!is_stacking_result(&ok(Value::UInt(1))));
    assert!(!is_stacking_result(&err(Value::UInt(3))));
    assert!(!is_stacking_result(&ok(tuple(vec![("stacker", Value::Principal("a".to_string()))]))));
}

#[test]
fn parses_extend_results() {
    let v = ok(tuple(vec![
        ("stacker", Value::Principal("SP1".to_string())),
        ("unlock-burn-height", Value::UInt(900)),
    ]));
    assert_eq!(parse_pox_extend_result(&v), Ok(("SP1".to_string(), 900)));
    assert_eq!(parse_pox_extend_result(&err(Value::Int(26))), Err(26));
    assert!(is_extend_result(&v));
    assert!(!is_extend_result(&Value::Int(1)));
    assert!(!is_extend_result(&ok(Value::Int(1))));
    let too_high = ok(tuple(vec![
        ("stacker", Value::Principal("SP1".to_string())),
        ("unlock-burn-height", Value::UInt(u64::MAX as u128 + 1)),
    ]));
    assert!(!is_extend_result(&too_high));
}

#[test]
fn lock_requests_follow_the_action() {
    match pox_lock_request(SpecialCaseAction::LockV2, &stacking_ok(700)) {
        Some(LockRequest::Lock { stacker, amount, unlock_height, v2 }) => {
            assert_eq!(stacker, "SP000");
            assert_eq!(amount, 1000);
            assert_eq!(unlock_height, 700);
            assert!(v2);
        }
        _ => panic!("expected a lock"),
    }
    match pox_lock_request(SpecialCaseAction::LockV1, &stacking_ok(700)) {
        Some(LockRequest::Lock { v2, .. }) => assert!(!v2),
        _ => panic!("expected a lock"),
    }
    assert!(matches!(
        pox_lock_request(SpecialCaseAction::LockV1, &err(Value::Int(3))),
        Some(LockRequest::Nothing)
    ));
    assert!(matches!(
        pox_lock_request(SpecialCaseAction::NoAction, &Value::Int(0)),
        Some(LockRequest::Nothing)
    ));
    let ext = ok(tuple(vec![
        ("stacker", Value::Principal("SP2".to_string())),
        ("unlock-burn-height", Value::UInt(12)),
    ]));
    match pox_lock_request(SpecialCaseAction::ExtendV2, &ext) {
        Some(LockRequest::Extend { stacker, unlock_height }) => {
            assert_eq!(stacker, "SP2");
            assert_eq!(unlock_height, 12);
        }
        _ => panic!("expected an extension"),
    }
    assert!(pox_lock_request(SpecialCaseAction::ExtendV2, &Value::UInt(1)).is_none());
}

#[test]
fn special_calls_cost_one_transfer() {
    for a in [SpecialCaseAction::LockV1, SpecialCaseAction::LockV2, SpecialCaseAction::ExtendV2] {
        assert_eq!(special_case_cost(a), Some((RuntimeCost::StxTransfer, 1)));
    }
    assert_eq!(special_case_cost(SpecialCaseAction::NoAction), None);
}

#[test]
fn failed_cost_ends_handling() {
    let r = lock_request_after_cost(SpecialCaseAction::LockV2, Err("out of budget"), &stacking_ok(700));
    assert!(matches!(r, Some(Err("out of budget"))));
    let r = lock_request_after_cost(SpecialCaseAction::ExtendV2, Err(7u8), &Value::Int(0));
    assert!(matches!(r, Some(Err(7))));
}

#[test]
fn charged_err_result_locks_nothing() {
    let r = lock_request_after_cost::<()>(SpecialCaseAction::LockV1, Ok(()), &err(Value::Int(3)));
    assert!(matches!(r, Some(Ok(LockRequest::Nothing))));
    let r = lock_request_after_cost::<()>(SpecialCaseAction::LockV1, Ok(()), &stacking_ok(5));
    assert!(matches!(r, Some(Ok(LockRequest::Lock { amount: 1000, unlock_height: 5, v2: false, .. }))));
    let r = lock_request_after_cost::<()>(SpecialCaseAction::NoAction, Ok(()), &Value::Int(0));
    assert!(matches!(r, Some(Ok(LockRequest::Nothing))));
}

fn lock(v2: bool) -> LockRequest {
    LockRequest::Lock { stacker: "SP9".to_string(), amount: 500, unlock_height: 40, v2 }
}

#[test]
fn lock_events_carry_the_lock() {
    let e = lock_event(&lock(true), 0).unwrap();
    assert_eq!((e.locked_amount, e.unlock_height, e.locked_address.as_str()), (500, 40, "SP9"));
    let ext = LockRequest::Extend { stacker: "SP8".to_string(), unlock_height: 90 };
    let e = lock_event(&ext, 1234).unwrap();
    assert_eq!((e.locked_amount, e.unlock_height, e.locked_address.as_str()), (1234, 90, "SP8"));
    assert!(lock_event(&LockRequest::Nothing, 1).is_none());
}

#[test]
fn events_go_to_the_last_batch() {
    let mut batches: Vec<Vec<u32>> = vec![vec![1], vec![2]];
    record_event(&mut batches, 3);
    assert_eq!(batches, vec![vec![1], vec![2, 3]]);
    let mut none: Vec<Vec<u32>> = vec![];
    record_event(&mut none, 3);
    assert!(none.is_empty());
}

#[test]
fn lock_outcomes() {
    let mut batches: Vec<Vec<LockEvent>> = vec![vec![]];
    assert_eq!(apply_lock_outcome(&lock(false), LockOutcome::Applied, 0, &mut batches), Ok(()));
    assert_eq!(batches[0].len(), 1);
    assert_eq!(batches[0][0].locked_amount, 500);
    assert_eq!(
        apply_lock_outcome(&lock(true), LockOutcome::DefunctPoxContract, 0, &mut batches),
        Err(SpecialCaseError::DefunctPoxContract)
    );
    assert_eq!(batches[0].len(), 1);
    let mut empty: Vec<Vec<LockEvent>> = vec![];
    assert_eq!(apply_lock_outcome(&lock(true), LockOutcome::Applied, 0, &mut empty), Ok(()));
    assert!(empty.is_empty());
    assert_eq!(apply_lock_outcome(&LockRequest::Nothing, LockOutcome::OtherFailure, 0, &mut batches), Ok(()));
    assert_eq!(batches[0].len(), 1);
}
