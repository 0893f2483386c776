use vstd::prelude::*;
use crate::docs::{first_key, has_key, is_first_key};
use crate::text::chars_of;

verus! {

/// The boot contract that a contract call went to, as far as special handling is concerned.
#[derive(Copy, Clone, PartialEq, Eq, Debug, Structural)]
pub enum BootContract {
    /// The first stacking (PoX) contract.
    PoxV1,
    /// The second stacking (PoX) contract.
    PoxV2,
    /// Any other contract.
    Other,
}

/// What the virtual machine must do after a successful call returned.
#[derive(Copy, Clone, PartialEq, Eq, Debug, Structural)]
pub enum SpecialCaseAction {
    /// Nothing beyond the call itself.
    NoAction,
    /// Read a stacking result and lock the stacker's tokens with the first contract's rules.
    LockV1,
    /// Read a stacking result and lock the stacker's tokens with the second contract's rules.
    LockV2,
    /// Read an extension result and extend the stacker's lock.
    ExtendV2,
}

/// Errors that special handling surfaces to the caller.
#[derive(Copy, Clone, PartialEq, Eq, Debug, Structural)]
pub enum SpecialCaseError {
    /// The stacking contract may no longer lock tokens.
    DefunctPoxContract,
}

/// How an attempt to lock or extend a lock ended.
#[derive(Copy, Clone, PartialEq, Eq, Debug, Structural)]
pub enum LockOutcome {
    /// The lock was applied.
    Applied,
    /// The chain state refused: the stacking contract is defunct.
    DefunctPoxContract,
    /// Any other refusal, which the stacking contract should have prevented.
    OtherFailure,
}

/// The function names that lock tokens.
pub open spec fn is_stacking_call(f: Seq<char>) -> bool {
    f == "stack-stx"@ || f == "delegate-stack-stx"@
}

/// The function names that extend a lock.
pub open spec fn is_extend_call(f: Seq<char>) -> bool {
    f == "stack-extend"@ || f == "delegate-stack-extend"@
}

/// The action owed for a call of `f` on `contract`, when the first contract is still live.
pub open spec fn special_action(contract: BootContract, f: Seq<char>) -> SpecialCaseAction {
    match contract {
        BootContract::PoxV1 => if is_stacking_call(f) {
            SpecialCaseAction::LockV1
        } else {
            SpecialCaseAction::NoAction
        },
        BootContract::PoxV2 => if is_stacking_call(f) {
            SpecialCaseAction::LockV2
        } else if is_extend_call(f) {
            SpecialCaseAction::ExtendV2
        } else {
            SpecialCaseAction::NoAction
        },
        BootContract::Other => SpecialCaseAction::NoAction,
    }
}

fn same_chars(a: &Vec<char>, b: &Vec<char>) -> (r: bool)
    ensures
        r == (a@ == b@),
{
    if a.len() != b.len() {
        return false;
    }
    let mut i: usize = 0;
    while i < a.len()
        invariant
            i <= a@.len(),
            a@.len() == b@.len(),
            forall|j: int| 0 <= j < i ==> a@[j] == b@[j],
        decreases a@.len() - i,
    {
        if a[i] != b[i] {
            return false;
        }
        i = i + 1;
    }
    assert(a@ =~= b@);
    true
}

/// Whether `f` is one of the two names.
fn is_one_of(f: &str, x: &str, y: &str) -> (r: bool)
    ensures
        r == (f@ == x@ || f@ == y@),
{
    let fc = chars_of(f);
    same_chars(&fc, &chars_of(x)) || same_chars(&fc, &chars_of(y))
}

/// The action owed after a call of `function_name` on the first stacking contract.
pub fn handle_pox_v1_api_contract_call(function_name: &str) -> (r: SpecialCaseAction)
    ensures
        r == special_action(BootContract::PoxV1, function_name@),
{
    if is_one_of(function_name, "stack-stx", "delegate-stack-stx") {
        SpecialCaseAction::LockV1
    } else {
        SpecialCaseAction::NoAction
    }
}

/// The action owed after a call of `function_name` on the second stacking contract.
pub fn handle_pox_v2_api_contract_call(function_name: &str) -> (r: SpecialCaseAction)
    ensures
        r == special_action(BootContract::PoxV2, function_name@),
{
    if is_one_of(function_name, "stack-stx", "delegate-stack-stx") {
        SpecialCaseAction::LockV2
    } else if is_one_of(function_name, "stack-extend", "delegate-stack-extend") {
        SpecialCaseAction::ExtendV2
    } else {
        SpecialCaseAction::NoAction
    }
}

/// Decides the special handling of a call of `function_name` on `contract`.
/// Any call to the first stacking contract once the burn chain has reached its
/// unlock height is refused. For an action other than `NoAction` the handling
/// goes on in steps: charge `special_case_cost(action)`, decide the lock with
/// `lock_request_after_cost`, perform it, and end with `apply_lock_outcome`,
/// which records the lock event.
pub fn handle_contract_call_special_cases(
    contract: BootContract,
    function_name: &str,
    v1_unlock_height: u64,
    current_burn_height: u64,
) -> (r: Result<SpecialCaseAction, SpecialCaseError>)
    ensures
        contract == BootContract::PoxV1 && v1_unlock_height <= current_burn_height ==> r == Err::<
            SpecialCaseAction,
            SpecialCaseError,
        >(SpecialCaseError::DefunctPoxContract),
        !(contract == BootContract::PoxV1 && v1_unlock_height <= current_burn_height) ==> r == Ok::<
            SpecialCaseAction,
            SpecialCaseError,
        >(special_action(contract, function_name@)),
{
    match contract {
        BootContract::PoxV1 => {
            if v1_unlock_height <= current_burn_height {
                Err(SpecialCaseError::DefunctPoxContract)
            } else {
                Ok(handle_pox_v1_api_contract_call(function_name))
            }
        },
        BootContract::PoxV2 => Ok(handle_pox_v2_api_contract_call(function_name)),
        BootContract::Other => Ok(SpecialCaseAction::NoAction),
    }
}

/// The unlock height of a stacking result, where it fits in 64 bits.
pub fn unlock_height_of(v: u128) -> (r: Option<u64>)
    ensures
        v <= u64::MAX ==> r == Some(v as u64),
        v > u64::MAX ==> r is None,
{
    if v <= u64::MAX as u128 {
        Some(v as u64)
    } else {
        None
    }
}

// ---------------------------------------------------------------------------
// Results of stacking calls
// ---------------------------------------------------------------------------

/// The part of the virtual machine's values that stacking results are made of.
pub enum Value {
    Int(i128),
    UInt(u128),
    /// A principal, by its textual form.
    Principal(String),
    /// A tuple: named fields.
    Tuple(Vec<(String, Value)>),
    /// A response: `ok` (true) or `err` (false), with its payload.
    Response(bool, Box<Value>),
}

/// The field `n` of the tuple fields `t`, if it has one.
pub open spec fn field_of(t: Seq<(String, Value)>, n: Seq<char>) -> Option<Value> {
    if has_key(t, n) {
        Some(t[first_key(t, n)].1)
    } else {
        None
    }
}

/// A principal field.
pub open spec fn principal_field(t: Seq<(String, Value)>, n: Seq<char>) -> Option<Seq<char>> {
    match field_of(t, n) {
        Some(Value::Principal(p)) => Some(p@),
        _ => None,
    }
}

/// An unsigned field.
pub open spec fn uint_field(t: Seq<(String, Value)>, n: Seq<char>) -> Option<u128> {
    match field_of(t, n) {
        Some(Value::UInt(u)) => Some(u),
        _ => None,
    }
}

/// An unsigned field that fits in 64 bits.
pub open spec fn height_field(t: Seq<(String, Value)>, n: Seq<char>) -> Option<u64> {
    match uint_field(t, n) {
        Some(u) => if u <= u64::MAX {
            Some(u as u64)
        } else {
            None
        },
        None => None,
    }
}

/// What a stacking call's result says: `Some(Ok((stacker, amount, unlock height)))`
/// for an `ok` tuple, `Some(Err(code))` for an `err` integer, `None` for a
/// value of any other shape.
pub open spec fn stacking_result(v: Value) -> Option<Result<(Seq<char>, u128, u64), i128>> {
    match v {
        Value::Response(true, inner) => match *inner {
            Value::Tuple(t) => match (
                principal_field(t@, "stacker"@),
                uint_field(t@, "lock-amount"@),
                height_field(t@, "unlock-burn-height"@),
            ) {
                (Some(p), Some(a), Some(h)) => Some(Ok((p, a, h))),
                _ => None,
            },
            _ => None,
        },
        Value::Response(false, inner) => match *inner {
            Value::Int(e) => Some(Err(e)),
            _ => None,
        },
        _ => None,
    }
}

/// What an extension call's result says: `Some(Ok((stacker, unlock height)))`
/// for an `ok` tuple, `Some(Err(code))` for an `err` integer, `None` otherwise.
pub open spec fn extend_result(v: Value) -> Option<Result<(Seq<char>, u64), i128>> {
    match v {
        Value::Response(true, inner) => match *inner {
            Value::Tuple(t) => match (
                principal_field(t@, "stacker"@),
                height_field(t@, "unlock-burn-height"@),
            ) {
                (Some(p), Some(h)) => Some(Ok((p, h))),
                _ => None,
            },
            _ => None,
        },
        Value::Response(false, inner) => match *inner {
            Value::Int(e) => Some(Err(e)),
            _ => None,
        },
        _ => None,
    }
}

/// The view of a parsed stacking result.
pub open spec fn stacking_view(r: Option<Result<(String, u128, u64), i128>>) -> Option<
    Result<(Seq<char>, u128, u64), i128>,
> {
    match r {
        Some(Ok((p, a, h))) => Some(Ok((p@, a, h))),
        Some(Err(e)) => Some(Err(e)),
        None => None,
    }
}

/// The view of a parsed extension result.
pub open spec fn extend_view(r: Option<Result<(String, u64), i128>>) -> Option<
    Result<(Seq<char>, u64), i128>,
> {
    match r {
        Some(Ok((p, h))) => Some(Ok((p@, h))),
        Some(Err(e)) => Some(Err(e)),
        None => None,
    }
}

/// The position of the first field named `n`.
fn find_field(t: &Vec<(String, Value)>, n: &str) -> (r: Option<usize>)
    ensures
        r is Some <==> has_key(t@, n@),
        r matches Some(i) ==> i < t@.len() && first_key(t@, n@) == i,
{
    let nc = chars_of(n);
    let mut i: usize = 0;
    while i < t.len()
        invariant
            i <= t@.len(),
            nc@ == n@,
            forall|j: int| 0 <= j < i ==> #[trigger] t@[j].0@ != n@,
        decreases t@.len() - i,
    {
        let fc = chars_of(t[i].0.as_str());
        if same_chars(&fc, &nc) {
            proof {
                assert(is_first_key(t@, n@, i as int));
                crate::docs::lemma_first_key_unique(t@, n@, i as int);
            }
            return Some(i);
        }
        i = i + 1;
    }
    None
}

fn get_principal(t: &Vec<(String, Value)>, n: &str) -> (r: Option<String>)
    ensures
        match r {
            Some(p) => principal_field(t@, n@) == Some(p@),
            None => principal_field(t@, n@) is None,
        },
{
    match find_field(t, n) {
        Some(i) => match &t[i].1 {
            Value::Principal(p) => Some(p.clone()),
            _ => None,
        },
        None => None,
    }
}

fn get_uint(t: &Vec<(String, Value)>, n: &str) -> (r: Option<u128>)
    ensures
        r == uint_field(t@, n@),
{
    match find_field(t, n) {
        Some(i) => match &t[i].1 {
            Value::UInt(u) => Some(*u),
            _ => None,
        },
        None => None,
    }
}

fn get_height(t: &Vec<(String, Value)>, n: &str) -> (r: Option<u64>)
    ensures
        r == height_field(t@, n@),
{
    match get_uint(t, n) {
        Some(u) => unlock_height_of(u),
        None => None,
    }
}

fn read_stacking_result(result: &Value) -> (r: Option<Result<(String, u128, u64), i128>>)
    ensures
        stacking_view(r) == stacking_result(*result),
{
    match result {
        Value::Response(true, inner) => match &**inner {
            Value::Tuple(t) => {
                let p = get_principal(t, "stacker");
                let a = get_uint(t, "lock-amount");
                let h = get_height(t, "unlock-burn-height");
                match (p, a, h) {
                    (Some(p), Some(a), Some(h)) => Some(Ok((p, a, h))),
                    _ => None,
                }
            },
            _ => None,
        },
        Value::Response(false, inner) => match &**inner {
            Value::Int(e) => Some(Err(*e)),
            _ => None,
        },
        _ => None,
    }
}

fn read_extend_result(result: &Value) -> (r: Option<Result<(String, u64), i128>>)
    ensures
        extend_view(r) == extend_result(*result),
{
    match result {
        Value::Response(true, inner) => match &**inner {
            Value::Tuple(t) => {
                let p = get_principal(t, "stacker");
                let h = get_height(t, "unlock-burn-height");
                match (p, h) {
                    (Some(p), Some(h)) => Some(Ok((p, h))),
                    _ => None,
                }
            },
            _ => None,
        },
        Value::Response(false, inner) => match &**inner {
            Value::Int(e) => Some(Err(*e)),
            _ => None,
        },
        _ => None,
    }
}

/// The change to an account's lock that a call calls for.
pub enum LockRequest {
    /// Nothing to lock: the call was not a stacking call, or it failed.
    Nothing,
    /// Lock `amount` of `stacker`'s tokens until `unlock_height`, with the
    /// rules of the first (`v2 == false`) or second stacking contract.
    Lock { stacker: String, amount: u128, unlock_height: u64, v2: bool },
    /// Extend `stacker`'s lock until `unlock_height`.
    Extend { stacker: String, unlock_height: u64 },
}

/// Whether `result` has the shape of a stacking call's result: an `ok` tuple
/// with a principal `stacker`, an unsigned `lock-amount` and an unsigned
/// `unlock-burn-height` that fits in 64 bits, or an `err` integer.
pub fn is_stacking_result(result: &Value) -> (r: bool)
    ensures
        r == stacking_result(*result) is Some,
{
    read_stacking_result(result).is_some()
}

/// Whether `result` has the shape of an extension call's result: an `ok`
/// tuple with a principal `stacker` and an unsigned `unlock-burn-height` that
/// fits in 64 bits, or an `err` integer.
pub fn is_extend_result(result: &Value) -> (r: bool)
    ensures
        r == extend_result(*result) is Some,
{
    read_extend_result(result).is_some()
}

/// Reads the result of a stacking call: who stacked, how much, and until
/// which burn height for an `ok`; the error code for an `err`. The value must
/// have that shape (see `is_stacking_result`).
pub fn parse_pox_stacking_result(result: &Value) -> (r: Result<(String, u128, u64), i128>)
    requires
        stacking_result(*result) is Some,
    ensures
        stacking_view(Some(r)) == stacking_result(*result),
{
    match read_stacking_result(result) {
        Some(r) => r,
        None => Err(0),
    }
}

/// Reads the result of an extension call: who stacked and the new unlock
/// burn height for an `ok`; the error code for an `err`. The value must have
/// that shape (see `is_extend_result`).
pub fn parse_pox_extend_result(result: &Value) -> (r: Result<(String, u64), i128>)
    requires
        extend_result(*result) is Some,
    ensures
        extend_view(Some(r)) == extend_result(*result),
{
    match read_extend_result(result) {
        Some(r) => r,
        None => Err(0),
    }
}

/// Decides what lock a successful special-case call calls for, from the
/// value it returned: a lock or an extension where the call succeeded, nothing
/// where it returned an error code or needs no handling. `None` where the
/// value is not of the shape that the stacking contract returns.
pub fn pox_lock_request(action: SpecialCaseAction, result: &Value) -> (r: Option<LockRequest>)
    ensures
        action == SpecialCaseAction::NoAction ==> r matches Some(LockRequest::Nothing),
        action == SpecialCaseAction::LockV1 || action == SpecialCaseAction::LockV2 ==> match stacking_result(*result) {
            Some(Ok((p, a, h))) => r matches Some(LockRequest::Lock { stacker, amount, unlock_height, v2 }) && stacker@ == p
                && amount == a && unlock_height == h && v2 == (action == SpecialCaseAction::LockV2),
            Some(Err(_)) => r matches Some(LockRequest::Nothing),
            None => r is None,
        },
        action == SpecialCaseAction::ExtendV2 ==> match extend_result(*result) {
            Some(Ok((p, h))) => r matches Some(LockRequest::Extend { stacker, unlock_height }) && stacker@ == p
                && unlock_height == h,
            Some(Err(_)) => r matches Some(LockRequest::Nothing),
            None => r is None,
        },
{
    match action {
        SpecialCaseAction::NoAction => Some(LockRequest::Nothing),
        SpecialCaseAction::LockV1 | SpecialCaseAction::LockV2 => if !is_stacking_result(result) {
            None
        } else {
            match parse_pox_stacking_result(result) {
            Ok((stacker, amount, unlock_height)) => Some(
                LockRequest::Lock {
                    stacker,
                    amount,
                    unlock_height,
                    v2: matches!(action, SpecialCaseAction::LockV2),
                },
            ),
            Err(_) => Some(LockRequest::Nothing),
            }
        },
        SpecialCaseAction::ExtendV2 => if !is_extend_result(result) {
            None
        } else {
            match parse_pox_extend_result(result) {
                Ok((stacker, unlock_height)) => Some(LockRequest::Extend { stacker, unlock_height }),
                Err(_) => Some(LockRequest::Nothing),
            }
        },
    }
}

// ---------------------------------------------------------------------------
// Cost, lock and event
// ---------------------------------------------------------------------------

/// A runtime cost that special handling charges.
#[derive(Copy, Clone, PartialEq, Eq, Debug, Structural)]
pub enum RuntimeCost {
    /// The cost of an STX transfer: applying a lock costs as much.
    StxTransfer,
}

/// The cost to charge, with its input, before the result of a call is read:
/// one STX transfer for each call that needs special handling, none otherwise.
pub fn special_case_cost(action: SpecialCaseAction) -> (r: Option<(RuntimeCost, u64)>)
    ensures
        action == SpecialCaseAction::NoAction ==> r is None,
        action != SpecialCaseAction::NoAction ==> r == Some((RuntimeCost::StxTransfer, 1u64)),
{
    match action {
        SpecialCaseAction::NoAction => None,
        _ => Some((RuntimeCost::StxTransfer, 1)),
    }
}

/// `r` is the lock request owed for `action` on the value `v`: `None` where
/// the value is not of the shape the stacking contract returns.
pub open spec fn is_lock_request_for(action: SpecialCaseAction, v: Value, r: Option<LockRequest>) -> bool {
    &&& action == SpecialCaseAction::NoAction ==> (r matches Some(LockRequest::Nothing))
    &&& action == SpecialCaseAction::LockV1 || action == SpecialCaseAction::LockV2 ==> match stacking_result(v) {
        Some(Ok((p, a, h))) => (r matches Some(LockRequest::Lock { stacker, amount, unlock_height, v2 })
            && stacker@ == p && amount == a && unlock_height == h && v2 == (action
            == SpecialCaseAction::LockV2)),
        Some(Err(_)) => (r matches Some(LockRequest::Nothing)),
        None => r is None,
    }
    &&& action == SpecialCaseAction::ExtendV2 ==> match extend_result(v) {
        Some(Ok((p, h))) => (r matches Some(LockRequest::Extend { stacker, unlock_height })
            && stacker@ == p && unlock_height == h),
        Some(Err(_)) => (r matches Some(LockRequest::Nothing)),
        None => r is None,
    }
}

/// Decides the lock request once the cost of `special_case_cost(action)` has
/// been charged with outcome `cost` (`Ok(())` where no cost is owed). A failed
/// charge ends the handling with its error, before the result is read; an
/// `err` result, after a charge that succeeded, asks for no lock. `None` where
/// the result is not of the shape the stacking contract returns.
pub fn lock_request_after_cost<E>(
    action: SpecialCaseAction,
    cost: Result<(), E>,
    result: &Value,
) -> (r: Option<Result<LockRequest, E>>)
    ensures
        action == SpecialCaseAction::NoAction ==> r matches Some(Ok(LockRequest::Nothing)),
        action != SpecialCaseAction::NoAction ==> match cost {
            Err(e) => r matches Some(Err(e2)) && e2 == e,
            Ok(_) => match r {
                Some(Ok(q)) => is_lock_request_for(action, *result, Some(q)),
                Some(Err(_)) => false,
                None => is_lock_request_for(action, *result, None),
            },
        },
{
    if let SpecialCaseAction::NoAction = action {
        return Some(Ok(LockRequest::Nothing));
    }
    match cost {
        Err(e) => Some(Err(e)),
        Ok(()) => match pox_lock_request(action, result) {
            Some(q) => Some(Ok(q)),
            None => None,
        },
    }
}

/// The event recorded when a lock is applied.
pub struct LockEvent {
    pub locked_amount: u128,
    pub unlock_height: u64,
    pub locked_address: String,
}

impl View for LockEvent {
    type V = (u128, u64, Seq<char>);

    open spec fn view(&self) -> (u128, u64, Seq<char>) {
        (self.locked_amount, self.unlock_height, self.locked_address@)
    }
}

/// The event for an applied `req`: the request's amount, height and stacker
/// for a lock; for an extension, the amount that the extension reports as
/// locked. No event where nothing was requested.
pub open spec fn lock_event_of(req: LockRequest, extended_amount: u128) -> Option<(u128, u64, Seq<char>)> {
    match req {
        LockRequest::Nothing => None,
        LockRequest::Lock { stacker, amount, unlock_height, v2 } => Some((amount, unlock_height, stacker@)),
        LockRequest::Extend { stacker, unlock_height } => Some((extended_amount, unlock_height, stacker@)),
    }
}

/// The event recorded for an applied `req` (see `lock_event_of`).
pub fn lock_event(req: &LockRequest, extended_amount: u128) -> (r: Option<LockEvent>)
    ensures
        match r {
            Some(e) => lock_event_of(*req, extended_amount) == Some(e@),
            None => lock_event_of(*req, extended_amount) is None,
        },
{
    match req {
        LockRequest::Nothing => None,
        LockRequest::Lock { stacker, amount, unlock_height, .. } => Some(
            LockEvent { locked_amount: *amount, unlock_height: *unlock_height, locked_address: stacker.clone() },
        ),
        LockRequest::Extend { stacker, unlock_height } => Some(
            LockEvent { locked_amount: extended_amount, unlock_height: *unlock_height, locked_address: stacker.clone() },
        ),
    }
}

/// `after` is `before` with `event` added to the last batch; unchanged where
/// there is no batch.
pub open spec fn recorded_in_last<T>(before: Seq<Vec<T>>, after: Seq<Vec<T>>, event: T) -> bool {
    if before.len() == 0 {
        after == before
    } else {
        after.len() == before.len() && after.drop_last() == before.drop_last() && after.last()@
            == before.last()@.push(event)
    }
}

/// Adds `event` to the last batch of events, if there is one.
pub fn record_event<T>(batches: &mut Vec<Vec<T>>, event: T)
    ensures
        recorded_in_last(old(batches)@, final(batches)@, event),
{
    let n = batches.len();
    if n > 0 {
        let mut last = batches.pop().unwrap();
        last.push(event);
        batches.push(last);
        assert(batches@.drop_last() =~= old(batches)@.drop_last());
    }
}

/// Ends the handling of a call whose lock request `req` was performed with
/// outcome `outcome` (`extended_amount` is the amount an extension reports as
/// locked). Where the lock was applied, its event goes to the last batch of
/// `batches`, if there is one, and the call succeeds; where the contract is
/// defunct, nothing is recorded and the call fails. Any other refusal is a
/// broken invariant of the stacking contract and is not admitted here.
pub fn apply_lock_outcome(
    req: &LockRequest,
    outcome: LockOutcome,
    extended_amount: u128,
    batches: &mut Vec<Vec<LockEvent>>,
) -> (r: Result<(), SpecialCaseError>)
    requires
        *req is Nothing || outcome != LockOutcome::OtherFailure,
    ensures
        *req is Nothing ==> r == Ok::<(), SpecialCaseError>(()) && final(batches)@ == old(batches)@,
        !(*req is Nothing) && outcome == LockOutcome::DefunctPoxContract ==> r == Err::<
            (),
            SpecialCaseError,
        >(SpecialCaseError::DefunctPoxContract) && final(batches)@ == old(batches)@,
        !(*req is Nothing) && outcome == LockOutcome::Applied ==> r == Ok::<(), SpecialCaseError>(())
            && exists|e: LockEvent|
            Some(e@) == lock_event_of(*req, extended_amount) && recorded_in_last(
                old(batches)@,
                final(batches)@,
                e,
            ),
{
    if let LockRequest::Nothing = req {
        return Ok(());
    }
    match outcome {
        LockOutcome::Applied => {
            match lock_event(req, extended_amount) {
                Some(e) => {
                    let ghost ev = e;
                    record_event(batches, e);
                    assert(recorded_in_last(old(batches)@, batches@, ev));
                },
                None => {},
            }
            Ok(())
        },
        _ => Err(SpecialCaseError::DefunctPoxContract),
    }
}

} // verus!
