use bocik::execution::durable_nonce_manager::{NonceManager, NonceState};
use bocik::execution::quantum_race::{
    acquire_ammunition, build_transaction_variants, conclude_race, grid_size, plan_dispatch,
    DispatchOutcome, RaceError, RaceVariant,
};
use bocik::execution::rpc_manager::RpcError;

fn advanced_pool(n: usize) -> NonceManager {
    let mut m = NonceManager::new(n).unwrap();
    assert_eq!(m.take_advance_queue(), (0..n).collect::<Vec<usize>>());
    for i in 0..n {
        m.complete_advance(i, [i as u8 + 1; 32]);
    }
    m
}

#[test]
fn race_acquires_every_available_account() {
    let mut m = advanced_pool(3);
    assert_eq!(acquire_ammunition(&mut m), Ok(vec![0, 1, 2]));
    assert_eq!(acquire_ammunition(&mut m), Err(RaceError::NoNoncesAvailable));
}

#[test]
fn variants_carry_each_accounts_hash() {
    let mut m = advanced_pool(2);
    let acquired = acquire_ammunition(&mut m).unwrap();
    let variants = build_transaction_variants(&m, &acquired).unwrap();
    assert_eq!(
        variants,
        vec![
            RaceVariant { nonce_index: 0, nonce_pubkey: m.pubkey(0), blockhash: [1; 32] },
            RaceVariant { nonce_index: 1, nonce_pubkey: m.pubkey(1), blockhash: [2; 32] },
        ]
    );
}

#[test]
fn variants_fail_on_unadvanced_account() {
    let mut m = NonceManager::new(3).unwrap();
    m.complete_advance(0, [1; 32]);
    assert_eq!(
        build_transaction_variants(&m, &vec![0, 1, 2]),
        Err(RaceError::NonceNotAdvanced(m.pubkey(1)))
    );
}

#[test]
fn empty_ranking_returns_nonces() {
    let mut m = advanced_pool(2);
    let acquired = acquire_ammunition(&mut m).unwrap();
    assert_eq!(plan_dispatch(&mut m, acquired, Ok(0)), Err(RaceError::NoRpcEndpoints));
    assert_eq!(m.state(0), NonceState::RequiresAdvance);
    assert_eq!(m.take_advance_queue(), vec![0, 1]);
}

#[test]
fn failed_ranking_keeps_nonces_in_flight() {
    let mut m = advanced_pool(2);
    let acquired = acquire_ammunition(&mut m).unwrap();
    assert_eq!(
        plan_dispatch(&mut m, acquired, Err(RpcError::NoEndpointsAvailable)),
        Err(RaceError::RpcSelection(RpcError::NoEndpointsAvailable))
    );
    assert_eq!(m.state(1), NonceState::InFlight);
}

#[test]
fn ranked_endpoints_lead_to_variants() {
    let mut m = advanced_pool(2);
    let acquired = acquire_ammunition(&mut m).unwrap();
    let variants = plan_dispatch(&mut m, acquired, Ok(3)).unwrap();
    assert_eq!(variants.len(), 2);
    assert_eq!(grid_size(variants.len(), 3), 6);
}

#[test]
fn concluding_returns_nonces_whatever_the_outcome() {
    for (outcome, expected) in [
        (DispatchOutcome::Confirmed, Ok(())),
        (DispatchOutcome::AllFailed, Err(RaceError::AllAttemptsFailed)),
        (DispatchOutcome::TimedOut, Err(RaceError::TimedOut)),
    ] {
        let mut m = advanced_pool(2);
        let acquired = acquire_ammunition(&mut m).unwrap();
        assert_eq!(conclude_race(&mut m, acquired, outcome), expected);
        assert_eq!(m.take_advance_queue(), vec![0, 1]);
    }
}
