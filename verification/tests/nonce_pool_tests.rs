use bocik::execution::durable_nonce_manager::{
    nonce_hash_from_account_data, NonceError, NonceManager, NonceState, ReloadBackoff,
    INITIAL_RETRY_DELAY_MS, MAX_RETRY_DELAY_MS,
};

use solana_sdk::nonce::state::{Data, DurableNonce, State, Versions};
use solana_sdk::pubkey::Pubkey;
use solana_sdk::signer::Signer;

fn advanced_pool(n: usize) -> NonceManager {
    let mut m = NonceManager::new(n).unwrap();
    assert_eq!(m.take_advance_queue(), (0..n).collect::<Vec<usize>>());
    for i in 0..n {
        m.complete_advance(i, [i as u8; 32]);
    }
    m
}

#[test]
fn empty_pool_is_refused() {
    assert_eq!(NonceManager::new(0).err(), Some(NonceError::EmptyPool));
}

#[test]
fn new_pool_requires_advance() {
    let mut m = NonceManager::new(3).unwrap();
    assert_eq!(m.get_pool_size(), 3);
    assert_eq!(m.take_advance_queue(), vec![0, 1, 2]);
    for i in 0..3 {
        assert_eq!(m.state(i), NonceState::RequiresAdvance);
        assert_eq!(m.cached_nonce(i), None);
    }
    assert_eq!(m.request_available(3).unwrap(), Vec::<usize>::new());
}

#[test]
fn new_pool_has_distinct_keys() {
    let m = NonceManager::new(2).unwrap();
    assert_ne!(m.pubkey(0), m.pubkey(1));
}

#[test]
fn requests_go_round_robin() {
    let mut m = advanced_pool(4);
    assert_eq!(m.request_available(2).unwrap(), vec![0, 1]);
    assert_eq!(m.state(0), NonceState::InFlight);
    assert_eq!(m.state(2), NonceState::Available);
    assert_eq!(m.request_available(4).unwrap(), vec![2, 3]);
    assert_eq!(m.request_available(1).unwrap(), Vec::<usize>::new());
}

#[test]
fn returned_accounts_are_queued_and_advanced_again() {
    let mut m = advanced_pool(3);
    let acquired = m.request_available(3).unwrap();
    assert_eq!(acquired, vec![0, 1, 2]);
    m.mark_for_advance(acquired.clone());
    for i in 0..3 {
        assert_eq!(m.state(i), NonceState::RequiresAdvance);
    }
    let queued = m.take_advance_queue();
    assert_eq!(queued, vec![0, 1, 2]);
    assert_eq!(m.take_advance_queue(), Vec::<usize>::new());
    m.complete_advance(1, [9; 32]);
    assert_eq!(m.state(1), NonceState::Available);
    assert_eq!(m.cached_nonce(1), Some([9; 32]));
    m.requeue(vec![0, 2]);
    assert_eq!(m.take_advance_queue(), vec![0, 2]);
}

#[test]
fn marking_skips_accounts_not_in_flight() {
    let mut m = advanced_pool(2);
    m.mark_for_advance(vec![0, 1]);
    assert_eq!(m.state(0), NonceState::Available);
    assert_eq!(m.take_advance_queue(), Vec::<usize>::new());
}

#[test]
fn fresh_in_flight_accounts_are_not_stuck() {
    let mut m = advanced_pool(2);
    m.request_available(1).unwrap();
    m.collect_stuck();
    assert_eq!(m.take_advance_queue(), Vec::<usize>::new());
    assert!(!m.stuck_after(0, 30_000));
    assert!(m.stuck_after(0, 30_001));
    assert!(!m.stuck_after(1, 30_001));
}

#[allow(deprecated)]
fn nonce_account(state: State) -> Vec<u8> {
    bincode::serialize(&Versions::new(state)).unwrap()
}

#[test]
#[allow(deprecated)]
fn nonce_hash_is_read_from_initialized_account() {
    let data = Data::new(
        Pubkey::new_unique(),
        DurableNonce::from_blockhash(&solana_sdk::hash::Hash::new_unique()),
        5000,
    );
    let expected = data.blockhash().to_bytes();
    let bytes = nonce_account(State::Initialized(data));
    assert_eq!(nonce_hash_from_account_data(&bytes), Ok(expected));
}

#[test]
#[allow(deprecated)]
fn uninitialized_account_is_reported() {
    let bytes = nonce_account(State::Uninitialized);
    assert_eq!(nonce_hash_from_account_data(&bytes), Err(NonceError::NotInitialized));
}

#[test]
#[allow(deprecated)]
fn legacy_or_garbage_account_is_unparseable() {
    let legacy = bincode::serialize(&Versions::Legacy(Box::new(State::Uninitialized))).unwrap();
    assert_eq!(nonce_hash_from_account_data(&legacy), Err(NonceError::Unparseable));
    assert_eq!(nonce_hash_from_account_data(&[7u8, 7]), Err(NonceError::Unparseable));
}

#[test]
fn backoff_doubles_up_to_the_cap_and_resets() {
    let mut b = ReloadBackoff::new();
    assert_eq!(b.retry_delay_ms(), INITIAL_RETRY_DELAY_MS);
    assert_eq!(b.after_round(true, 7), 107);
    assert_eq!(b.retry_delay_ms(), 200);
    assert_eq!(b.after_round(false, 0), 100);
    assert_eq!(b.retry_delay_ms(), 200);
    for _ in 0..10 {
        b.after_round(true, 0);
    }
    assert_eq!(b.retry_delay_ms(), MAX_RETRY_DELAY_MS);
    b.on_advanced();
    assert_eq!(b.retry_delay_ms(), INITIAL_RETRY_DELAY_MS);
}

#[test]
fn jittered_backoff_stays_in_range() {
    let mut b = ReloadBackoff::new();
    let sleep = b.after_round_jittered(true);
    assert!((100..150).contains(&sleep));
    assert_eq!(b.retry_delay_ms(), 200);
}

#[test]
fn stuck_accounts_are_queued_by_their_readings() {
    let mut m = advanced_pool(4);
    assert_eq!(m.request_available(3).unwrap(), vec![0, 1, 2]);
    m.queue_stuck(&vec![30_001, 30_000, 99_000, 99_000]);
    // Account 1 is exactly at the limit, account 3 is not in flight.
    assert_eq!(m.take_advance_queue(), vec![0, 2]);
    assert_eq!(m.state(0), NonceState::RequiresAdvance);
    assert_eq!(m.state(1), NonceState::InFlight);
    assert_eq!(m.state(2), NonceState::RequiresAdvance);
    assert_eq!(m.state(3), NonceState::Available);
    // A stuck account that is later returned is not queued twice.
    m.mark_for_advance(vec![0, 1]);
    assert_eq!(m.take_advance_queue(), vec![1]);
    m.queue_stuck(&vec![0, 0, 0, 0]);
    assert_eq!(m.take_advance_queue(), Vec::<usize>::new());
}

#[test]
fn authorities_stay_with_their_accounts() {
    let mut m = advanced_pool(2);
    let before: Vec<Pubkey> = (0..2).map(|i| m.authority(i).pubkey()).collect();
    assert_ne!(before[0], before[1]);
    assert_ne!(before[0].to_bytes(), m.pubkey(0));
    let acquired = m.request_available(2).unwrap();
    m.mark_for_advance(acquired);
    m.complete_advance(0, [7; 32]);
    let after: Vec<Pubkey> = (0..2).map(|i| m.authority(i).pubkey()).collect();
    assert_eq!(before, after);
}

#[test]
fn nonce_account_layout_is_read_byte_by_byte() {
    let mut data = vec![1, 0, 0, 0, 1, 0, 0, 0];
    data.extend_from_slice(&[3; 32]);
    data.extend_from_slice(&[7; 32]);
    data.extend_from_slice(&5000u64.to_le_bytes());
    assert_eq!(nonce_hash_from_account_data(&data), Ok([7; 32]));
    // Trailing bytes are allowed.
    let mut longer = data.clone();
    longer.extend_from_slice(&[9; 16]);
    assert_eq!(nonce_hash_from_account_data(&longer), Ok([7; 32]));
    // Too short for an initialized nonce.
    assert_eq!(nonce_hash_from_account_data(&data[..79]), Err(NonceError::Unparseable));
    // A legacy account.
    let mut legacy = data.clone();
    legacy[0] = 0;
    assert_eq!(nonce_hash_from_account_data(&legacy), Err(NonceError::Unparseable));
    // An unknown version or state tag.
    let mut unknown = data.clone();
    unknown[0] = 2;
    assert_eq!(nonce_hash_from_account_data(&unknown), Err(NonceError::Unparseable));
    let mut unknown_state = data.clone();
    unknown_state[5] = 1;
    assert_eq!(nonce_hash_from_account_data(&unknown_state), Err(NonceError::Unparseable));
    // A current account with no nonce yet.
    assert_eq!(nonce_hash_from_account_data(&[1, 0, 0, 0, 0, 0, 0, 0]), Err(NonceError::NotInitialized));
    assert_eq!(nonce_hash_from_account_data(&[1, 0, 0, 0]), Err(NonceError::Unparseable));
}

#[test]
fn request_gets_min_of_count_and_available() {
    let mut m = advanced_pool(5);
    assert_eq!(m.request_available(2).unwrap().len(), 2);
    // Three are left; asking for more gets those three.
    assert_eq!(m.request_available(10).unwrap(), vec![2, 3, 4]);
    assert_eq!(m.request_available(1).unwrap().len(), 0);
}

#[test]
fn returning_twice_is_returning_once() {
    let mut m = advanced_pool(3);
    let acquired = m.request_available(2).unwrap();
    m.mark_for_advance(acquired.clone());
    let states: Vec<NonceState> = (0..3).map(|i| m.state(i)).collect();
    m.mark_for_advance(acquired);
    assert_eq!((0..3).map(|i| m.state(i)).collect::<Vec<_>>(), states);
    assert_eq!(m.take_advance_queue(), vec![0, 1]);
    assert_eq!(m.get_pool_size(), 3);
}

#[test]
fn a_run_of_operations_keeps_the_pool() {
    let mut m = NonceManager::new(4).unwrap();
    let keys: Vec<[u8; 32]> = (0..4).map(|i| m.pubkey(i)).collect();
    let queued = m.take_advance_queue();
    for &i in &queued {
        assert_eq!(m.state(i), NonceState::RequiresAdvance);
        m.complete_advance(i, [i as u8; 32]);
        assert_eq!(m.state(i), NonceState::Available);
    }
    for _ in 0..3 {
        let got = m.request_available(3).unwrap();
        for &i in &got {
            assert_eq!(m.state(i), NonceState::InFlight);
        }
        m.mark_for_advance(got);
        m.queue_stuck(&vec![40_000; 4]);
        for i in m.take_advance_queue() {
            assert_eq!(m.state(i), NonceState::RequiresAdvance);
            m.complete_advance(i, [7; 32]);
        }
        assert_eq!(m.get_pool_size(), 4);
        assert_eq!((0..4).map(|i| m.pubkey(i)).collect::<Vec<_>>(), keys);
    }
}
