//! The decisions of a race: acquiring nonce accounts, building one
//! transaction variant per account, sizing the dispatch grid, and settling
//! the outcome. Sending the variants and waiting for the first confirmation
//! is left to the caller; these functions tell it what to do at each step.

use crate::execution::durable_nonce_manager::{
    acquisition, attempts_made, marking, max_attempts, NonceManager,
};
use crate::execution::rpc_manager::RpcError;
use vstd::prelude::*;

verus! {

/// Why a race did not produce a winner.
#[derive(Debug, Clone, Copy, PartialEq, Eq)]
pub enum RaceError {
    /// No nonce account was available.
    NoNoncesAvailable,
    /// RPC endpoint selection failed.
    RpcSelection(RpcError),
    /// Endpoint selection returned no endpoint.
    NoRpcEndpoints,
    /// An acquired account (its public key) has no cached nonce hash.
    NonceNotAdvanced([u8; 32]),
    /// Every send failed.
    AllAttemptsFailed,
    /// No send was confirmed in time.
    TimedOut,
}

/// One transaction variant: the base transaction re-signed with the nonce
/// hash of one account.
#[derive(Debug, Clone, Copy, PartialEq, Eq)]
pub struct RaceVariant {
    /// The account's position in the pool.
    pub nonce_index: usize,
    /// The account's public key.
    pub nonce_pubkey: [u8; 32],
    /// The nonce hash to use as the variant's recent blockhash.
    pub blockhash: [u8; 32],
}

/// How the dispatch of the variants ended.
#[derive(Debug, Clone, Copy, PartialEq, Eq)]
pub enum DispatchOutcome {
    /// A send succeeded first.
    Confirmed,
    /// Every send failed.
    AllFailed,
    /// The deadline passed first.
    TimedOut,
}

/// The first of `accounts` without a cached nonce hash, if any.
pub open spec fn first_unadvanced(manager: NonceManager, accounts: Seq<usize>) -> Option<int>
    decreases accounts.len(),
{
    if accounts.len() == 0 {
        None
    } else {
        match first_unadvanced(manager, accounts.drop_last()) {
            Some(j) => Some(j),
            None => if manager@.slots[accounts.last() as int].cached_nonce is None {
                Some(accounts.len() - 1)
            } else {
                None
            },
        }
    }
}

/// Builds one variant per account, in the order given. Fails with the
/// public key of the first account that has no cached nonce hash.
pub fn build_transaction_variants(manager: &NonceManager, nonce_accounts: &Vec<usize>) -> (r: Result<
    Vec<RaceVariant>,
    RaceError,
>)
    requires
        manager.wf(),
        forall|j: int|
            0 <= j < nonce_accounts@.len() ==> #[trigger] nonce_accounts@[j]
                < manager@.slots.len(),
    ensures
        match first_unadvanced(*manager, nonce_accounts@) {
            Some(j) => r == Err::<Vec<RaceVariant>, RaceError>(
                RaceError::NonceNotAdvanced(manager@.slots[nonce_accounts@[j] as int].pubkey),
            ),
            None => r matches Ok(variants) && variants@.len() == nonce_accounts@.len() && forall|
                j: int,
            |
                0 <= j < variants@.len() ==> #[trigger] variants@[j] == (RaceVariant {
                    nonce_index: nonce_accounts@[j],
                    nonce_pubkey: manager@.slots[nonce_accounts@[j] as int].pubkey,
                    blockhash: manager@.slots[nonce_accounts@[j] as int].cached_nonce->0,
                }),
        },
{
    let mut variants: Vec<RaceVariant> = Vec::new();
    let mut k: usize = 0;
    while k < nonce_accounts.len()
        invariant
            manager.wf(),
            forall|j: int|
                0 <= j < nonce_accounts@.len() ==> #[trigger] nonce_accounts@[j]
                    < manager@.slots.len(),
            k <= nonce_accounts@.len(),
            first_unadvanced(*manager, nonce_accounts@.take(k as int)) is None,
            variants@.len() == k,
            forall|j: int|
                0 <= j < k ==> #[trigger] variants@[j] == (RaceVariant {
                    nonce_index: nonce_accounts@[j],
                    nonce_pubkey: manager@.slots[nonce_accounts@[j] as int].pubkey,
                    blockhash: manager@.slots[nonce_accounts@[j] as int].cached_nonce->0,
                }),
        decreases nonce_accounts@.len() - k,
    {
        let index = nonce_accounts[k];
        assert(nonce_accounts@.take(k + 1).drop_last() =~= nonce_accounts@.take(k as int));
        proof {
            lemma_first_unadvanced_prefix(*manager, nonce_accounts@, (k + 1) as nat);
        }
        match manager.cached_nonce(index) {
            Some(blockhash) => {
                variants.push(
                    RaceVariant { nonce_index: index, nonce_pubkey: manager.pubkey(index), blockhash },
                );
            },
            None => {
                return Err(RaceError::NonceNotAdvanced(manager.pubkey(index)));
            },
        }
        k = k + 1;
    }
    assert(nonce_accounts@.take(k as int) =~= nonce_accounts@);
    Ok(variants)
}

/// Once the first `n` accounts all have hashes, the first one without is
/// the first one of the whole sequence.
proof fn lemma_first_unadvanced_prefix(manager: NonceManager, accounts: Seq<usize>, n: nat)
    requires
        n <= accounts.len(),
        first_unadvanced(manager, accounts.take(n - 1)) is None || n == 0,
    ensures
        n > 0 ==> first_unadvanced(manager, accounts.take(n as int)) == (if manager@.slots[accounts[n
            - 1] as int].cached_nonce is None {
            Some(n - 1)
        } else {
            None::<int>
        }),
        first_unadvanced(manager, accounts.take(n as int)) is Some ==> first_unadvanced(
            manager,
            accounts,
        ) == first_unadvanced(manager, accounts.take(n as int)),
    decreases accounts.len() - n,
{
    if n > 0 {
        assert(accounts.take(n as int).drop_last() =~= accounts.take(n - 1));
    }
    if n < accounts.len() {
        if first_unadvanced(manager, accounts.take(n as int)) is Some {
            lemma_first_unadvanced_extends(manager, accounts, n);
        }
    } else {
        assert(accounts.take(n as int) =~= accounts);
    }
}

/// A sequence keeps the first unadvanced account of any of its prefixes.
proof fn lemma_first_unadvanced_extends(manager: NonceManager, accounts: Seq<usize>, n: nat)
    requires
        n <= accounts.len(),
        first_unadvanced(manager, accounts.take(n as int)) is Some,
    ensures
        first_unadvanced(manager, accounts) == first_unadvanced(manager, accounts.take(n as int)),
    decreases accounts.len() - n,
{
    if n < accounts.len() {
        assert(accounts.take((n + 1) as int).drop_last() =~= accounts.take(n as int));
        lemma_first_unadvanced_extends(manager, accounts, n + 1);
    } else {
        assert(accounts.take(n as int) =~= accounts);
    }
}

/// Acquires every available account of the pool for a race. Fails, with
/// no account handed out, when none is available.
pub fn acquire_ammunition(manager: &mut NonceManager) -> (r: Result<Vec<usize>, RaceError>)
    requires
        old(manager).wf(),
    ensures
        final(manager).wf(),
        ({
            let s0 = old(manager)@.states();
            let c0 = old(manager)@.cursor;
            let len = s0.len();
            let k = attempts_made(s0, c0, len, 0, max_attempts(len));
            let got = acquisition(s0, c0, len, k).1;
            &&& final(manager)@.states() == acquisition(s0, c0, len, k).0
            &&& final(manager)@.queue == old(manager)@.queue
            &&& got.len() == 0 <==> r is Err
            &&& r matches Err(e) ==> e == RaceError::NoNoncesAvailable
            &&& r matches Ok(acquired) ==> acquired@ == got
        }),
{
    let pool_size = manager.get_pool_size();
    match manager.request_available(pool_size) {
        Ok(acquired) => {
            if acquired.len() == 0 {
                Err(RaceError::NoNoncesAvailable)
            } else {
                Ok(acquired)
            }
        },
        Err(_) => Err(RaceError::NoNoncesAvailable),
    }
}

/// Decides the race once endpoints have been ranked: a failed ranking
/// ends it (the acquired accounts stay in flight until they are found
/// stuck); an empty ranking returns the accounts for advancing and ends
/// it; otherwise the variants are built, which can also end the race
/// (again leaving the accounts in flight).
pub fn plan_dispatch(
    manager: &mut NonceManager,
    acquired: Vec<usize>,
    ranked_endpoints: Result<usize, RpcError>,
) -> (r: Result<Vec<RaceVariant>, RaceError>)
    requires
        old(manager).wf(),
        forall|j: int| 0 <= j < acquired@.len() ==> #[trigger] acquired@[j] < old(manager)@.slots.len(),
    ensures
        final(manager).wf(),
        match ranked_endpoints {
            Err(e) => r == Err::<Vec<RaceVariant>, RaceError>(RaceError::RpcSelection(e))
                && final(manager)@ == old(manager)@,
            Ok(0) => r == Err::<Vec<RaceVariant>, RaceError>(RaceError::NoRpcEndpoints) && (
            final(manager)@.states(), final(manager)@.queue) == marking(
                old(manager)@.states(),
                old(manager)@.queue,
                acquired@,
            ),
            Ok(_) => final(manager)@ == old(manager)@ && match first_unadvanced(
                *old(manager),
                acquired@,
            ) {
                Some(j) => r == Err::<Vec<RaceVariant>, RaceError>(
                    RaceError::NonceNotAdvanced(old(manager)@.slots[acquired@[j] as int].pubkey),
                ),
                None => r matches Ok(variants) && variants@.len() == acquired@.len() && forall|
                    j: int,
                |
                    0 <= j < variants@.len() ==> #[trigger] variants@[j] == (RaceVariant {
                        nonce_index: acquired@[j],
                        nonce_pubkey: old(manager)@.slots[acquired@[j] as int].pubkey,
                        blockhash: old(manager)@.slots[acquired@[j] as int].cached_nonce->0,
                    }),
            },
        },
{
    match ranked_endpoints {
        Err(e) => Err(RaceError::RpcSelection(e)),
        Ok(count) => {
            if count == 0 {
                manager.mark_for_advance(acquired);
                Err(RaceError::NoRpcEndpoints)
            } else {
                build_transaction_variants(manager, &acquired)
            }
        },
    }
}

/// The number of sends in a dispatch grid: every variant through every
/// endpoint.
pub fn grid_size(variants: usize, endpoints: usize) -> (attempts: usize)
    requires
        variants * endpoints <= usize::MAX,
    ensures
        attempts == variants * endpoints,
{
    variants * endpoints
}

/// Settles a dispatched race: the acquired accounts are returned for
/// advancing, and the race is won exactly when a send was confirmed.
pub fn conclude_race(manager: &mut NonceManager, acquired: Vec<usize>, outcome: DispatchOutcome) -> (r:
    Result<(), RaceError>)
    requires
        old(manager).wf(),
        forall|j: int| 0 <= j < acquired@.len() ==> #[trigger] acquired@[j] < old(manager)@.slots.len(),
    ensures
        final(manager).wf(),
        (final(manager)@.states(), final(manager)@.queue) == marking(
            old(manager)@.states(),
            old(manager)@.queue,
            acquired@,
        ),
        r == match outcome {
            DispatchOutcome::Confirmed => Ok(()),
            DispatchOutcome::AllFailed => Err(RaceError::AllAttemptsFailed),
            DispatchOutcome::TimedOut => Err(RaceError::TimedOut),
        },
{
    manager.mark_for_advance(acquired);
    match outcome {
        DispatchOutcome::Confirmed => Ok(()),
        DispatchOutcome::AllFailed => Err(RaceError::AllAttemptsFailed),
        DispatchOutcome::TimedOut => Err(RaceError::TimedOut),
    }
}

} // verus!
