//! The pool of durable nonce accounts: independent, ready-to-use transaction
//! streams for the race engine.
//!
//! Each account moves through a strict state machine,
//! `Available -> InFlight -> RequiresAdvance -> Available`: it is handed out
//! only while `Available`, returned for advancing after use, and becomes
//! `Available` again only once a fresh nonce hash has been read back from
//! the chain. A background task (outside this library) drains the advance
//! queue and reports each result back through [`NonceManager::complete_advance`].

use crate::clock::{elapsed_millis, instant_now};
use crate::keys::{keypair_pubkey, new_keypair};
use solana_sdk::signature::Keypair;
use std::time::Instant;
use vstd::prelude::*;

verus! {

/// How long an account may stay in flight before it is forced back into
/// the advance queue.
pub const STUCK_IN_FLIGHT_MS: u64 = 30_000;

/// State of a nonce account in the pool.
#[derive(Debug, Clone, Copy, PartialEq, Eq, Hash, Structural)]
pub enum NonceState {
    /// Ready for immediate use with a fresh nonce hash.
    Available,
    /// Used in a transaction batch, locked until confirmation or forced advance.
    InFlight,
    /// Transaction confirmed, queued for `advance_nonce` to become `Available` again.
    RequiresAdvance,
}

/// Why the pool could not be built or a nonce account could not be read.
#[derive(Debug, Clone, Copy, PartialEq, Eq, Structural)]
pub enum NonceError {
    /// A pool of zero accounts was requested.
    EmptyPool,
    /// The account decoded, but holds no initialized nonce.
    NotInitialized,
    /// The account data is not a current-version nonce account.
    Unparseable,
}

/// One account of the pool as the contracts see it.
pub struct NonceSlotView {
    pub pubkey: [u8; 32],
    /// The keypair that has authority over the account.
    pub authority: Keypair,
    pub cached_nonce: Option<[u8; 32]>,
    pub state: NonceState,
    /// Whether a last-use time is recorded.
    pub used: bool,
}

/// The pool as the contracts see it: its accounts, the round-robin cursor,
/// and the accounts queued for advancing, in queue order.
pub struct NoncePoolView {
    pub slots: Seq<NonceSlotView>,
    pub cursor: usize,
    pub queue: Seq<usize>,
}

/// The states of all accounts of a pool.
pub open spec fn states_of(slots: Seq<NonceSlotView>) -> Seq<NonceState> {
    Seq::new(slots.len(), |i: int| slots[i].state)
}

/// The pool position probed by the `k`-th attempt of a request that starts
/// at `cursor`: the cursor counts up with wrap-around and is taken modulo
/// the pool size.
pub open spec fn probe_index(cursor: usize, k: nat, len: nat) -> int {
    ((cursor + k) % (usize::MAX + 1)) % (len as int)
}

/// The states and the handed-out accounts after the first `k` attempts of a
/// request for `count` accounts starting at `cursor`. An attempt that finds
/// its account `Available` hands it out and marks it `InFlight`; once
/// `count` accounts are handed out, further attempts change nothing.
pub open spec fn acquisition(states: Seq<NonceState>, cursor: usize, count: nat, k: nat) -> (
    Seq<NonceState>,
    Seq<usize>,
)
    decreases k,
{
    if k == 0 {
        (states, Seq::empty())
    } else {
        let prev = acquisition(states, cursor, count, (k - 1) as nat);
        if prev.1.len() >= count {
            prev
        } else {
            let i = probe_index(cursor, (k - 1) as nat, states.len());
            if prev.0[i] == NonceState::Available {
                (prev.0.update(i, NonceState::InFlight), prev.1.push(i as usize))
            } else {
                prev
            }
        }
    }
}

/// The number of attempts a request makes when it may make at most `max`:
/// it stops at the first point where `count` accounts are handed out.
pub open spec fn attempts_made(states: Seq<NonceState>, cursor: usize, count: nat, k: nat, max: nat) -> nat
    decreases max - k,
{
    if k >= max || acquisition(states, cursor, count, k).1.len() >= count {
        k
    } else {
        attempts_made(states, cursor, count, k + 1, max)
    }
}

/// The attempt budget of a request: twice the pool size.
pub open spec fn max_attempts(len: nat) -> nat {
    2 * len
}

/// The states and the advance queue after `accounts` are returned in that
/// order: each account still `InFlight` becomes `RequiresAdvance` and joins
/// the queue; any other is left as it is.
pub open spec fn marking(states: Seq<NonceState>, queue: Seq<usize>, accounts: Seq<usize>) -> (
    Seq<NonceState>,
    Seq<usize>,
)
    decreases accounts.len(),
{
    if accounts.len() == 0 {
        (states, queue)
    } else {
        let prev = marking(states, queue, accounts.drop_last());
        let i = accounts.last();
        if prev.0[i as int] == NonceState::InFlight {
            (prev.0.update(i as int, NonceState::RequiresAdvance), prev.1.push(i))
        } else {
            prev
        }
    }
}

/// Returning accounts keeps the pool's size, changes only the states of
/// the accounts returned, and leaves none of them `InFlight`.
proof fn lemma_marking_settles(states: Seq<NonceState>, queue: Seq<usize>, accounts: Seq<usize>)
    requires
        forall|j: int| 0 <= j < accounts.len() ==> #[trigger] accounts[j] < states.len(),
    ensures
        marking(states, queue, accounts).0.len() == states.len(),
        forall|j: int|
            0 <= j < accounts.len() ==> marking(states, queue, accounts).0[#[trigger] accounts[j] as int]
                != NonceState::InFlight,
    decreases accounts.len(),
{
    if accounts.len() > 0 {
        let rest = accounts.drop_last();
        lemma_marking_settles(states, queue, rest);
        let prev = marking(states, queue, rest);
        let i = accounts.last();
        let after = marking(states, queue, accounts).0;
        assert forall|j: int| 0 <= j < accounts.len() implies after[#[trigger] accounts[j] as int]
            != NonceState::InFlight by {
            if j < accounts.len() - 1 {
                assert(accounts[j] == rest[j]);
            }
        }
    }
}

/// Returning accounts none of which is `InFlight` changes nothing.
proof fn lemma_marking_noop(states: Seq<NonceState>, queue: Seq<usize>, accounts: Seq<usize>)
    requires
        forall|j: int|
            0 <= j < accounts.len() ==> states[#[trigger] accounts[j] as int] != NonceState::InFlight,
    ensures
        marking(states, queue, accounts) == (states, queue),
    decreases accounts.len(),
{
    if accounts.len() > 0 {
        let rest = accounts.drop_last();
        assert forall|j: int| 0 <= j < rest.len() implies states[#[trigger] rest[j] as int]
            != NonceState::InFlight by {
            assert(rest[j] == accounts[j]);
        }
        lemma_marking_noop(states, queue, rest);
        assert(states[accounts[accounts.len() - 1] as int] != NonceState::InFlight);
    }
}

/// Returning the same accounts twice does nothing more than returning them
/// once: the second time, none of them is in flight any more.
pub proof fn law_returning_twice_is_returning_once(
    states: Seq<NonceState>,
    queue: Seq<usize>,
    accounts: Seq<usize>,
)
    requires
        forall|j: int| 0 <= j < accounts.len() ==> #[trigger] accounts[j] < states.len(),
    ensures
        ({
            let once = marking(states, queue, accounts);
            marking(once.0, once.1, accounts) == once
        }),
{
    lemma_marking_settles(states, queue, accounts);
    let once = marking(states, queue, accounts);
    lemma_marking_noop(once.0, once.1, accounts);
}

/// No pool operation changes the number of accounts: a request, returning
/// accounts, a stuck check and completing an advance each keep it.
pub proof fn law_pool_size_is_fixed(
    slots: Seq<NonceSlotView>,
    cursor: usize,
    count: nat,
    attempts: nat,
    queue: Seq<usize>,
    accounts: Seq<usize>,
    elapsed_ms: Seq<u128>,
    index: int,
    advanced: NonceSlotView,
)
    requires
        0 < slots.len() <= usize::MAX,
        forall|j: int| 0 <= j < accounts.len() ==> #[trigger] accounts[j] < slots.len(),
        0 <= index < slots.len(),
    ensures
        acquisition(states_of(slots), cursor, count, attempts).0.len() == slots.len(),
        marking(states_of(slots), queue, accounts).0.len() == slots.len(),
        after_stuck_check(slots, elapsed_ms).len() == slots.len(),
        slots.update(index, advanced).len() == slots.len(),
{
    law_acquisition_hands_out_available_accounts(states_of(slots), cursor, count, attempts);
    lemma_marking_settles(states_of(slots), queue, accounts);
}

/// Whether an account may move from `before` to `after` in one step of the
/// state machine `Available -> InFlight -> RequiresAdvance -> Available`
/// (or stay where it is).
pub open spec fn allowed_step(before: NonceState, after: NonceState) -> bool {
    ||| before == after
    ||| before == NonceState::Available && after == NonceState::InFlight
    ||| before == NonceState::InFlight && after == NonceState::RequiresAdvance
    ||| before == NonceState::RequiresAdvance && after == NonceState::Available
}

/// Returning accounts only moves accounts from `InFlight` to
/// `RequiresAdvance`.
proof fn lemma_marking_steps(states: Seq<NonceState>, queue: Seq<usize>, accounts: Seq<usize>)
    requires
        forall|j: int| 0 <= j < accounts.len() ==> #[trigger] accounts[j] < states.len(),
    ensures
        marking(states, queue, accounts).0.len() == states.len(),
        forall|i: int|
            0 <= i < states.len() ==> {
                ||| #[trigger] marking(states, queue, accounts).0[i] == states[i]
                ||| states[i] == NonceState::InFlight && marking(states, queue, accounts).0[i]
                    == NonceState::RequiresAdvance
            },
    decreases accounts.len(),
{
    if accounts.len() > 0 {
        let rest = accounts.drop_last();
        assert forall|j: int| 0 <= j < rest.len() implies #[trigger] rest[j] < states.len() by {
            assert(rest[j] == accounts[j]);
        }
        lemma_marking_steps(states, queue, rest);
    }
}

/// The strict state machine: a request, returning accounts and a stuck
/// check move each account by at most one allowed step, and completing an
/// advance, which only an account awaiting it accepts, makes it
/// `Available` again.
pub proof fn law_strict_state_machine(
    slots: Seq<NonceSlotView>,
    cursor: usize,
    count: nat,
    attempts: nat,
    queue: Seq<usize>,
    accounts: Seq<usize>,
    elapsed_ms: Seq<u128>,
)
    requires
        0 < slots.len() <= usize::MAX,
        forall|j: int| 0 <= j < accounts.len() ==> #[trigger] accounts[j] < slots.len(),
        elapsed_ms.len() == slots.len(),
    ensures
        forall|i: int|
            0 <= i < slots.len() ==> allowed_step(
                slots[i].state,
                #[trigger] acquisition(states_of(slots), cursor, count, attempts).0[i],
            ),
        forall|i: int|
            0 <= i < slots.len() ==> allowed_step(
                slots[i].state,
                #[trigger] marking(states_of(slots), queue, accounts).0[i],
            ),
        forall|i: int|
            0 <= i < slots.len() ==> allowed_step(
                slots[i].state,
                (#[trigger] after_stuck_check(slots, elapsed_ms)[i]).state,
            ),
        allowed_step(NonceState::RequiresAdvance, NonceState::Available),
{
    let states = states_of(slots);
    law_acquisition_hands_out_available_accounts(states, cursor, count, attempts);
    let (after, got) = acquisition(states, cursor, count, attempts);
    assert forall|i: int| 0 <= i < slots.len() implies allowed_step(
        slots[i].state,
        #[trigger] acquisition(states_of(slots), cursor, count, attempts).0[i],
    ) by {
        if got.contains(i as usize) {
            let w = choose|w: int| 0 <= w < got.len() && got[w] == i as usize;
            assert(states[got[w] as int] == NonceState::Available);
        }
    }
    lemma_marking_steps(states, queue, accounts);
}

/// The number of `Available` accounts among `states`.
pub open spec fn count_available(states: Seq<NonceState>) -> nat
    decreases states.len(),
{
    if states.len() == 0 {
        0
    } else {
        count_available(states.drop_last()) + if states.last() == NonceState::Available {
            1nat
        } else {
            0nat
        }
    }
}

/// Taking one `Available` account out of use lowers the count by one.
proof fn lemma_count_available_update(s: Seq<NonceState>, i: int, x: NonceState)
    requires
        0 <= i < s.len(),
        s[i] == NonceState::Available,
        x != NonceState::Available,
    ensures
        count_available(s.update(i, x)) + 1 == count_available(s),
    decreases s.len(),
{
    let u = s.update(i, x);
    if i == s.len() - 1 {
        assert(u.drop_last() =~= s.drop_last());
    } else {
        assert(u.drop_last() =~= s.drop_last().update(i, x));
        lemma_count_available_update(s.drop_last(), i, x);
    }
}

/// A pool with no `Available` account counts none.
proof fn lemma_count_available_none(s: Seq<NonceState>)
    requires
        forall|i: int| 0 <= i < s.len() ==> #[trigger] s[i] != NonceState::Available,
    ensures
        count_available(s) == 0,
    decreases s.len(),
{
    if s.len() > 0 {
        assert(s.last() == s[s.len() - 1]);
        lemma_count_available_none(s.drop_last());
    }
}

/// Every account a request hands out was available and no longer is: the
/// accounts handed out and those still available add up to those available
/// at the start.
proof fn lemma_acquisition_accounts(states: Seq<NonceState>, cursor: usize, count: nat, k: nat)
    requires
        0 < states.len() <= usize::MAX,
    ensures
        acquisition(states, cursor, count, k).1.len() + count_available(
            acquisition(states, cursor, count, k).0,
        ) == count_available(states),
    decreases k,
{
    if k > 0 {
        let m = (k - 1) as nat;
        lemma_acquisition_accounts(states, cursor, count, m);
        law_acquisition_hands_out_available_accounts(states, cursor, count, m);
        let prev = acquisition(states, cursor, count, m);
        if prev.1.len() < count {
            let i = probe_index(cursor, m, states.len());
            vstd::arithmetic::div_mod::lemma_mod_bound(
                (cursor + m) % (usize::MAX + 1),
                states.len() as int,
            );
            if prev.0[i] == NonceState::Available {
                lemma_count_available_update(prev.0, i, NonceState::InFlight);
            }
        }
    }
}

/// While a request has not reached `count`, no slot it has probed is left
/// `Available`.
proof fn lemma_probed_not_available(states: Seq<NonceState>, cursor: usize, count: nat, k: nat)
    requires
        0 < states.len() <= usize::MAX,
    ensures
        acquisition(states, cursor, count, k).1.len() < count ==> forall|j: nat|
            j < k ==> acquisition(states, cursor, count, k).0[#[trigger] probe_index(
                cursor,
                j,
                states.len(),
            )] != NonceState::Available,
    decreases k,
{
    if k > 0 {
        let m = (k - 1) as nat;
        lemma_probed_not_available(states, cursor, count, m);
        law_acquisition_hands_out_available_accounts(states, cursor, count, m);
        let prev = acquisition(states, cursor, count, m);
        let cur = acquisition(states, cursor, count, k);
        if cur.1.len() < count {
            assert(prev.1.len() < count);
            let i = probe_index(cursor, m, states.len());
            vstd::arithmetic::div_mod::lemma_mod_bound(
                (cursor + m) % (usize::MAX + 1),
                states.len() as int,
            );
            assert forall|j: nat| j < k implies cur.0[#[trigger] probe_index(
                cursor,
                j,
                states.len(),
            )] != NonceState::Available by {
                if j < m {
                    assert(prev.0[probe_index(cursor, j, states.len())] != NonceState::Available);
                }
            }
        }
    }
}

/// The slot that the `j`-th probe from `cursor` reaches, when `j` is below
/// the pool size: `(cursor as int) % len + j`, wrapped once around the pool.
proof fn lemma_probe_slot(cursor: usize, j: int, len: int)
    requires
        0 < len,
        0 <= j < len,
    ensures
        (cursor + j) % len == if (cursor as int) % len + j < len {
            (cursor as int) % len + j
        } else {
            (cursor as int) % len + j - len
        },
{
    vstd::arithmetic::div_mod::lemma_add_mod_noop(cursor as int, j, len);
    vstd::arithmetic::div_mod::lemma_small_mod(j as nat, len as nat);
    let c = (cursor as int) % len;
    if c + j < len {
        vstd::arithmetic::div_mod::lemma_small_mod((c + j) as nat, len as nat);
    } else {
        vstd::arithmetic::div_mod::lemma_mod_add_multiples_vanish(c + j - len, len);
        vstd::arithmetic::div_mod::lemma_small_mod((c + j - len) as nat, len as nat);
    }
}

/// Every slot is reached by one of the first `len` probes.
proof fn lemma_probe_reaches(cursor: usize, i: int, len: int) -> (j: int)
    requires
        0 < len,
        0 <= i < len,
    ensures
        0 <= j < len,
        (cursor + j) % len == i,
{
    let c = (cursor as int) % len;
    let j = if i >= c {
        i - c
    } else {
        i + len - c
    };
    lemma_probe_slot(cursor, j, len);
    j
}

/// A request stops within its budget, and before the budget only once
/// `count` accounts are handed out.
proof fn lemma_attempts_stop(states: Seq<NonceState>, cursor: usize, count: nat, k: nat, max: nat)
    requires
        k <= max,
    ensures
        k <= attempts_made(states, cursor, count, k, max) <= max,
        attempts_made(states, cursor, count, k, max) < max ==> acquisition(
            states,
            cursor,
            count,
            attempts_made(states, cursor, count, k, max),
        ).1.len() >= count,
    decreases max - k,
{
    if k < max && acquisition(states, cursor, count, k).1.len() < count {
        lemma_attempts_stop(states, cursor, count, k + 1, max);
    }
}

/// Within twice the pool size, a request probes every slot, whatever its
/// cursor: of the attempts before and after the cursor wraps around the
/// machine word, one side holds a whole round of the pool.
proof fn lemma_probes_cover(cursor: usize, i: int, len: int) -> (k: nat)
    requires
        0 < len,
        2 * len <= usize::MAX + 1,
        0 <= i < len,
    ensures
        k < 2 * len,
        probe_index(cursor, k, len as nat) == i,
{
    let m = usize::MAX + 1;
    let before_wrap = m - cursor;
    if before_wrap >= len {
        let j = lemma_probe_reaches(cursor, i, len);
        vstd::arithmetic::div_mod::lemma_small_mod((cursor + j) as nat, m as nat);
        j as nat
    } else {
        let k = before_wrap + i;
        vstd::arithmetic::div_mod::lemma_mod_add_multiples_vanish(i, m);
        vstd::arithmetic::div_mod::lemma_small_mod(i as nat, m as nat);
        vstd::arithmetic::div_mod::lemma_small_mod(i as nat, len as nat);
        assert(cursor + k == m + i);
        k as nat
    }
}

/// A request gets as many accounts as it asks for, or every available
/// account if there are fewer: `min(count, available)`, from any cursor.
pub proof fn law_request_gets_min_of_count_and_available(
    states: Seq<NonceState>,
    cursor: usize,
    count: nat,
)
    requires
        0 < states.len() <= usize::MAX / 2,
    ensures
        acquisition(
            states,
            cursor,
            count,
            attempts_made(states, cursor, count, 0, max_attempts(states.len())),
        ).1.len() == if count_available(states) < count {
            count_available(states)
        } else {
            count
        },
{
    let len = states.len();
    let max = max_attempts(len);
    let r = attempts_made(states, cursor, count, 0, max);
    lemma_attempts_stop(states, cursor, count, 0, max);
    law_acquisition_hands_out_available_accounts(states, cursor, count, r);
    lemma_acquisition_accounts(states, cursor, count, r);
    let (after, got) = acquisition(states, cursor, count, r);
    if got.len() < count {
        assert(r == max);
        lemma_probed_not_available(states, cursor, count, r);
        assert forall|i: int| 0 <= i < after.len() implies #[trigger] after[i]
            != NonceState::Available by {
            let k = lemma_probes_cover(cursor, i, len as int);
            assert(after[probe_index(cursor, k, len)] != NonceState::Available);
        }
        lemma_count_available_none(after);
    }
}

/// A pool whose accounts stay the same, and whose states each keep or take
/// one step of the state machine, follows by one operation.
proof fn lemma_steps_by_states(before: NoncePoolView, after: NoncePoolView)
    requires
        before.same_accounts(after),
        forall|i: int|
            0 <= i < before.slots.len() ==> allowed_step(
                before.slots[i].state,
                #[trigger] after.states()[i],
            ),
    ensures
        before.steps_to(after),
{
    assert forall|i: int| 0 <= i < before.slots.len() implies allowed_step(
        before.slots[i].state,
        (#[trigger] after.slots[i]).state,
    ) by {
        assert(after.states()[i] == after.slots[i].state);
    }
}

/// Over any run of pool operations, one after another (each of which
/// ensures `steps_to`), the pool keeps its size and its accounts with their
/// keys and authorities, and every change of an account's state is one
/// step of the state machine `Available -> InFlight -> RequiresAdvance ->
/// Available`.
pub proof fn law_runs_keep_the_pool(runs: Seq<NoncePoolView>, n: int)
    requires
        0 <= n < runs.len(),
        forall|j: int| 0 <= j && j + 1 < runs.len() ==> #[trigger] runs[j].steps_to(runs[j + 1]),
    ensures
        runs[n].slots.len() == runs[0].slots.len(),
        forall|i: int|
            0 <= i < runs[0].slots.len() ==> {
                &&& (#[trigger] runs[n].slots[i]).pubkey == runs[0].slots[i].pubkey
                &&& runs[n].slots[i].authority == runs[0].slots[i].authority
            },
        n + 1 < runs.len() ==> forall|i: int|
            0 <= i < runs[n].slots.len() ==> allowed_step(
                (#[trigger] runs[n].slots[i]).state,
                runs[n + 1].slots[i].state,
            ),
    decreases n,
{
    if n + 1 < runs.len() {
        assert(runs[n].steps_to(runs[n + 1]));
    }
    if n > 0 {
        law_runs_keep_the_pool(runs, n - 1);
        assert(runs[n - 1].steps_to(runs[n]));
    }
}

/// Whether an account whose last use was `elapsed_ms` ago counts as stuck:
/// in flight, with a recorded use, for longer than the limit.
pub open spec fn is_stuck(slot: NonceSlotView, elapsed_ms: int) -> bool {
    slot.state == NonceState::InFlight && slot.used && elapsed_ms > STUCK_IN_FLIGHT_MS
}

/// The accounts among the first `n` of `slots` that are stuck, given for
/// each account the milliseconds since its last use, in pool order.
pub open spec fn stuck_accounts(slots: Seq<NonceSlotView>, elapsed_ms: Seq<u128>, n: nat) -> Seq<
    usize,
>
    decreases n,
{
    if n == 0 {
        Seq::empty()
    } else {
        let rest = stuck_accounts(slots, elapsed_ms, (n - 1) as nat);
        if is_stuck(slots[n - 1], elapsed_ms[n - 1] as int) {
            rest.push((n - 1) as usize)
        } else {
            rest
        }
    }
}

/// The accounts after a stuck check with the given readings: each stuck
/// account now awaits advancing; the others are unchanged.
pub open spec fn after_stuck_check(slots: Seq<NonceSlotView>, elapsed_ms: Seq<u128>) -> Seq<
    NonceSlotView,
> {
    Seq::new(
        slots.len(),
        |i: int|
            if is_stuck(slots[i], elapsed_ms[i] as int) {
                NonceSlotView { state: NonceState::RequiresAdvance, ..slots[i] }
            } else {
                slots[i]
            },
    )
}

/// The stuck check forces the advance of exactly the in-flight, used
/// accounts whose last use lies more than `STUCK_IN_FLIGHT_MS` in the past:
/// such an account is queued and awaits advancing, any other keeps its
/// state and is not queued. A longer wait never makes an account less stuck.
pub proof fn law_stuck_after_the_limit(
    slots: Seq<NonceSlotView>,
    elapsed_ms: Seq<u128>,
    longer_ms: Seq<u128>,
    i: int,
)
    requires
        slots.len() <= usize::MAX + 1,
        elapsed_ms.len() == slots.len(),
        longer_ms.len() == slots.len(),
        forall|j: int| 0 <= j < slots.len() ==> elapsed_ms[j] <= #[trigger] longer_ms[j],
        0 <= i < slots.len(),
    ensures
        ({
            let over = slots[i].state == NonceState::InFlight && slots[i].used && elapsed_ms[i]
                > STUCK_IN_FLIGHT_MS;
            &&& stuck_accounts(slots, elapsed_ms, slots.len()).contains(i as usize) <==> over
            &&& over ==> after_stuck_check(slots, elapsed_ms)[i].state
                == NonceState::RequiresAdvance
            &&& !over ==> after_stuck_check(slots, elapsed_ms)[i] == slots[i]
            &&& over ==> stuck_accounts(slots, longer_ms, slots.len()).contains(i as usize)
        }),
{
    lemma_stuck_contains(slots, elapsed_ms, slots.len(), i);
    lemma_stuck_contains(slots, longer_ms, slots.len(), i);
}

/// An account is among the stuck accounts of the first `n` exactly when it
/// is one of them and stuck.
proof fn lemma_stuck_contains(slots: Seq<NonceSlotView>, elapsed_ms: Seq<u128>, n: nat, i: int)
    requires
        n <= usize::MAX + 1,
        0 <= i <= usize::MAX,
    ensures
        stuck_accounts(slots, elapsed_ms, n).contains(i as usize) <==> (i < n && is_stuck(
            slots[i],
            elapsed_ms[i] as int,
        )),
    decreases n,
{
    if n > 0 {
        let m = (n - 1) as nat;
        lemma_stuck_contains(slots, elapsed_ms, m, i);
        lemma_stuck_accounts(slots, elapsed_ms, m);
        let rest = stuck_accounts(slots, elapsed_ms, m);
        let all = stuck_accounts(slots, elapsed_ms, n);
        if is_stuck(slots[m as int], elapsed_ms[m as int] as int) {
            assert(all == rest.push(m as usize));
            if rest.contains(i as usize) {
                let w = choose|w: int| 0 <= w < rest.len() && rest[w] == i as usize;
                assert(all[w] == i as usize);
            }
            if all.contains(i as usize) {
                let w = choose|w: int| 0 <= w < all.len() && all[w] == i as usize;
                if w < rest.len() {
                    assert(rest[w] == i as usize);
                } else {
                    assert(i == m);
                }
            }
            if i == m {
                assert(all[rest.len() as int] == m as usize);
            }
        } else {
            assert(all == rest);
            if i == m && rest.contains(i as usize) {
                let w = choose|w: int| 0 <= w < rest.len() && rest[w] == i as usize;
                assert(rest[w] < m);
            }
        }
    }
}

/// The stuck accounts are stuck, lie among the first `n`, and come in
/// increasing pool order.
proof fn lemma_stuck_accounts(slots: Seq<NonceSlotView>, elapsed_ms: Seq<u128>, n: nat)
    requires
        n <= usize::MAX + 1,
    ensures
        forall|j: int|
            0 <= j < stuck_accounts(slots, elapsed_ms, n).len() ==> {
                &&& (#[trigger] stuck_accounts(slots, elapsed_ms, n)[j]) < n
                &&& is_stuck(
                    slots[stuck_accounts(slots, elapsed_ms, n)[j] as int],
                    elapsed_ms[stuck_accounts(slots, elapsed_ms, n)[j] as int] as int,
                )
            },
        forall|j: int, l: int|
            0 <= j < l < stuck_accounts(slots, elapsed_ms, n).len() ==> #[trigger] stuck_accounts(
                slots,
                elapsed_ms,
                n,
            )[j] < #[trigger] stuck_accounts(slots, elapsed_ms, n)[l],
    decreases n,
{
    if n > 0 {
        let m = (n - 1) as nat;
        lemma_stuck_accounts(slots, elapsed_ms, m);
        let rest = stuck_accounts(slots, elapsed_ms, m);
        let all = stuck_accounts(slots, elapsed_ms, n);
        if is_stuck(slots[m as int], elapsed_ms[m as int] as int) {
            assert(all == rest.push(m as usize));
            assert forall|j: int| 0 <= j < all.len() implies {
                &&& (#[trigger] all[j]) < n
                &&& is_stuck(slots[all[j] as int], elapsed_ms[all[j] as int] as int)
            } by {
                if j < rest.len() {
                    assert(all[j] == rest[j]);
                }
            }
            assert forall|j: int, l: int| 0 <= j < l < all.len() implies #[trigger] all[j]
                < #[trigger] all[l] by {
                assert(all[j] == rest[j]);
                if l < rest.len() {
                    assert(all[l] == rest[l]);
                }
            }
        } else {
            assert(all == rest);
        }
    }
}


/// Once a request has handed out `count` accounts, later attempts change
/// nothing.
proof fn lemma_acquisition_settles(states: Seq<NonceState>, cursor: usize, count: nat, k: nat, m: nat)
    requires
        k <= m,
        acquisition(states, cursor, count, k).1.len() >= count,
    ensures
        acquisition(states, cursor, count, m) == acquisition(states, cursor, count, k),
    decreases m - k,
{
    if k < m {
        lemma_acquisition_settles(states, cursor, count, k, (m - 1) as nat);
    }
}

/// A request that has not reached `count` in its first `k` attempts makes
/// as many attempts as one started after those `k`.
proof fn lemma_attempts_skip(states: Seq<NonceState>, cursor: usize, count: nat, k: nat, max: nat)
    requires
        k <= max,
        forall|j: nat| j < k ==> (#[trigger] acquisition(states, cursor, count, j)).1.len() < count,
    ensures
        attempts_made(states, cursor, count, 0, max) == attempts_made(states, cursor, count, k, max),
    decreases k,
{
    if k > 0 {
        let j = (k - 1) as nat;
        assert(acquisition(states, cursor, count, j).1.len() < count);
        lemma_attempts_skip(states, cursor, count, j, max);
    }
}


/// Stepping a wrapped cursor by one wraps the sum.
proof fn lemma_cursor_step(c: usize, a: nat)
    ensures
        vstd::wrapping::usize_specs::wrapping_add(((c + a) % (usize::MAX + 1)) as usize, 1usize)
            == (c + a + 1) % (usize::MAX + 1),
{
    let r = usize::MAX + 1;
    vstd::arithmetic::div_mod::lemma_add_mod_noop(c + a, 1, r);
    vstd::arithmetic::div_mod::lemma_small_mod(1, r as nat);
    let x = (c + a) % r;
    if x + 1 < r {
        vstd::arithmetic::div_mod::lemma_small_mod((x + 1) as nat, r as nat);
    } else {
        vstd::arithmetic::div_mod::lemma_mod_self_0(r);
    }
}

/// The states keep their length through a request.
proof fn lemma_acquisition_len(states: Seq<NonceState>, cursor: usize, count: nat, k: nat)
    requires
        states.len() > 0,
    ensures
        acquisition(states, cursor, count, k).0.len() == states.len(),
        acquisition(states, cursor, count, k).1.len() <= k,
    decreases k,
{
    if k > 0 {
        lemma_acquisition_len(states, cursor, count, (k - 1) as nat);
    }
}


/// What a request hands out: at most `count` distinct accounts of the pool,
/// each of them `Available` before and `InFlight` after; every other
/// account keeps its state.
pub proof fn law_acquisition_hands_out_available_accounts(
    states: Seq<NonceState>,
    cursor: usize,
    count: nat,
    k: nat,
)
    requires
        0 < states.len() <= usize::MAX,
    ensures
        ({
            let (after, got) = acquisition(states, cursor, count, k);
            &&& after.len() == states.len()
            &&& got.len() <= count
            &&& forall|j: int|
                0 <= j < got.len() ==> {
                    &&& #[trigger] got[j] < states.len()
                    &&& states[got[j] as int] == NonceState::Available
                    &&& after[got[j] as int] == NonceState::InFlight
                }
            &&& forall|j: int, l: int| 0 <= j < l < got.len() ==> #[trigger] got[j] != #[trigger] got[l]
            &&& forall|i: int|
                0 <= i < states.len() && !got.contains(i as usize) ==> #[trigger] after[i]
                    == states[i]
        }),
    decreases k,
{
    if k > 0 {
        law_acquisition_hands_out_available_accounts(states, cursor, count, (k - 1) as nat);
        let prev = acquisition(states, cursor, count, (k - 1) as nat);
        if prev.1.len() < count {
            let i = probe_index(cursor, (k - 1) as nat, states.len());
            assert(0 <= i < states.len());
            assert(i as usize == i);
            if prev.0[i] == NonceState::Available {
                let got = prev.1.push(i as usize);
                assert(!prev.1.contains(i as usize)) by {
                    if prev.1.contains(i as usize) {
                        let w = choose|w: int| 0 <= w < prev.1.len() && prev.1[w] == i as usize;
                        assert(prev.0[prev.1[w] as int] == NonceState::InFlight);
                    }
                }
                assert forall|m: int|
                    0 <= m < states.len() && !got.contains(m as usize) implies #[trigger] prev.0.update(
                    i,
                    NonceState::InFlight,
                )[m] == states[m] by {
                    if prev.1.contains(m as usize) {
                        let w = choose|w: int| 0 <= w < prev.1.len() && prev.1[w] == m as usize;
                        assert(got[w] == m as usize);
                    }
                    assert(m != i) by {
                        assert(got[got.len() - 1] == i as usize);
                    }
                }
            }
        }
    }
}

/// The pool position of the `m`-th probe from `cursor` while the cursor
/// does not wrap around the machine word.
pub open spec fn rr_slot(cursor: usize, m: int, len: int) -> int {
    (cursor + m) % len
}

/// Round-robin: on a pool whose accounts are all `Available`, a request for
/// `count` accounts, no more than the pool holds, gets exactly `count`
/// accounts in `count` attempts: the consecutive positions from the
/// cursor, wrapping around the pool. This needs the cursor not to wrap
/// around the machine word during the request.
pub proof fn law_round_robin_fills_request(states: Seq<NonceState>, cursor: usize, count: nat)
    requires
        0 < states.len() <= usize::MAX,
        count <= states.len(),
        cursor + count <= usize::MAX + 1,
        forall|i: int| 0 <= i < states.len() ==> #[trigger] states[i] == NonceState::Available,
    ensures
        acquisition(states, cursor, count, count).1 == Seq::new(
            count,
            |k: int| ((cursor + k) % (states.len() as int)) as usize,
        ),
        attempts_made(states, cursor, count, 0, max_attempts(states.len())) == count,
{
    lemma_round_robin_prefix(states, cursor, count, count);
    assert forall|j: nat| j < count implies (#[trigger] acquisition(states, cursor, count, j)).1.len()
        < count by {
        lemma_round_robin_prefix(states, cursor, count, j);
    }
    lemma_attempts_skip(states, cursor, count, count, max_attempts(states.len()));
}

/// The first `k` attempts of a round-robin request on a fully available
/// pool each hand out the account they probe.
proof fn lemma_round_robin_prefix(states: Seq<NonceState>, cursor: usize, count: nat, k: nat)
    requires
        0 < states.len() <= usize::MAX,
        count <= states.len(),
        k <= count,
        cursor + count <= usize::MAX + 1,
        forall|i: int| 0 <= i < states.len() ==> #[trigger] states[i] == NonceState::Available,
    ensures
        acquisition(states, cursor, count, k).1 == Seq::new(
            k,
            |m: int| ((cursor + m) % (states.len() as int)) as usize,
        ),
        forall|i: int|
            0 <= i < states.len() ==> (#[trigger] acquisition(states, cursor, count, k).0[i]
                == NonceState::InFlight) == (exists|m: int|
                0 <= m < k && i == #[trigger] rr_slot(cursor, m, states.len() as int)),
        acquisition(states, cursor, count, k).0.len() == states.len(),
        forall|i: int|
            0 <= i < states.len() ==> #[trigger] acquisition(states, cursor, count, k).0[i]
                == NonceState::Available || acquisition(states, cursor, count, k).0[i]
                == NonceState::InFlight,
    decreases k,
{
    let len = states.len() as int;
    if k > 0 {
        let j = (k - 1) as nat;
        lemma_round_robin_prefix(states, cursor, count, j);
        let prev = acquisition(states, cursor, count, j);
        let i = probe_index(cursor, j, states.len());
        vstd::arithmetic::div_mod::lemma_small_mod((cursor + j) as nat, (usize::MAX + 1) as nat);
        assert(i == (cursor + j) % len);
        assert(0 <= i < len);
        assert(prev.0[i] == NonceState::Available) by {
            if prev.0[i] == NonceState::InFlight {
                let m = choose|m: int| 0 <= m < j && i == #[trigger] rr_slot(cursor, m, len);
                lemma_mod_distinct(cursor + m, cursor + j, len);
            }
        }
        let after = prev.0.update(i, NonceState::InFlight);
        assert(acquisition(states, cursor, count, k) == (after, prev.1.push(i as usize)));
        assert(prev.1.push(i as usize) =~= Seq::new(
            k,
            |m: int| ((cursor + m) % len) as usize,
        ));
        assert forall|x: int| 0 <= x < len implies (#[trigger] after[x] == NonceState::InFlight)
            == (exists|m: int| 0 <= m < k && x == #[trigger] rr_slot(cursor, m, len)) by {
            if x == i {
                assert(0 <= j < k && x == rr_slot(cursor, j as int, len));
            } else if exists|m: int| 0 <= m < k && x == #[trigger] rr_slot(cursor, m, len) {
                let m = choose|m: int| 0 <= m < k && x == #[trigger] rr_slot(cursor, m, len);
                assert(m != j);
                assert(0 <= m < j && x == rr_slot(cursor, m, len));
            }
        }
    } else {
        assert(acquisition(states, cursor, count, 0).1 =~= Seq::new(
            0,
            |m: int| ((cursor + m) % len) as usize,
        ));
        assert forall|x: int| 0 <= x < len implies (#[trigger] acquisition(
            states,
            cursor,
            count,
            0,
        ).0[x] == NonceState::InFlight) == (exists|m: int| 0 <= m < 0 && x == #[trigger] rr_slot(cursor, m, len)) by {
            assert(states[x] == NonceState::Available);
        }
    }
}

/// Positions less than `len` apart fall in different residues modulo `len`.
proof fn lemma_mod_distinct(a: int, b: int, len: int)
    requires
        0 < len,
        0 <= a < b < a + len,
    ensures
        a % len != b % len,
{
    vstd::arithmetic::div_mod::lemma_fundamental_div_mod(a, len);
    vstd::arithmetic::div_mod::lemma_fundamental_div_mod(b, len);
    if a % len == b % len {
        assert(b - a == len * (b / len - a / len)) by (nonlinear_arith)
            requires
                a == len * (a / len) + a % len,
                b == len * (b / len) + b % len,
                a % len == b % len,
        ;
        assert(false) by (nonlinear_arith)
            requires
                b - a == len * (b / len - a / len),
                0 < b - a < len,
                0 < len,
        ;
    }
}

/// Every account a request hands out has a cached nonce hash, so a race
/// can build one transaction variant per account it was given.
pub proof fn law_acquired_accounts_have_hashes(pool: NoncePoolView, count: nat, k: nat)
    requires
        pool.wf(),
    ensures
        forall|j: int|
            0 <= j < acquisition(pool.states(), pool.cursor, count, k).1.len() ==> pool.slots[
                #[trigger] acquisition(pool.states(), pool.cursor, count, k).1[j] as int
            ].cached_nonce is Some,
{
    law_acquisition_hands_out_available_accounts(pool.states(), pool.cursor, count, k);
    let got = acquisition(pool.states(), pool.cursor, count, k).1;
    assert forall|j: int| 0 <= j < got.len() implies pool.slots[#[trigger] got[j] as int].cached_nonce is Some by {
        assert(pool.states()[got[j] as int] == NonceState::Available);
    }
}

/// Returning the accounts a request handed out puts every one of them, in
/// order, into the advance queue and marks it `RequiresAdvance`; no other
/// account changes.
pub proof fn law_returned_accounts_are_queued(
    states: Seq<NonceState>,
    cursor: usize,
    count: nat,
    k: nat,
    queue: Seq<usize>,
)
    requires
        0 < states.len() <= usize::MAX,
    ensures
        ({
            let (after, got) = acquisition(states, cursor, count, k);
            let (returned, queued) = marking(after, queue, got);
            &&& queued == queue + got
            &&& forall|j: int|
                0 <= j < got.len() ==> returned[#[trigger] got[j] as int]
                    == NonceState::RequiresAdvance
            &&& forall|i: int|
                0 <= i < states.len() && !got.contains(i as usize) ==> #[trigger] returned[i]
                    == states[i]
        }),
{
    law_acquisition_hands_out_available_accounts(states, cursor, count, k);
    let (after, got) = acquisition(states, cursor, count, k);
    lemma_marking_prefix(after, queue, got, got.len());
    assert(got.take(got.len() as int) =~= got);
}

/// Returning the first `n` handed-out accounts, when each is distinct and
/// still `InFlight`, queues exactly those.
proof fn lemma_marking_prefix(after: Seq<NonceState>, queue: Seq<usize>, got: Seq<usize>, n: nat)
    requires
        n <= got.len(),
        forall|j: int|
            0 <= j < got.len() ==> {
                &&& #[trigger] got[j] < after.len()
                &&& after[got[j] as int] == NonceState::InFlight
            },
        forall|j: int, l: int| 0 <= j < l < got.len() ==> #[trigger] got[j] != #[trigger] got[l],
    ensures
        ({
            let (returned, queued) = marking(after, queue, got.take(n as int));
            &&& returned.len() == after.len()
            &&& queued == queue + got.take(n as int)
            &&& forall|j: int|
                0 <= j < n ==> returned[#[trigger] got[j] as int] == NonceState::RequiresAdvance
            &&& forall|i: int|
                0 <= i < after.len() && !got.take(n as int).contains(i as usize)
                    ==> #[trigger] returned[i] == after[i]
        }),
    decreases n,
{
    if n > 0 {
        lemma_marking_prefix(after, queue, got, (n - 1) as nat);
        let pre = got.take(n - 1);
        let cur = got.take(n as int);
        assert(cur.drop_last() =~= pre);
        assert(cur.last() == got[n - 1]);
        let (returned, queued) = marking(after, queue, pre);
        let i = got[n - 1];
        assert(!pre.contains(i)) by {
            if pre.contains(i) {
                let w = choose|w: int| 0 <= w < pre.len() && pre[w] == i;
                assert(got[w] == got[n - 1]);
            }
        }
        assert(returned[i as int] == NonceState::InFlight);
        assert(queued.push(i) =~= queue + cur);
        assert forall|m: int|
            0 <= m < after.len() && !cur.contains(m as usize) implies #[trigger] returned.update(
            i as int,
            NonceState::RequiresAdvance,
        )[m] == after[m] by {
            if pre.contains(m as usize) {
                let w = choose|w: int| 0 <= w < pre.len() && pre[w] == m as usize;
                assert(cur[w] == m as usize);
            }
            assert(cur[n - 1] == i);
        }
    }
}

impl NoncePoolView {
    /// The pool's invariant: it is not empty and fits the attempt budget in
    /// a machine word, every `Available` account has a cached nonce hash,
    /// every `InFlight` one a recorded use, and the queue names accounts of
    /// the pool.
    pub open spec fn wf(self) -> bool {
        &&& 0 < self.slots.len() <= usize::MAX / 2
        &&& forall|i: int|
            0 <= i < self.slots.len() && #[trigger] self.slots[i].state == NonceState::Available
                ==> self.slots[i].cached_nonce is Some
        &&& forall|i: int|
            0 <= i < self.slots.len() && #[trigger] self.slots[i].state == NonceState::InFlight
                ==> self.slots[i].used
        &&& forall|j: int| 0 <= j < self.queue.len() ==> #[trigger] self.queue[j] < self.slots.len()
    }

    /// The pool's states.
    pub open spec fn states(self) -> Seq<NonceState> {
        states_of(self.slots)
    }

    /// Whether `next` can follow this pool by one pool operation: the same
    /// accounts, with the same keys and authorities, each of them either
    /// keeping its state or moving one step along the state machine.
    pub open spec fn steps_to(self, next: NoncePoolView) -> bool {
        &&& next.slots.len() == self.slots.len()
        &&& forall|i: int|
            0 <= i < self.slots.len() ==> {
                &&& (#[trigger] next.slots[i]).pubkey == self.slots[i].pubkey
                &&& next.slots[i].authority == self.slots[i].authority
                &&& allowed_step(self.slots[i].state, next.slots[i].state)
            }
    }

    /// Whether `other` holds the same accounts as this pool, with the same
    /// authorities and cached nonce hashes.
    pub open spec fn same_accounts(self, other: NoncePoolView) -> bool {
        &&& other.slots.len() == self.slots.len()
        &&& forall|i: int|
            0 <= i < self.slots.len() ==> {
                &&& (#[trigger] other.slots[i]).pubkey == self.slots[i].pubkey
                &&& other.slots[i].authority == self.slots[i].authority
                &&& other.slots[i].cached_nonce == self.slots[i].cached_nonce
            }
    }
}

/// What a nonce account's data decodes to.
#[derive(Debug, Clone, Copy, PartialEq, Eq)]
pub enum NonceAccountContents {
    /// A current-version account holding an initialized nonce; the hash.
    Initialized([u8; 32]),
    /// A current-version account with no nonce yet.
    Uninitialized,
    /// A legacy-version account.
    Legacy,
    /// Data that does not decode as a nonce account.
    Undecodable,
}

/// Whether bytes `at..at + 4` of `data` hold `v` as a little-endian `u32`.
pub open spec fn u32_tag_at(data: Seq<u8>, at: int, v: u8) -> bool {
    data[at] == v && data[at + 1] == 0 && data[at + 2] == 0 && data[at + 3] == 0
}

/// Whether `data` is laid out as a nonce account, with the encoding that
/// `bincode::deserialize` reads (little-endian `u32` variant tags, keys and
/// hashes as 32 raw bytes, trailing bytes allowed): a version tag at byte 0
/// (0 legacy, 1 current), a state tag at byte 4 (0 uninitialized,
/// 1 initialized) and, when initialized, the authority at bytes 8..40, the
/// nonce hash at 40..72 and the fee per signature at 72..80.
pub open spec fn nonce_layout_valid(data: Seq<u8>) -> bool {
    &&& data.len() >= 8
    &&& u32_tag_at(data, 0, 0) || u32_tag_at(data, 0, 1)
    &&& u32_tag_at(data, 4, 0) || u32_tag_at(data, 4, 1)
    &&& u32_tag_at(data, 4, 1) ==> data.len() >= 80
}

/// Whether `contents` is what nonce account data `data` decodes to.
pub open spec fn decodes_to(data: Seq<u8>, contents: NonceAccountContents) -> bool {
    match contents {
        NonceAccountContents::Undecodable => !nonce_layout_valid(data),
        NonceAccountContents::Legacy => nonce_layout_valid(data) && u32_tag_at(data, 0, 0),
        NonceAccountContents::Uninitialized => nonce_layout_valid(data) && u32_tag_at(data, 0, 1)
            && u32_tag_at(data, 4, 0),
        NonceAccountContents::Initialized(hash) => nonce_layout_valid(data) && u32_tag_at(
            data,
            0,
            1,
        ) && u32_tag_at(data, 4, 1) && hash@ == data.subrange(40, 72),
    }
}

/// `bincode::deserialize::<solana_sdk::nonce::state::Versions>` on the data
/// of a nonce account, with the decoded state told apart by variant and an
/// initialized nonce reduced to its blockhash's bytes (`Data::blockhash`,
/// `Hash::to_bytes`). The result is what the data decodes to by the layout
/// of `nonce_layout_valid`: `Versions` and `State` are enums whose variant
/// tags bincode reads as little-endian `u32`s, `Data` is a `Pubkey`, a
/// `DurableNonce` (a `Hash`) and a `FeeCalculator` (one `u64`), and
/// `bincode::deserialize` uses fixed-width integers and allows trailing
/// bytes.
#[verifier::external_body]
fn decode_nonce_account(data: &[u8]) -> (contents: NonceAccountContents)
    ensures
        decodes_to(data@, contents),
{
    match bincode::deserialize::<solana_sdk::nonce::state::Versions>(data) {
        Ok(solana_sdk::nonce::state::Versions::Current(state)) => match *state {
            solana_sdk::nonce::state::State::Initialized(d) => NonceAccountContents::Initialized(
                d.blockhash().to_bytes(),
            ),
            solana_sdk::nonce::state::State::Uninitialized => NonceAccountContents::Uninitialized,
        },
        Ok(solana_sdk::nonce::state::Versions::Legacy(_)) => NonceAccountContents::Legacy,
        Err(_) => NonceAccountContents::Undecodable,
    }
}

/// The nonce hash held in nonce account data: the bytes 40..72 of a
/// current, initialized account; an error for a current, uninitialized
/// one; and an unparseable-data error for a legacy account or data that is
/// not laid out as a nonce account.
pub open spec fn account_data_hash(data: Seq<u8>) -> Result<Seq<u8>, NonceError> {
    if !nonce_layout_valid(data) || u32_tag_at(data, 0, 0) {
        Err(NonceError::Unparseable)
    } else if u32_tag_at(data, 4, 0) {
        Err(NonceError::NotInitialized)
    } else {
        Ok(data.subrange(40, 72))
    }
}

/// The nonce hash an advanced account yields: the hash of a current,
/// initialized account; an error for an uninitialized one; and an
/// unparseable-data error for anything else.
pub open spec fn nonce_hash_of(contents: NonceAccountContents) -> Result<[u8; 32], NonceError> {
    match contents {
        NonceAccountContents::Initialized(hash) => Ok(hash),
        NonceAccountContents::Uninitialized => Err(NonceError::NotInitialized),
        _ => Err(NonceError::Unparseable),
    }
}

/// The nonce hash held by decoded nonce account contents.
pub fn nonce_hash_from_contents(contents: NonceAccountContents) -> (r: Result<[u8; 32], NonceError>)
    ensures
        r == nonce_hash_of(contents),
{
    match contents {
        NonceAccountContents::Initialized(hash) => Ok(hash),
        NonceAccountContents::Uninitialized => Err(NonceError::NotInitialized),
        _ => Err(NonceError::Unparseable),
    }
}

/// Reads the fresh nonce hash out of a nonce account's data, as fetched
/// after an advance.
pub fn nonce_hash_from_account_data(data: &[u8]) -> (r: Result<[u8; 32], NonceError>)
    ensures
        match r {
            Ok(hash) => account_data_hash(data@) == Ok::<Seq<u8>, NonceError>(hash@),
            Err(e) => account_data_hash(data@) == Err::<Seq<u8>, NonceError>(e),
        },
{
    nonce_hash_from_contents(decode_nonce_account(data))
}

/// First wait between retries of failed advances.
pub const INITIAL_RETRY_DELAY_MS: u64 = 100;

/// Longest wait between retries of failed advances.
pub const MAX_RETRY_DELAY_MS: u64 = 10_000;

/// Wait after a round in which every advance succeeded.
pub const IDLE_POLL_MS: u64 = 100;

/// Random jitter added to a retry wait stays below this.
pub const MAX_JITTER_MS: u64 = 50;

/// `fastrand::u64(0..bound)`: a random number below `bound`, as the range
/// bounds it; which one is left to chance. An empty range would panic, so
/// `bound` is positive.
#[verifier::external_body]
fn random_below(bound: u64) -> (j: u64)
    requires
        bound > 0,
    ensures
        j < bound,
{
    fastrand::u64(0..bound)
}

/// Exponential backoff of the advance retries.
#[derive(Debug, Clone, Copy)]
pub struct ReloadBackoff {
    retry_delay_ms: u64,
}

impl View for ReloadBackoff {
    type V = nat;

    closed spec fn view(&self) -> nat {
        self.retry_delay_ms as nat
    }
}

impl ReloadBackoff {
    /// The backoff before any failure.
    pub fn new() -> (b: Self)
        ensures
            b@ == INITIAL_RETRY_DELAY_MS,
    {
        ReloadBackoff { retry_delay_ms: INITIAL_RETRY_DELAY_MS }
    }

    /// The current retry delay in milliseconds.
    pub fn retry_delay_ms(&self) -> (d: u64)
        ensures
            d == self@,
    {
        self.retry_delay_ms
    }

    /// A successful advance resets the delay.
    pub fn on_advanced(&mut self)
        ensures
            final(self)@ == INITIAL_RETRY_DELAY_MS,
    {
        self.retry_delay_ms = INITIAL_RETRY_DELAY_MS;
    }

    /// Ends a round of advances and says how long to sleep: after a round
    /// with failures, the current delay plus `jitter_ms`, and the delay
    /// doubles up to its maximum; after a clean round, the idle poll, and
    /// the delay stays.
    pub fn after_round(&mut self, any_failed: bool, jitter_ms: u64) -> (sleep_ms: u64)
        requires
            old(self)@ <= MAX_RETRY_DELAY_MS,
            jitter_ms < MAX_JITTER_MS,
        ensures
            any_failed ==> sleep_ms == old(self)@ + jitter_ms,
            any_failed ==> final(self)@ == if 2 * old(self)@ < MAX_RETRY_DELAY_MS {
                2 * old(self)@
            } else {
                MAX_RETRY_DELAY_MS as nat
            },
            !any_failed ==> sleep_ms == IDLE_POLL_MS && final(self)@ == old(self)@,
            final(self)@ <= MAX_RETRY_DELAY_MS,
    {
        if any_failed {
            let sleep_ms = self.retry_delay_ms + jitter_ms;
            self.retry_delay_ms = if self.retry_delay_ms * 2 < MAX_RETRY_DELAY_MS {
                self.retry_delay_ms * 2
            } else {
                MAX_RETRY_DELAY_MS
            };
            sleep_ms
        } else {
            IDLE_POLL_MS
        }
    }

    /// Ends a round of advances, drawing the jitter at random.
    pub fn after_round_jittered(&mut self, any_failed: bool) -> (sleep_ms: u64)
        requires
            old(self)@ <= MAX_RETRY_DELAY_MS,
        ensures
            any_failed ==> old(self)@ <= sleep_ms < old(self)@ + MAX_JITTER_MS,
            any_failed ==> final(self)@ == if 2 * old(self)@ < MAX_RETRY_DELAY_MS {
                2 * old(self)@
            } else {
                MAX_RETRY_DELAY_MS as nat
            },
            !any_failed ==> sleep_ms == IDLE_POLL_MS && final(self)@ == old(self)@,
            final(self)@ <= MAX_RETRY_DELAY_MS,
    {
        let jitter_ms = if any_failed {
            random_below(MAX_JITTER_MS)
        } else {
            0
        };
        self.after_round(any_failed, jitter_ms)
    }
}

/// Manages a pool of ready-to-use, independent transaction streams.
#[derive(Debug)]
pub struct NonceManager {
    pubkeys: Vec<[u8; 32]>,
    authorities: Vec<Keypair>,
    cached_nonces: Vec<Option<[u8; 32]>>,
    states: Vec<NonceState>,
    last_used: Vec<Option<Instant>>,
    /// Round-robin cursor of the next account to probe.
    next_available_index: usize,
    /// Accounts that require advancing, in queue order.
    advance_queue: Vec<usize>,
}

impl View for NonceManager {
    type V = NoncePoolView;

    closed spec fn view(&self) -> NoncePoolView {
        NoncePoolView {
            slots: Seq::new(
                self.states@.len(),
                |i: int|
                    NonceSlotView {
                        pubkey: self.pubkeys@[i],
                        authority: self.authorities@[i],
                        cached_nonce: self.cached_nonces@[i],
                        state: self.states@[i],
                        used: self.last_used@[i] is Some,
                    },
            ),
            cursor: self.next_available_index,
            queue: self.advance_queue@,
        }
    }
}

impl NonceManager {
    /// The manager's invariant: its per-account columns have one entry per
    /// account, and its view satisfies the pool invariant.
    pub closed spec fn wf(&self) -> bool {
        &&& self.pubkeys@.len() == self.states@.len()
        &&& self.authorities@.len() == self.states@.len()
        &&& self.cached_nonces@.len() == self.states@.len()
        &&& self.last_used@.len() == self.states@.len()
        &&& self@.wf()
    }

    /// Reveals that a well-formed manager has a well-formed view.
    pub proof fn lemma_wf_view(&self)
        requires
            self.wf(),
        ensures
            self@.wf(),
    {
    }

    /// The manager invariant, from facts about its columns.
    proof fn lemma_wf_from_columns(&self)
        requires
            self.pubkeys@.len() == self.states@.len(),
            self.authorities@.len() == self.states@.len(),
            self.cached_nonces@.len() == self.states@.len(),
            self.last_used@.len() == self.states@.len(),
            0 < self.states@.len() <= usize::MAX / 2,
            forall|i: int|
                0 <= i < self.states@.len() && #[trigger] self.states@[i] == NonceState::Available
                    ==> self.cached_nonces@[i] is Some,
            forall|i: int|
                0 <= i < self.states@.len() && #[trigger] self.states@[i] == NonceState::InFlight
                    ==> self.last_used@[i] is Some,
            forall|j: int|
                0 <= j < self.advance_queue@.len() ==> #[trigger] self.advance_queue@[j]
                    < self.states@.len(),
        ensures
            self.wf(),
            self@.states() =~= self.states@,
    {
        assert forall|i: int|
            0 <= i < self@.slots.len() && #[trigger] self@.slots[i].state
                == NonceState::Available implies self@.slots[i].cached_nonce is Some by {
            assert(self.states@[i] == NonceState::Available);
        }
        assert forall|i: int|
            0 <= i < self@.slots.len() && #[trigger] self@.slots[i].state
                == NonceState::InFlight implies self@.slots[i].used by {
            assert(self.states@[i] == NonceState::InFlight);
        }
    }

    /// Facts about the columns, from the manager invariant.
    proof fn lemma_columns_from_wf(&self)
        requires
            self.wf(),
        ensures
            0 < self.states@.len() <= usize::MAX / 2,
            self@.states() =~= self.states@,
            self@.slots.len() == self.states@.len(),
            self@.queue == self.advance_queue@,
            forall|i: int|
                0 <= i < self.states@.len() && #[trigger] self.states@[i] == NonceState::Available
                    ==> self.cached_nonces@[i] is Some,
            forall|i: int|
                0 <= i < self.states@.len() && #[trigger] self.states@[i] == NonceState::InFlight
                    ==> self.last_used@[i] is Some,
            forall|j: int|
                0 <= j < self.advance_queue@.len() ==> #[trigger] self.advance_queue@[j]
                    < self.states@.len(),
    {
        assert forall|i: int|
            0 <= i < self.states@.len() && #[trigger] self.states@[i]
                == NonceState::Available implies self.cached_nonces@[i] is Some by {
            assert(self@.slots[i].state == NonceState::Available);
        }
        assert forall|i: int|
            0 <= i < self.states@.len() && #[trigger] self.states@[i]
                == NonceState::InFlight implies self.last_used@[i] is Some by {
            assert(self@.slots[i].state == NonceState::InFlight);
        }
        assert forall|j: int| 0 <= j < self.advance_queue@.len() implies #[trigger] self.advance_queue@[j]
            < self.states@.len() by {
            assert(self@.queue[j] < self@.slots.len());
        }
    }

    /// Creates a pool of `nonce_count` accounts with fresh random keys. Every
    /// account starts out `RequiresAdvance`, with no cached nonce hash, and is
    /// queued for advancing in pool order: it becomes usable once advanced.
    /// An empty pool is refused.
    pub fn new(nonce_count: usize) -> (r: Result<NonceManager, NonceError>)
        requires
            nonce_count <= usize::MAX / 2,
        ensures
            r is Err <==> nonce_count == 0,
            r matches Err(e) ==> e == NonceError::EmptyPool,
            r matches Ok(m) ==> {
                &&& m.wf()
                &&& m@.slots.len() == nonce_count
                &&& m@.cursor == 0
                &&& m@.queue == Seq::new(nonce_count as nat, |i: int| i as usize)
                &&& forall|i: int|
                    0 <= i < nonce_count ==> {
                        &&& (#[trigger] m@.slots[i]).state == NonceState::RequiresAdvance
                        &&& m@.slots[i].cached_nonce is None
                        &&& !m@.slots[i].used
                    }
            },
    {
        if nonce_count == 0 {
            return Err(NonceError::EmptyPool);
        }
        let mut pubkeys: Vec<[u8; 32]> = Vec::new();
        let mut authorities: Vec<Keypair> = Vec::new();
        let mut cached_nonces: Vec<Option<[u8; 32]>> = Vec::new();
        let mut states: Vec<NonceState> = Vec::new();
        let mut last_used: Vec<Option<Instant>> = Vec::new();
        let mut queue: Vec<usize> = Vec::new();
        let mut i: usize = 0;
        while i < nonce_count
            invariant
                i <= nonce_count,
                pubkeys@.len() == i,
                authorities@.len() == i,
                cached_nonces@.len() == i,
                states@.len() == i,
                last_used@.len() == i,
                queue@ == Seq::new(i as nat, |j: int| j as usize),
                forall|j: int|
                    0 <= j < i ==> {
                        &&& #[trigger] states@[j] == NonceState::RequiresAdvance
                        &&& cached_nonces@[j] is None
                        &&& last_used@[j] is None
                    },
            decreases nonce_count - i,
        {
            let authority = new_keypair();
            let nonce_keypair = new_keypair();
            pubkeys.push(keypair_pubkey(&nonce_keypair));
            authorities.push(authority);
            cached_nonces.push(None);
            states.push(NonceState::RequiresAdvance);
            last_used.push(None);
            queue.push(i);
            assert(queue@ =~= Seq::new((i + 1) as nat, |j: int| j as usize));
            i = i + 1;
        }
        let m = NonceManager {
            pubkeys,
            authorities,
            cached_nonces,
            states,
            last_used,
            next_available_index: 0,
            advance_queue: queue,
        };
        assert(forall|j: int|
            0 <= j < nonce_count ==> #[trigger] m@.slots[j].state == m.states@[j]);
        Ok(m)
    }

    /// Requests up to `count` available accounts for a race, probing the
    /// pool round-robin from the cursor for at most twice the pool size.
    /// Each account found `Available` is handed out, marked `InFlight` and
    /// stamped with the current time. The result lists the handed-out
    /// accounts in the order they were found: exactly `acquisition` of the
    /// pool's states after the attempts the request makes.
    pub fn request_available(&mut self, count: usize) -> (r: Result<Vec<usize>, NonceError>)
        requires
            old(self).wf(),
        ensures
            final(self).wf(),
            old(self)@.steps_to(final(self)@),
            r matches Ok(acquired) && {
                let s0 = old(self)@.states();
                let c0 = old(self)@.cursor;
                let k = attempts_made(s0, c0, count as nat, 0, max_attempts(s0.len()));
                &&& k <= max_attempts(s0.len())
                &&& acquired@ == acquisition(s0, c0, count as nat, k).1
                &&& acquired@ == acquisition(s0, c0, count as nat, max_attempts(s0.len())).1
                &&& final(self)@.states() == acquisition(s0, c0, count as nat, k).0
                &&& final(self)@.cursor == (c0 + k) % (usize::MAX + 1)
                &&& final(self)@.queue == old(self)@.queue
                &&& old(self)@.same_accounts(final(self)@)
                &&& forall|i: int|
                    0 <= i < s0.len() ==> (#[trigger] final(self)@.slots[i]).used
                        == (old(self)@.slots[i].used || acquired@.contains(i as usize))
            },
    {
        let ghost s0 = self@.states();
        let ghost c0 = self.next_available_index;
        let ghost used0 = self.last_used@;
        proof {
            self.lemma_columns_from_wf();
        }
        let len = self.states.len();
        let max_attempts = len * 2;
        let mut available: Vec<usize> = Vec::new();
        let mut attempts: usize = 0;
        proof {
            vstd::arithmetic::div_mod::lemma_small_mod(c0 as nat, (usize::MAX + 1) as nat);
        }
        while available.len() < count && attempts < max_attempts
            invariant
                self.pubkeys@ == old(self).pubkeys@,
                self.authorities@ == old(self).authorities@,
                self.cached_nonces@ == old(self).cached_nonces@,
                self.advance_queue@ == old(self).advance_queue@,
                self.states@.len() == len,
                self.last_used@.len() == len,
                old(self).wf(),
                s0 == old(self)@.states(),
                s0 == old(self).states@,
                used0 == old(self).last_used@,
                c0 == old(self).next_available_index,
                0 < len <= usize::MAX / 2,
                len == s0.len(),
                max_attempts == 2 * len,
                attempts <= max_attempts,
                (self.states@, available@) == acquisition(s0, c0, count as nat, attempts as nat),
                self.next_available_index == (c0 + attempts) % (usize::MAX + 1),
                forall|j: nat|
                    j < attempts ==> (#[trigger] acquisition(s0, c0, count as nat, j)).1.len()
                        < count,
                forall|i: int|
                    0 <= i < len ==> (#[trigger] self.last_used@[i] is Some) == (used0[i] is Some
                        || available@.contains(i as usize)),
                forall|i: int|
                    0 <= i < len && #[trigger] self.states@[i] == NonceState::Available
                        ==> self.cached_nonces@[i] is Some,
                forall|i: int|
                    0 <= i < len && #[trigger] self.states@[i] == NonceState::InFlight
                        ==> self.last_used@[i] is Some,
                forall|j: int|
                    0 <= j < self.advance_queue@.len() ==> #[trigger] self.advance_queue@[j] < len,
            decreases max_attempts - attempts,
        {
            let ghost prev_available = available@;
            proof {
                lemma_acquisition_len(s0, c0, count as nat, attempts as nat);
            }
            let index = self.next_available_index % len;
            assert(index == probe_index(c0, attempts as nat, len as nat));
            proof {
                lemma_cursor_step(c0, attempts as nat);
            }
            self.next_available_index = self.next_available_index.wrapping_add(1);
            if self.states[index] == NonceState::Available {
                self.states.set(index, NonceState::InFlight);
                self.last_used.set(index, Some(instant_now()));
                available.push(index);
                assert forall|i: int| 0 <= i < len implies (#[trigger] self.last_used@[i] is Some)
                    == (used0[i] is Some || available@.contains(i as usize)) by {
                    if i == index as int {
                        assert(available@[available@.len() - 1] == index);
                    } else {
                        assert(available@.contains(i as usize) ==> prev_available.contains(
                            i as usize,
                        )) by {
                            if available@.contains(i as usize) {
                                let w = choose|w: int|
                                    0 <= w < available@.len() && available@[w] == i as usize;
                                assert(w < prev_available.len());
                                assert(prev_available[w] == i as usize);
                            }
                        }
                        assert(prev_available.contains(i as usize) ==> available@.contains(
                            i as usize,
                        )) by {
                            if prev_available.contains(i as usize) {
                                let w = choose|w: int|
                                    0 <= w < prev_available.len() && prev_available[w]
                                        == i as usize;
                                assert(available@[w] == i as usize);
                            }
                        }
                    }
                }
            }
            assert(acquisition(s0, c0, count as nat, (attempts + 1) as nat) == (
                self.states@,
                available@,
            ));
            attempts = attempts + 1;
        }
        proof {
            lemma_attempts_skip(s0, c0, count as nat, attempts as nat, max_attempts as nat);
            if attempts < max_attempts {
                lemma_acquisition_settles(
                    s0,
                    c0,
                    count as nat,
                    attempts as nat,
                    max_attempts as nat,
                );
            }
            self.lemma_wf_from_columns();
            law_acquisition_hands_out_available_accounts(s0, c0, count as nat, attempts as nat);
            let got = available@;
            assert forall|i: int| 0 <= i < s0.len() implies allowed_step(
                s0[i],
                #[trigger] self@.states()[i],
            ) by {
                if got.contains(i as usize) {
                    let w = choose|w: int| 0 <= w < got.len() && got[w] == i as usize;
                    assert(s0[got[w] as int] == NonceState::Available);
                }
            }
            lemma_steps_by_states(old(self)@, self@);
        }
        Ok(available)
    }

    /// Marks nonces as requiring advancement after a race: each returned
    /// account still `InFlight` becomes `RequiresAdvance` and joins the
    /// advance queue, in the order given; any other is left as it is.
    pub fn mark_for_advance(&mut self, nonce_accounts: Vec<usize>)
        requires
            old(self).wf(),
            forall|j: int|
                0 <= j < nonce_accounts@.len() ==> #[trigger] nonce_accounts@[j]
                    < old(self)@.slots.len(),
        ensures
            final(self).wf(),
            old(self)@.steps_to(final(self)@),
            (final(self)@.states(), final(self)@.queue) == marking(
                old(self)@.states(),
                old(self)@.queue,
                nonce_accounts@,
            ),
            final(self)@.cursor == old(self)@.cursor,
            old(self)@.same_accounts(final(self)@),
            forall|i: int|
                0 <= i < old(self)@.slots.len() ==> (#[trigger] final(self)@.slots[i]).used
                    == old(self)@.slots[i].used,
    {
        let ghost s0 = self.states@;
        let ghost q0 = self.advance_queue@;
        proof {
            self.lemma_columns_from_wf();
        }
        let len = self.states.len();
        let mut k: usize = 0;
        while k < nonce_accounts.len()
            invariant
                self.pubkeys@ == old(self).pubkeys@,
                self.authorities@ == old(self).authorities@,
                self.cached_nonces@ == old(self).cached_nonces@,
                self.last_used@ == old(self).last_used@,
                self.next_available_index == old(self).next_available_index,
                old(self).wf(),
                s0 == old(self).states@,
                s0 == old(self)@.states(),
                q0 == old(self).advance_queue@,
                len == s0.len(),
                self.states@.len() == len,
                k <= nonce_accounts@.len(),
                forall|j: int|
                    0 <= j < nonce_accounts@.len() ==> #[trigger] nonce_accounts@[j] < len,
                (self.states@, self.advance_queue@) == marking(
                    s0,
                    q0,
                    nonce_accounts@.take(k as int),
                ),
                forall|i: int|
                    0 <= i < len && #[trigger] self.states@[i] == NonceState::Available
                        ==> self.cached_nonces@[i] is Some,
                forall|i: int|
                    0 <= i < len && #[trigger] self.states@[i] == NonceState::InFlight
                        ==> self.last_used@[i] is Some,
                forall|j: int|
                    0 <= j < self.advance_queue@.len() ==> #[trigger] self.advance_queue@[j] < len,
            decreases nonce_accounts@.len() - k,
        {
            let index = nonce_accounts[k];
            assert(nonce_accounts@.take(k + 1).drop_last() =~= nonce_accounts@.take(k as int));
            if self.states[index] == NonceState::InFlight {
                self.states.set(index, NonceState::RequiresAdvance);
                self.advance_queue.push(index);
            }
            k = k + 1;
        }
        proof {
            assert(nonce_accounts@.take(k as int) =~= nonce_accounts@);
            self.lemma_wf_from_columns();
            lemma_marking_steps(old(self)@.states(), old(self)@.queue, nonce_accounts@);
            lemma_steps_by_states(old(self)@, self@);
        }
    }

    /// Takes every account out of the advance queue, in queue order.
    pub fn take_advance_queue(&mut self) -> (queued: Vec<usize>)
        requires
            old(self).wf(),
        ensures
            final(self).wf(),
            old(self)@.steps_to(final(self)@),
            queued@ == old(self)@.queue,
            final(self)@.queue.len() == 0,
            final(self)@.slots == old(self)@.slots,
            final(self)@.cursor == old(self)@.cursor,
            forall|j: int| 0 <= j < queued@.len() ==> #[trigger] queued@[j] < old(self)@.slots.len(),
    {
        let mut queued: Vec<usize> = Vec::new();
        std::mem::swap(&mut queued, &mut self.advance_queue);
        proof {
            assert(self@.slots =~= old(self)@.slots);
        }
        queued
    }

    /// Puts accounts whose advance failed back at the end of the queue, in
    /// the order given.
    pub fn requeue(&mut self, failed: Vec<usize>)
        requires
            old(self).wf(),
            forall|j: int| 0 <= j < failed@.len() ==> #[trigger] failed@[j] < old(self)@.slots.len(),
        ensures
            final(self).wf(),
            old(self)@.steps_to(final(self)@),
            final(self)@.queue == old(self)@.queue + failed@,
            final(self)@.slots == old(self)@.slots,
            final(self)@.cursor == old(self)@.cursor,
    {
        let mut failed = failed;
        let ghost f = failed@;
        self.advance_queue.append(&mut failed);
        proof {
            assert(self@.slots =~= old(self)@.slots);
            assert forall|j: int| 0 <= j < self@.queue.len() implies #[trigger] self@.queue[j]
                < self@.slots.len() by {
                if j >= old(self)@.queue.len() {
                    assert(self@.queue[j] == f[j - old(self)@.queue.len()]);
                }
            }
        }
    }

    /// Records a successful advance of account `index`, which was awaiting
    /// it: its fresh nonce hash is cached and it is `Available` again.
    pub fn complete_advance(&mut self, index: usize, nonce_hash: [u8; 32])
        requires
            old(self).wf(),
            index < old(self)@.slots.len(),
            old(self)@.slots[index as int].state == NonceState::RequiresAdvance,
        ensures
            final(self).wf(),
            old(self)@.steps_to(final(self)@),
            final(self)@.slots == old(self)@.slots.update(
                index as int,
                NonceSlotView {
                    cached_nonce: Some(nonce_hash),
                    state: NonceState::Available,
                    ..old(self)@.slots[index as int]
                },
            ),
            final(self)@.queue == old(self)@.queue,
            final(self)@.cursor == old(self)@.cursor,
    {
        proof {
            self.lemma_columns_from_wf();
        }
        self.cached_nonces.set(index, Some(nonce_hash));
        self.states.set(index, NonceState::Available);
        proof {
            self.lemma_wf_from_columns();
            assert(self@.slots =~= old(self)@.slots.update(
                index as int,
                NonceSlotView {
                    cached_nonce: Some(nonce_hash),
                    state: NonceState::Available,
                    ..old(self)@.slots[index as int]
                },
            ));
        }
    }

    /// Forces the advance of every account that is stuck given, for each
    /// account, the milliseconds `elapsed_ms` since its last use: in pool
    /// order, each stuck account becomes `RequiresAdvance` and joins the
    /// queue, as a returned account does.
    pub fn queue_stuck(&mut self, elapsed_ms: &Vec<u128>)
        requires
            old(self).wf(),
            elapsed_ms@.len() == old(self)@.slots.len(),
        ensures
            final(self).wf(),
            old(self)@.steps_to(final(self)@),
            final(self)@.slots == after_stuck_check(old(self)@.slots, elapsed_ms@),
            final(self)@.cursor == old(self)@.cursor,
            final(self)@.queue == old(self)@.queue + stuck_accounts(
                old(self)@.slots,
                elapsed_ms@,
                old(self)@.slots.len(),
            ),
    {
        let ghost q0 = self.advance_queue@;
        let ghost slots0 = self@.slots;
        let ghost e = elapsed_ms@;
        proof {
            self.lemma_columns_from_wf();
        }
        let len = self.states.len();
        let mut i: usize = 0;
        while i < len
            invariant
                self.pubkeys@ == old(self).pubkeys@,
                self.authorities@ == old(self).authorities@,
                self.cached_nonces@ == old(self).cached_nonces@,
                self.last_used@ == old(self).last_used@,
                self.next_available_index == old(self).next_available_index,
                old(self).wf(),
                q0 == old(self).advance_queue@,
                slots0 == old(self)@.slots,
                e == elapsed_ms@,
                len == self.states@.len(),
                len == old(self).states@.len(),
                len == slots0.len(),
                len == self.last_used@.len(),
                elapsed_ms@.len() == len,
                i <= len,
                forall|j: int|
                    0 <= j < len ==> #[trigger] self.states@[j] == if j < i && is_stuck(
                        slots0[j],
                        e[j] as int,
                    ) {
                        NonceState::RequiresAdvance
                    } else {
                        old(self).states@[j]
                    },
                forall|j: int| 0 <= j < len ==> #[trigger] slots0[j].state == old(self).states@[j],
                forall|j: int|
                    0 <= j < len ==> #[trigger] slots0[j].used == (old(self).last_used@[j] is Some),
                self.advance_queue@ == q0 + stuck_accounts(slots0, e, i as nat),
                forall|j: int|
                    0 <= j < self.advance_queue@.len() ==> #[trigger] self.advance_queue@[j] < len,
            decreases len - i,
        {
            let stuck = self.states[i] == NonceState::InFlight && self.last_used[i].is_some()
                && elapsed_ms[i] > STUCK_IN_FLIGHT_MS as u128;
            assert(stuck == is_stuck(slots0[i as int], e[i as int] as int));
            if stuck {
                self.states.set(i, NonceState::RequiresAdvance);
                self.advance_queue.push(i);
                assert(self.advance_queue@ =~= q0 + stuck_accounts(slots0, e, (i + 1) as nat));
            } else {
                assert(stuck_accounts(slots0, e, (i + 1) as nat) == stuck_accounts(
                    slots0,
                    e,
                    i as nat,
                ));
            }
            i = i + 1;
        }
        proof {
            assert forall|j: int|
                0 <= j < len && #[trigger] self.states@[j] == NonceState::Available implies self.cached_nonces@[j] is Some by {
                assert(slots0[j].state == NonceState::Available);
            }
            assert forall|j: int|
                0 <= j < len && #[trigger] self.states@[j] == NonceState::InFlight implies self.last_used@[j] is Some by {
                assert(slots0[j].state == NonceState::InFlight);
            }
            self.lemma_wf_from_columns();
            assert forall|j: int| 0 <= j < len implies #[trigger] self@.slots[j] == after_stuck_check(
                slots0,
                e,
            )[j] by {
                assert(self.states@[j] == if is_stuck(slots0[j], e[j] as int) {
                    NonceState::RequiresAdvance
                } else {
                    old(self).states@[j]
                });
            }
            assert(self@.slots =~= after_stuck_check(slots0, e));
        }
    }

    /// Forces the advance of every account that has been in flight for
    /// longer than the limit (`stuck_after`), as read on the clock. The clock
    /// is read once for each in-flight account with a recorded use, and the
    /// accounts marked and queued are exactly the stuck ones under those
    /// readings (`queue_stuck`).
    pub fn collect_stuck(&mut self)
        requires
            old(self).wf(),
        ensures
            final(self).wf(),
            old(self)@.steps_to(final(self)@),
            final(self)@.cursor == old(self)@.cursor,
            exists|elapsed_ms: Seq<u128>|
                #![trigger stuck_accounts(old(self)@.slots, elapsed_ms, old(self)@.slots.len())]
                {
                    &&& elapsed_ms.len() == old(self)@.slots.len()
                    &&& final(self)@.slots == after_stuck_check(old(self)@.slots, elapsed_ms)
                    &&& final(self)@.queue == old(self)@.queue + stuck_accounts(
                        old(self)@.slots,
                        elapsed_ms,
                        old(self)@.slots.len(),
                    )
                },
            final(self)@.slots.len() == old(self)@.slots.len(),
            final(self)@.queue.len() >= old(self)@.queue.len(),
            final(self)@.queue.subrange(0, old(self)@.queue.len() as int) == old(self)@.queue,
            forall|j: int|
                old(self)@.queue.len() <= j < final(self)@.queue.len() ==> {
                    &&& old(self)@.slots[#[trigger] final(self)@.queue[j] as int].state
                        == NonceState::InFlight
                    &&& old(self)@.slots[final(self)@.queue[j] as int].used
                    &&& final(self)@.slots[final(self)@.queue[j] as int].state
                        == NonceState::RequiresAdvance
                },
            forall|j: int, l: int|
                old(self)@.queue.len() <= j < l < final(self)@.queue.len()
                    ==> #[trigger] final(self)@.queue[j] < #[trigger] final(self)@.queue[l],
    {
        proof {
            self.lemma_columns_from_wf();
        }
        let len = self.states.len();
        let mut readings: Vec<u128> = Vec::new();
        let mut i: usize = 0;
        while i < len
            invariant
                len == self.states@.len(),
                len == self.last_used@.len(),
                i <= len,
                readings@.len() == i,
            decreases len - i,
        {
            let reading: u128 = if self.states[i] == NonceState::InFlight {
                match &self.last_used[i] {
                    Some(last_used) => elapsed_millis(last_used),
                    None => 0,
                }
            } else {
                0
            };
            readings.push(reading);
            i = i + 1;
        }
        let ghost slots0 = self@.slots;
        let ghost q0 = self@.queue;
        self.queue_stuck(&readings);
        proof {
            let st = stuck_accounts(slots0, readings@, slots0.len());
            lemma_stuck_accounts(slots0, readings@, slots0.len());
            assert(self@.queue.subrange(0, q0.len() as int) =~= q0);
            assert forall|j: int| q0.len() <= j < self@.queue.len() implies {
                &&& slots0[#[trigger] self@.queue[j] as int].state == NonceState::InFlight
                &&& slots0[self@.queue[j] as int].used
                &&& self@.slots[self@.queue[j] as int].state == NonceState::RequiresAdvance
            } by {
                assert(self@.queue[j] == st[j - q0.len()]);
            }
            assert forall|j: int, l: int| q0.len() <= j < l < self@.queue.len() implies #[trigger] self@.queue[j]
                < #[trigger] self@.queue[l] by {
                assert(self@.queue[j] == st[j - q0.len()]);
                assert(self@.queue[l] == st[l - q0.len()]);
            }
        }
    }

    /// Whether account `index` counts as stuck when its last use was
    /// `elapsed_ms` milliseconds ago.
    pub fn stuck_after(&self, index: usize, elapsed_ms: u128) -> (stuck: bool)
        requires
            self.wf(),
            index < self@.slots.len(),
        ensures
            stuck == is_stuck(self@.slots[index as int], elapsed_ms as int),
    {
        self.states[index] == NonceState::InFlight && self.last_used[index].is_some() && elapsed_ms
            > STUCK_IN_FLIGHT_MS as u128
    }

    /// The public key of account `index`, as its bytes.
    pub fn pubkey(&self, index: usize) -> (key: [u8; 32])
        requires
            self.wf(),
            index < self@.slots.len(),
        ensures
            key == self@.slots[index as int].pubkey,
    {
        self.pubkeys[index]
    }

    /// The keypair that has authority over account `index`.
    pub fn authority(&self, index: usize) -> (authority: &Keypair)
        requires
            self.wf(),
            index < self@.slots.len(),
        ensures
            *authority == self@.slots[index as int].authority,
    {
        &self.authorities[index]
    }

    /// The nonce hash cached for account `index`, if it has been advanced.
    pub fn cached_nonce(&self, index: usize) -> (hash: Option<[u8; 32]>)
        requires
            self.wf(),
            index < self@.slots.len(),
        ensures
            hash == self@.slots[index as int].cached_nonce,
    {
        self.cached_nonces[index]
    }

    /// The state of account `index`.
    pub fn state(&self, index: usize) -> (state: NonceState)
        requires
            self.wf(),
            index < self@.slots.len(),
        ensures
            state == self@.slots[index as int].state,
    {
        self.states[index]
    }

    /// Returns the total number of nonces in the pool.
    pub fn get_pool_size(&self) -> (n: usize)
        requires
            self.wf(),
        ensures
            n == self@.slots.len(),
    {
        self.states.len()
    }
}

} // verus!
