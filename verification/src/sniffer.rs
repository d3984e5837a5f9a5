//! Target acquisition: recognising pump.fun token creations in transaction
//! logs, suppressing candidates already seen within the deduplication
//! window, and pacing reconnections to the log stream.
//!
//! Public keys are found in the logs as runs of base58 characters: a match
//! is 32 to 44 consecutive characters of the base58 alphabet, taken leftmost
//! first and as long as possible, and scanning resumes after each match.
//! A match counts as a key only if it decodes to a 32-byte public key.

use crate::clock::{elapsed_nanos, instant_now};
use crate::keys::{parse_pubkey, pubkey_from_text};
use crate::state::SnifferCandidate;
use crate::text::{contains_fragment, str_contains};
use std::time::Instant;
use vstd::prelude::*;
use vstd::string::StrSliceExecFns;

verus! {

/// The on-chain address of the pump.fun program.
pub const PUMP_FUN_PROGRAM_ID: &'static str = "675kPX9MHTjS2zt1qfr1NYHuzeLXfQM9H24wFSUt1Mp8";

/// The log line that marks a token creation.
pub const CREATE_INSTRUCTION_LOG: &'static str = "Instruction: Create";

/// How long a seen mint is remembered.
pub const DEDUPLICATION_TTL_MS: u64 = 60_000;

/// Fewest characters of a key match.
pub const MIN_KEY_CHARS: usize = 32;

/// Most characters of a key match.
pub const MAX_KEY_CHARS: usize = 44;

/// First wait before reconnecting to the log stream.
pub const INITIAL_RECONNECT_DELAY_MS: u64 = 500;

/// Longest wait before reconnecting to the log stream.
pub const MAX_RECONNECT_DELAY_MS: u64 = 15_000;

/// Whether `c` belongs to the base58 alphabet `[1-9A-HJ-NP-Za-km-z]`.
pub open spec fn is_base58_char(c: char) -> bool {
    ||| ('1' <= c && c <= '9')
    ||| ('A' <= c && c <= 'H')
    ||| ('J' <= c && c <= 'N')
    ||| ('P' <= c && c <= 'Z')
    ||| ('a' <= c && c <= 'k')
    ||| ('m' <= c && c <= 'z')
}

/// The number of consecutive base58 characters of `s` from position `i`,
/// counting at most `cap`.
pub open spec fn base58_run(s: Seq<char>, i: int, cap: nat) -> nat
    decreases cap,
{
    if cap == 0 || i < 0 || i >= s.len() || !is_base58_char(s[i]) {
        0
    } else {
        1 + base58_run(s, i + 1, (cap - 1) as nat)
    }
}

/// The key matches of `s` from position `i` on.
pub open spec fn key_matches_from(s: Seq<char>, i: int) -> Seq<Seq<char>>
    decreases s.len() - i,
{
    if i < 0 || i >= s.len() {
        Seq::empty()
    } else if !is_base58_char(s[i]) {
        key_matches_from(s, i + 1)
    } else {
        let l = 1 + base58_run(s, i + 1, (MAX_KEY_CHARS - 1) as nat);
        proof {
            lemma_run_bounded(s, i + 1, (MAX_KEY_CHARS - 1) as nat);
        }
        if l >= MIN_KEY_CHARS {
            seq![s.subrange(i, i + l)] + key_matches_from(s, i + l)
        } else {
            key_matches_from(s, i + l)
        }
    }
}

/// The key matches of a log line, in order.
pub open spec fn key_matches(s: Seq<char>) -> Seq<Seq<char>> {
    key_matches_from(s, 0)
}

/// The matches that decode as public keys, in order.
pub open spec fn decodable_keys(matches: Seq<Seq<char>>) -> Seq<Seq<char>>
    decreases matches.len(),
{
    if matches.len() == 0 {
        Seq::empty()
    } else {
        let rest = decodable_keys(matches.drop_last());
        if pubkey_from_text(matches.last()) is Some {
            rest.push(matches.last())
        } else {
            rest
        }
    }
}

/// The public keys mentioned across log lines, in order.
pub open spec fn logs_pubkeys(logs: Seq<Seq<char>>) -> Seq<Seq<char>>
    decreases logs.len(),
{
    if logs.len() == 0 {
        Seq::empty()
    } else {
        logs_pubkeys(logs.drop_last()) + decodable_keys(key_matches(logs.last()))
    }
}

/// Whether some log line reports a token creation.
pub open spec fn creates_token(logs: Seq<Seq<char>>) -> bool {
    exists|i: int| 0 <= i < logs.len() && contains_fragment(logs[i], CREATE_INSTRUCTION_LOG@)
}

/// The mint and creator a creation's logs announce: in a pump.fun create
/// transaction the first key mentioned is the new mint and the fourth its
/// creator (the second and third are its bonding curve accounts).
pub open spec fn announced_token(logs: Seq<Seq<char>>) -> Option<(Seq<char>, Seq<char>)> {
    let keys = logs_pubkeys(logs);
    if creates_token(logs) && keys.len() >= 4 {
        Some((keys[0], keys[3]))
    } else {
        None
    }
}

/// The keys mentioned across two runs of log lines are those of the first
/// followed by those of the second.
pub proof fn lemma_logs_pubkeys_concat(first: Seq<Seq<char>>, more: Seq<Seq<char>>)
    ensures
        logs_pubkeys(first + more) == logs_pubkeys(first) + logs_pubkeys(more),
    decreases more.len(),
{
    if more.len() == 0 {
        assert(first + more =~= first);
        assert(logs_pubkeys(first) + logs_pubkeys(more) =~= logs_pubkeys(first));
    } else {
        assert((first + more).drop_last() =~= first + more.drop_last());
        assert((first + more).last() == more.last());
        lemma_logs_pubkeys_concat(first, more.drop_last());
        assert(logs_pubkeys(first + more) =~= logs_pubkeys(first) + logs_pubkeys(more));
    }
}

/// A token creation is announced exactly when some line reports a `Create`
/// instruction and at least four public keys are mentioned; then the mint
/// is the first key mentioned across the lines in order, and the creator
/// the fourth, whatever follows.
pub proof fn law_creation_names_first_and_fourth_key(logs: Seq<Seq<char>>)
    ensures
        announced_token(logs) is Some <==> (creates_token(logs) && logs_pubkeys(logs).len() >= 4),
        announced_token(logs) matches Some((mint, creator)) ==> mint == logs_pubkeys(logs)[0]
            && creator == logs_pubkeys(logs)[3],
{
}

/// Once the logs report a creation and mention four keys, further log
/// lines, with whatever keys, do not change the announced mint or creator.
pub proof fn law_later_lines_keep_the_candidate(logs: Seq<Seq<char>>, more: Seq<Seq<char>>)
    requires
        creates_token(logs),
        logs_pubkeys(logs).len() >= 4,
    ensures
        announced_token(logs + more) == announced_token(logs),
{
    lemma_logs_pubkeys_concat(logs, more);
    let i = choose|i: int| 0 <= i < logs.len() && contains_fragment(logs[i], CREATE_INSTRUCTION_LOG@);
    assert((logs + more)[i] == logs[i]);
    let keys = logs_pubkeys(logs);
    let all = logs_pubkeys(logs + more);
    assert(all[0] == keys[0]);
    assert(all[3] == keys[3]);
}

/// The character views of log lines.
pub open spec fn log_views(logs: Seq<String>) -> Seq<Seq<char>> {
    logs.map_values(|l: String| l@)
}

/// The texts of the spans `(start, length)` of `s`.
pub open spec fn span_texts(s: Seq<char>, spans: Seq<(usize, usize)>) -> Seq<Seq<char>> {
    Seq::new(spans.len(), |j: int| s.subrange(spans[j].0 as int, spans[j].0 + spans[j].1))
}

fn is_base58(c: char) -> (b: bool)
    ensures
        b == is_base58_char(c),
{
    ('1' <= c && c <= '9') || ('A' <= c && c <= 'H') || ('J' <= c && c <= 'N') || ('P' <= c && c
        <= 'Z') || ('a' <= c && c <= 'k') || ('m' <= c && c <= 'z')
}

/// A run of base58 characters ends within the text and within its cap.
pub proof fn lemma_run_bounded(s: Seq<char>, i: int, cap: nat)
    ensures
        base58_run(s, i, cap) <= cap,
        0 <= i ==> i + base58_run(s, i, cap) <= s.len() || base58_run(s, i, cap) == 0,
    decreases cap,
{
    if cap > 0 {
        lemma_run_bounded(s, i + 1, (cap - 1) as nat);
    }
}

/// The spans of the key matches of `chars`, as (start, length) pairs.
pub fn key_match_spans(chars: &Vec<char>) -> (spans: Vec<(usize, usize)>)
    ensures
        span_texts(chars@, spans@) == key_matches(chars@),
        forall|j: int|
            0 <= j < spans@.len() ==> #[trigger] spans@[j].0 + spans@[j].1 <= chars@.len(),
{
    let n = chars.len();
    let mut spans: Vec<(usize, usize)> = Vec::new();
    let mut i: usize = 0;
    while i < n
        invariant
            n == chars@.len(),
            i <= n,
            span_texts(chars@, spans@) + key_matches_from(chars@, i as int) == key_matches(
                chars@,
            ),
            forall|j: int|
                0 <= j < spans@.len() ==> #[trigger] spans@[j].0 + spans@[j].1 <= chars@.len(),
        decreases n - i,
    {
        if !is_base58(chars[i]) {
            i = i + 1;
        } else {
            let mut j: usize = i;
            while j < n && j - i < MAX_KEY_CHARS && is_base58(chars[j])
                invariant
                    n == chars@.len(),
                    i < n,
                    i <= j <= n,
                    j - i <= MAX_KEY_CHARS,
                    base58_run(chars@, i as int, MAX_KEY_CHARS as nat) == (j - i) + base58_run(
                        chars@,
                        j as int,
                        (MAX_KEY_CHARS - (j - i)) as nat,
                    ),
                decreases n - j,
            {
                j = j + 1;
            }
            let l = j - i;
            proof {
                lemma_run_bounded(chars@, i as int, MAX_KEY_CHARS as nat);
            }
            assert(l == base58_run(chars@, i as int, MAX_KEY_CHARS as nat));
            assert(l == 1 + base58_run(chars@, i + 1, (MAX_KEY_CHARS - 1) as nat));
            let ghost before = span_texts(chars@, spans@);
            if l >= MIN_KEY_CHARS {
                spans.push((i, l));
                assert(span_texts(chars@, spans@) =~= before.push(
                    chars@.subrange(i as int, i + l),
                ));
                assert(before.push(chars@.subrange(i as int, i + l)) + key_matches_from(
                    chars@,
                    i + l,
                ) =~= before + (seq![chars@.subrange(i as int, i + l)] + key_matches_from(
                    chars@,
                    i + l,
                )));
            }
            i = j;
        }
    }
    assert(span_texts(chars@, spans@) + key_matches_from(chars@, n as int) =~= span_texts(
        chars@,
        spans@,
    ));
    spans
}

/// The public keys mentioned in one log line, in order: the key matches
/// that decode as public keys.
pub fn log_pubkeys(log: &String) -> (keys: Vec<String>)
    ensures
        keys@.map_values(|k: String| k@) == decodable_keys(key_matches(log@)),
{
    let text = log.as_str();
    let chars = crate::text::chars_of(text);
    let spans = key_match_spans(&chars);
    let n = chars.len();
    let mut keys: Vec<String> = Vec::new();
    let mut j: usize = 0;
    while j < spans.len()
        invariant
            n == chars@.len(),
            chars@ == log@,
            text@ == log@,
            span_texts(chars@, spans@) == key_matches(chars@),
            forall|m: int|
                0 <= m < spans@.len() ==> #[trigger] spans@[m].0 + spans@[m].1 <= chars@.len(),
            j <= spans@.len(),
            keys@.map_values(|k: String| k@) == decodable_keys(
                key_matches(chars@).take(j as int),
            ),
        decreases spans@.len() - j,
    {
        let (start, len) = spans[j];
        let piece = text.substring_char(start, start + len);
        assert(piece@ == key_matches(chars@)[j as int]);
        assert(key_matches(chars@).take(j + 1).drop_last() =~= key_matches(chars@).take(
            j as int,
        ));
        if parse_pubkey(piece).is_some() {
            let key = piece.to_owned();
            let ghost before = keys@.map_values(|k: String| k@);
            keys.push(key);
            assert(keys@.map_values(|k: String| k@) =~= before.push(piece@));
        }
        j = j + 1;
    }
    assert(key_matches(chars@).take(spans@.len() as int) =~= key_matches(chars@));
    keys
}

/// Whether some log line reports a token creation.
fn any_creates_token(logs: &[String]) -> (found: bool)
    ensures
        found == creates_token(log_views(logs@)),
{
    let mut i: usize = 0;
    while i < logs.len()
        invariant
            i <= logs@.len(),
            forall|k: int|
                0 <= k < i ==> !contains_fragment(
                    #[trigger] log_views(logs@)[k],
                    CREATE_INSTRUCTION_LOG@,
                ),
        decreases logs@.len() - i,
    {
        if str_contains(logs[i].as_str(), CREATE_INSTRUCTION_LOG) {
            assert(log_views(logs@)[i as int] == logs@[i as int]@);
            return true;
        }
        assert(log_views(logs@)[i as int] == logs@[i as int]@);
        i = i + 1;
    }
    false
}

/// Parses the logs of a transaction for a pump.fun token creation: when a
/// line reports a `Create` instruction and the logs mention at least four
/// public keys, the first is the new mint and the fourth its creator.
pub fn parse_pump_fun_logs(logs: &[String]) -> (candidate: Option<SnifferCandidate>)
    ensures
        match candidate {
            None => announced_token(log_views(logs@)) is None,
            Some(c) => {
                &&& announced_token(log_views(logs@)) == Some((c.mint@, c.creator@))
                &&& c.program_id@ == PUMP_FUN_PROGRAM_ID@
            },
        },
{
    if !any_creates_token(logs) {
        return None;
    }
    let mut keys: Vec<String> = Vec::new();
    let mut i: usize = 0;
    while i < logs.len()
        invariant
            i <= logs@.len(),
            keys@.map_values(|k: String| k@) == logs_pubkeys(log_views(logs@).take(i as int)),
        decreases logs@.len() - i,
    {
        let ghost before = keys@.map_values(|k: String| k@);
        let mut line_keys = log_pubkeys(&logs[i]);
        let ghost added = line_keys@.map_values(|k: String| k@);
        keys.append(&mut line_keys);
        assert(keys@.map_values(|k: String| k@) =~= before + added);
        assert(log_views(logs@).take(i + 1).drop_last() =~= log_views(logs@).take(i as int));
        assert(log_views(logs@).take(i + 1).last() == logs@[i as int]@);
        i = i + 1;
    }
    assert(log_views(logs@).take(logs@.len() as int) =~= log_views(logs@));
    if keys.len() >= 4 {
        let mint = keys[0].clone();
        let creator = keys[3].clone();
        assert(keys@.map_values(|k: String| k@)[0] == keys@[0]@);
        assert(keys@.map_values(|k: String| k@)[3] == keys@[3]@);
        Some(SnifferCandidate { mint, creator, program_id: PUMP_FUN_PROGRAM_ID.to_owned() })
    } else {
        None
    }
}

/// The wait before the next reconnection attempt after one that failed
/// after waiting `current_ms`: double it, up to the maximum.
pub fn next_reconnect_delay(current_ms: u64) -> (next_ms: u64)
    ensures
        next_ms == if 2 * current_ms < MAX_RECONNECT_DELAY_MS {
            2 * current_ms
        } else {
            MAX_RECONNECT_DELAY_MS as int
        },
{
    if current_ms < MAX_RECONNECT_DELAY_MS / 2 {
        current_ms * 2
    } else {
        MAX_RECONNECT_DELAY_MS
    }
}

/// Whether a deduplication window that opened `elapsed_ms` ago is over.
pub fn window_expired(elapsed_ms: u128) -> (expired: bool)
    ensures
        expired == (elapsed_ms > DEDUPLICATION_TTL_MS),
{
    elapsed_ms > DEDUPLICATION_TTL_MS as u128
}

/// The deduplication period in nanoseconds.
pub open spec fn ttl_ns() -> int {
    DEDUPLICATION_TTL_MS * 1_000_000
}

/// How long a window opened at time `opened` has been open at time `now`
/// (times in nanoseconds on one clock; 0 for a time before the opening).
pub open spec fn window_age_ns(opened: int, now: int) -> int {
    if now > opened {
        now - opened
    } else {
        0
    }
}

/// A sighting of `mint` at time `now` in a window holding `seen` that opened
/// at time `opened` (nanoseconds on one clock): the window's mints and
/// opening time afterwards, and whether the mint is accepted. A window open
/// longer than the deduplication period restarts at `now` with the mint
/// alone; otherwise a mint already in it is refused and a new one joins it.
pub open spec fn sighting_at(seen: Seq<Seq<char>>, opened: int, mint: Seq<char>, now: int) -> (
    Seq<Seq<char>>,
    int,
    bool,
) {
    if window_age_ns(opened, now) > ttl_ns() {
        (seq![mint], now, true)
    } else if seen.contains(mint) {
        (seen, opened, false)
    } else {
        (seen.push(mint), opened, true)
    }
}

/// The time `elapsed_ms` milliseconds after `opened` (in nanoseconds),
/// capped at the largest time a `u128` holds.
pub open spec fn later_by_ms(opened: int, elapsed_ms: int) -> int {
    if opened + elapsed_ms * 1_000_000 <= u128::MAX {
        opened + elapsed_ms * 1_000_000
    } else {
        u128::MAX as int
    }
}

/// Mints seen in the current deduplication window, with the window's
/// opening time in nanoseconds since the set was made.
#[derive(Debug)]
pub struct SeenMints {
    mints: Vec<String>,
    origin: Instant,
    opened_ns: u128,
}

impl View for SeenMints {
    type V = Seq<Seq<char>>;

    closed spec fn view(&self) -> Seq<Seq<char>> {
        self.mints@.map_values(|m: String| m@)
    }
}

impl SeenMints {
    /// The invariant: no mint is remembered twice.
    pub open spec fn wf(&self) -> bool {
        self@.no_duplicates()
    }

    /// When the current window opened, in nanoseconds since the set was
    /// made.
    pub closed spec fn opened_ns(&self) -> int {
        self.opened_ns as int
    }

    /// An empty window opening now, at time 0 of the set's clock.
    pub fn new() -> (seen: Self)
        ensures
            seen@.len() == 0,
            seen.wf(),
            seen.opened_ns() == 0,
    {
        let seen = SeenMints { mints: Vec::new(), origin: instant_now(), opened_ns: 0 };
        assert(seen@ =~= Seq::<Seq<char>>::empty());
        seen
    }

    /// Whether `mint` was seen in the current window.
    pub fn contains(&self, mint: &String) -> (seen: bool)
        ensures
            seen == self@.contains(mint@),
    {
        let mut i: usize = 0;
        while i < self.mints.len()
            invariant
                i <= self.mints@.len(),
                self@.len() == self.mints@.len(),
                forall|k: int| 0 <= k < i ==> #[trigger] self@[k] != mint@,
            decreases self.mints@.len() - i,
        {
            assert(self@[i as int] == self.mints@[i as int]@);
            if self.mints[i] == *mint {
                return true;
            }
            i = i + 1;
        }
        false
    }

    /// Remembers `mint`, and says whether it is new to the window.
    pub fn record_mint(&mut self, mint: String) -> (fresh: bool)
        requires
            old(self).wf(),
        ensures
            final(self).wf(),
            fresh == !old(self)@.contains(mint@),
            final(self)@ == if fresh {
                old(self)@.push(mint@)
            } else {
                old(self)@
            },
            final(self).opened_ns() == old(self).opened_ns(),
    {
        if self.contains(&mint) {
            false
        } else {
            let ghost before = self@;
            self.mints.push(mint);
            assert(self@ =~= before.push(mint@));
            true
        }
    }

    /// Forgets every mint and opens a new window now, as read on the clock.
    pub fn reset(&mut self)
        ensures
            final(self)@.len() == 0,
            final(self).wf(),
    {
        self.mints = Vec::new();
        self.opened_ns = elapsed_nanos(&self.origin);
        assert(self@ =~= Seq::<Seq<char>>::empty());
    }

    /// Accepts `mint` unless it was already seen in the current window,
    /// the sighting taking place at time `now_ns` (nanoseconds since the set
    /// was made): a window open longer than the deduplication period is
    /// first emptied and reopened at `now_ns`. Says whether the mint was
    /// accepted.
    pub fn first_sighting_at(&mut self, mint: String, now_ns: u128) -> (fresh: bool)
        requires
            old(self).wf(),
        ensures
            final(self).wf(),
            (final(self)@, final(self).opened_ns(), fresh) == sighting_at(
                old(self)@,
                old(self).opened_ns(),
                mint@,
                now_ns as int,
            ),
    {
        let age: u128 = if now_ns > self.opened_ns {
            now_ns - self.opened_ns
        } else {
            0
        };
        if age > DEDUPLICATION_TTL_MS as u128 * 1_000_000 {
            self.mints = Vec::new();
            self.opened_ns = now_ns;
            assert(self@ =~= Seq::<Seq<char>>::empty());
        }
        let ghost before = self@;
        let fresh = self.record_mint(mint);
        proof {
            if age > DEDUPLICATION_TTL_MS * 1_000_000 {
                assert(before.push(mint@) =~= seq![mint@]);
            }
        }
        fresh
    }

    /// Accepts `mint` unless it was already seen in the current window,
    /// given that the window opened `elapsed_ms` milliseconds ago: a window
    /// older than the deduplication period is first emptied and reopened at
    /// this sighting, `elapsed_ms` after its previous opening. Says whether
    /// the mint was accepted.
    pub fn first_sighting_after(&mut self, mint: String, elapsed_ms: u128) -> (fresh: bool)
        requires
            old(self).wf(),
        ensures
            final(self).wf(),
            (final(self)@, fresh) == sighting(old(self)@, mint@, elapsed_ms as int),
            final(self).opened_ns() == if elapsed_ms > DEDUPLICATION_TTL_MS {
                later_by_ms(old(self).opened_ns(), elapsed_ms as int)
            } else {
                old(self).opened_ns()
            },
    {
        if window_expired(elapsed_ms) {
            let step: u128 = if elapsed_ms <= u128::MAX / 1_000_000 {
                elapsed_ms * 1_000_000
            } else {
                u128::MAX
            };
            proof {
                if elapsed_ms > u128::MAX / 1_000_000 {
                    assert(elapsed_ms * 1_000_000 > u128::MAX) by (nonlinear_arith)
                        requires
                            elapsed_ms > u128::MAX / 1_000_000,
                    ;
                }
            }
            let reopened: u128 = if self.opened_ns <= u128::MAX - step {
                self.opened_ns + step
            } else {
                u128::MAX
            };
            self.mints = Vec::new();
            self.opened_ns = reopened;
            assert(self@ =~= Seq::<Seq<char>>::empty());
        }
        let ghost before = self@;
        let fresh = self.record_mint(mint);
        proof {
            if elapsed_ms > DEDUPLICATION_TTL_MS {
                assert(before.push(mint@) =~= seq![mint@]);
            }
        }
        fresh
    }

    /// Accepts `mint` unless it was already seen in the current window, as
    /// `first_sighting_at` does at the time read on the clock. Says whether
    /// the mint was accepted.
    pub fn first_sighting(&mut self, mint: String) -> (fresh: bool)
        requires
            old(self).wf(),
        ensures
            final(self).wf(),
            exists|now_ns: u128|
                (final(self)@, final(self).opened_ns(), fresh) == #[trigger] sighting_at(
                    old(self)@,
                    old(self).opened_ns(),
                    mint@,
                    now_ns as int,
                ),
            exists|elapsed_ms: u128|
                (final(self)@, fresh) == #[trigger] sighting(old(self)@, mint@, elapsed_ms as int),
            final(self)@.contains(mint@),
            !fresh ==> old(self)@.contains(mint@) && final(self)@ == old(self)@,
            fresh ==> final(self)@ == old(self)@.push(mint@) || final(self)@ == seq![mint@],
            !old(self)@.contains(mint@) ==> fresh,
    {
        let now_ns = elapsed_nanos(&self.origin);
        let ghost m = mint@;
        let fresh = self.first_sighting_at(mint, now_ns);
        proof {
            let expired = window_age_ns(old(self).opened_ns(), now_ns as int) > ttl_ns();
            let e: u128 = if expired {
                60_001
            } else {
                0
            };
            assert(sighting(old(self)@, m, e as int) == (self@, fresh));
            assert(seq![m][0] == m);
            if !expired && !old(self)@.contains(m) {
                assert(old(self)@.push(m)[old(self)@.len() as int] == m);
            }
        }
        fresh
    }
}

/// A sighting that finds the window expired reopens it at its own time, so
/// a second sighting of the same mint less than the deduplication period
/// later is refused; and a window that has not expired keeps its opening
/// time, refusing a repeat as long as it stays open.
pub proof fn law_expired_window_reopens_at_the_sighting(
    seen: Seq<Seq<char>>,
    opened: int,
    mint: Seq<char>,
    now: int,
    later: int,
)
    ensures
        ({
            let (after, reopened, _) = sighting_at(seen, opened, mint, now);
            &&& window_age_ns(opened, now) > ttl_ns() ==> reopened == now
            &&& window_age_ns(opened, now) <= ttl_ns() ==> reopened == opened
            &&& (window_age_ns(opened, now) > ttl_ns() && now <= later && later - now <= ttl_ns())
                ==> !sighting_at(after, reopened, mint, later).2
            &&& window_age_ns(reopened, later) <= ttl_ns() ==> !sighting_at(
                after,
                reopened,
                mint,
                later,
            ).2
        }),
{
    let (after, reopened, _) = sighting_at(seen, opened, mint, now);
    if window_age_ns(opened, now) > ttl_ns() {
        assert(after[0] == mint);
    } else if !seen.contains(mint) {
        assert(after[seen.len() as int] == mint);
    }
}

/// A sighting of `mint` in a deduplication window holding `seen` that
/// opened `elapsed_ms` milliseconds ago: the window afterwards, and whether
/// the mint is accepted. An expired window restarts with the mint alone;
/// otherwise a mint already in the window is refused and a new one joins it.
pub open spec fn sighting(seen: Seq<Seq<char>>, mint: Seq<char>, elapsed_ms: int) -> (
    Seq<Seq<char>>,
    bool,
) {
    if elapsed_ms > DEDUPLICATION_TTL_MS {
        (seq![mint], true)
    } else if seen.contains(mint) {
        (seen, false)
    } else {
        (seen.push(mint), true)
    }
}

/// A mint is reported once per window: once it has been sighted, any later
/// sighting while the window has not expired is refused.
pub proof fn law_mint_reported_once(
    seen: Seq<Seq<char>>,
    mint: Seq<char>,
    first_elapsed_ms: int,
    later_elapsed_ms: int,
)
    requires
        later_elapsed_ms <= DEDUPLICATION_TTL_MS,
    ensures
        !sighting(sighting(seen, mint, first_elapsed_ms).0, mint, later_elapsed_ms).1,
{
    let after = sighting(seen, mint, first_elapsed_ms).0;
    if first_elapsed_ms > DEDUPLICATION_TTL_MS {
        assert(after[0] == mint);
    } else if !seen.contains(mint) {
        assert(after[seen.len() as int] == mint);
    }
}

} // verus!
