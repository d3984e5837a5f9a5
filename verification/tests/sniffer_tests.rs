use bocik::sniffer::{
    log_pubkeys, next_reconnect_delay, parse_pump_fun_logs, window_expired, SeenMints,
    INITIAL_RECONNECT_DELAY_MS, MAX_RECONNECT_DELAY_MS, PUMP_FUN_PROGRAM_ID,
};
use solana_sdk::pubkey::Pubkey;

fn key() -> String {
    Pubkey::new_unique().to_string()
}

#[test]
fn create_logs_yield_first_and_fourth_key() {
    let (mint, curve, assoc, creator) = (key(), key(), key(), key());
    let logs = vec![
        "Program log: Instruction: Create".to_string(),
        format!("Program log: mint {} curve {}", mint, curve),
        format!("Program log: {} by {}", assoc, creator),
    ];
    let candidate = parse_pump_fun_logs(&logs).unwrap();
    assert_eq!(candidate.mint, mint);
    assert_eq!(candidate.creator, creator);
    assert_eq!(candidate.program_id, PUMP_FUN_PROGRAM_ID);
}

#[test]
fn logs_without_create_are_ignored() {
    let logs = vec![
        "Program log: Instruction: Buy".to_string(),
        format!("{} {} {} {}", key(), key(), key(), key()),
    ];
    assert!(parse_pump_fun_logs(&logs).is_none());
}

#[test]
fn fewer_than_four_keys_are_ignored() {
    let logs = vec![format!("Program log: Instruction: Create {} {} {}", key(), key(), key())];
    assert!(parse_pump_fun_logs(&logs).is_none());
}

#[test]
fn empty_logs_are_ignored() {
    let logs: Vec<String> = Vec::new();
    assert!(parse_pump_fun_logs(&logs).is_none());
}

#[test]
fn runs_that_do_not_decode_are_skipped() {
    // 40 base58 characters that decode to more than 32 bytes.
    let too_big = "z".repeat(40);
    let k = key();
    let line = format!("{} {}", too_big, k);
    assert_eq!(log_pubkeys(&line), vec![k]);
}

#[test]
fn short_runs_and_non_alphabet_characters_split_keys() {
    let k = key();
    // '0', 'O', 'I' and 'l' are outside the base58 alphabet.
    let line = format!("0{}O abcdefIl{}", k, "2".repeat(31));
    assert_eq!(log_pubkeys(&line), vec![k]);
}

#[test]
fn long_runs_are_cut_at_forty_four_characters() {
    // A 44-character key followed directly by more alphabet characters:
    // the first match is the key, the rest is too short to match.
    let k = PUMP_FUN_PROGRAM_ID.to_string();
    let line = format!("{}abc", k);
    assert_eq!(log_pubkeys(&line), vec![k]);
}

#[test]
fn reconnect_delay_doubles_up_to_the_cap() {
    assert_eq!(next_reconnect_delay(INITIAL_RECONNECT_DELAY_MS), 1_000);
    assert_eq!(next_reconnect_delay(7_000), 14_000);
    assert_eq!(next_reconnect_delay(7_500), MAX_RECONNECT_DELAY_MS);
    assert_eq!(next_reconnect_delay(MAX_RECONNECT_DELAY_MS), MAX_RECONNECT_DELAY_MS);
    assert_eq!(next_reconnect_delay(u64::MAX), MAX_RECONNECT_DELAY_MS);
    assert_eq!(next_reconnect_delay(0), 0);
}

#[test]
fn dedup_window_expires_after_a_minute() {
    assert!(!window_expired(60_000));
    assert!(window_expired(60_001));
}

#[test]
fn mints_are_reported_once_per_window() {
    let mut seen = SeenMints::new();
    assert!(seen.record_mint("a".to_string()));
    assert!(seen.record_mint("b".to_string()));
    assert!(!seen.record_mint("a".to_string()));
    assert!(seen.contains(&"b".to_string()));
    assert!(!seen.first_sighting("b".to_string()));
    assert!(seen.first_sighting("c".to_string()));
    seen.reset();
    assert!(seen.first_sighting("a".to_string()));
}

#[test]
fn window_age_decides_repeat_sightings() {
    let mut seen = SeenMints::new();
    assert!(seen.first_sighting_after("a".to_string(), 0));
    assert!(seen.first_sighting_after("b".to_string(), 59_999));
    // Still within the window: a repeat is refused and nothing is forgotten.
    assert!(!seen.first_sighting_after("a".to_string(), 60_000));
    assert!(seen.contains(&"b".to_string()));
    // Past the window: it restarts with the mint alone.
    assert!(seen.first_sighting_after("a".to_string(), 60_001));
    assert!(!seen.contains(&"b".to_string()));
    assert!(seen.contains(&"a".to_string()));
    assert!(!seen.first_sighting_after("a".to_string(), 0));
}
