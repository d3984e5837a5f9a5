use bocik::sniffer::key_match_spans;

/// Characters to draw from: the base58 alphabet, its four excluded
/// look-alikes, and separators.
const POOL: &[u8] = b"123456789ABCDEFGHJKLMNPQRSTUVWXYZabcdefghijkmnopqrstuvwxyz0OIl :/,-_";

fn matches_by_scanner(text: &str) -> Vec<String> {
    let chars: Vec<char> = text.chars().collect();
    key_match_spans(&chars)
        .into_iter()
        .map(|(start, len)| chars[start..start + len].iter().collect())
        .collect()
}

fn matches_by_regex(text: &str) -> Vec<String> {
    let re = regex::Regex::new(r"[1-9A-HJ-NP-Za-km-z]{32,44}").unwrap();
    re.find_iter(text).map(|m| m.as_str().to_string()).collect()
}

#[test]
fn scanner_agrees_with_key_pattern_on_random_text() {
    let mut rng = fastrand::Rng::with_seed(7);
    for _ in 0..2_000 {
        let len = rng.usize(0..200);
        let mut text = String::new();
        for _ in 0..len {
            // Long base58 stretches are likelier than a uniform draw gives.
            let c = if rng.u8(0..4) == 0 {
                POOL[rng.usize(58..POOL.len())]
            } else {
                POOL[rng.usize(0..58)]
            };
            text.push(c as char);
        }
        assert_eq!(matches_by_scanner(&text), matches_by_regex(&text), "text: {}", text);
    }
}

#[test]
fn scanner_splits_long_runs_like_the_key_pattern() {
    for n in [31usize, 32, 44, 45, 75, 76, 88, 120] {
        let text = format!("x{}y", "9".repeat(n));
        assert_eq!(matches_by_scanner(&text), matches_by_regex(&text), "run of {}", n);
    }
}

#[test]
fn scanner_handles_multibyte_characters() {
    let text = format!("é{}ü{}", "a".repeat(40), "b".repeat(33));
    assert_eq!(matches_by_scanner(&text), matches_by_regex(&text));
    assert_eq!(matches_by_scanner(&text).len(), 2);
}
