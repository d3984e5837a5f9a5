use bocik::execution::rpc_manager::{build_leader_schedule, infer_location_from_url};
use bocik::execution::rpc_manager::metrics::metrics;
use solana_sdk::pubkey::Pubkey;

#[test]
fn location_is_inferred_from_provider_name() {
    assert_eq!(
        infer_location_from_url("https://mainnet.helius-rpc.com/?api-key=x"),
        Some("us-east".to_string())
    );
    assert_eq!(infer_location_from_url("https://rpc.triton.one"), Some("us-west".to_string()));
    assert_eq!(
        infer_location_from_url("https://example.quicknode.pro/abc"),
        Some("global".to_string())
    );
    assert_eq!(infer_location_from_url("https://api.mainnet-beta.solana.com"), None);
}

#[test]
fn location_prefers_first_matching_provider() {
    assert_eq!(
        infer_location_from_url("https://triton-via-helius.example"),
        Some("us-east".to_string())
    );
}

#[test]
fn leader_schedule_maps_slots_to_validators() {
    let a = Pubkey::new_unique();
    let b = Pubkey::new_unique();
    let entries = vec![
        (a.to_string(), vec![1usize, 2, 3]),
        ("not a key".to_string(), vec![4usize]),
        (b.to_string(), vec![3usize, 5]),
    ];
    let schedule = build_leader_schedule(&entries);
    assert_eq!(schedule.len(), 4);
    assert_eq!(schedule.get(&1), Some(&a.to_bytes()));
    assert_eq!(schedule.get(&2), Some(&a.to_bytes()));
    assert_eq!(schedule.get(&3), Some(&b.to_bytes()));
    assert_eq!(schedule.get(&4), None);
    assert_eq!(schedule.get(&5), Some(&b.to_bytes()));
}

#[test]
fn metrics_accepts_gauges() {
    metrics().set_gauge("rpc_endpoint_latency_ewma_ms{url=\"x\"}", 250);
}
