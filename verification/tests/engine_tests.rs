use bocik::config::{
    default_nonce_count, default_priority_fee_microlamports, default_rpc_endpoints,
    default_rpc_url, default_rpcs_per_nonce, default_wss_rpc_url,
};
use bocik::engine::{decide, next_mode, EngineAction, EngineInput, TradeOutcome};
use bocik::pumpfun_tx_builder::{buy_min_token_output, sell_min_sol_output};
use bocik::state::{Mode, SnifferCandidate};
use bocik::ui::sell_percent_for_key;
use bocik::wallet::{WalletError, WalletManager};
use solana_sdk::signature::Keypair;
use solana_sdk::signer::Signer;

fn candidate() -> SnifferCandidate {
    SnifferCandidate {
        mint: "mint".to_string(),
        creator: "creator".to_string(),
        program_id: "program".to_string(),
    }
}

#[test]
fn sniffing_buys_candidates_and_ignores_sells() {
    match decide(Mode::Sniffing, EngineInput::Candidate(candidate())) {
        EngineAction::Buy(c) => assert_eq!(c.mint, "mint"),
        other => panic!("unexpected {:?}", other),
    }
    assert!(matches!(decide(Mode::Sniffing, EngineInput::SellRequested), EngineAction::Ignore));
}

#[test]
fn holding_sells_and_ignores_candidates() {
    assert!(matches!(decide(Mode::Holding, EngineInput::SellRequested), EngineAction::Sell));
    assert!(matches!(
        decide(Mode::Holding, EngineInput::Candidate(candidate())),
        EngineAction::Ignore
    ));
}

#[test]
fn modes_follow_trades() {
    assert_eq!(next_mode(Mode::Sniffing, TradeOutcome::BuyConfirmed), Mode::Holding);
    assert_eq!(next_mode(Mode::Sniffing, TradeOutcome::BuyFailed), Mode::Sniffing);
    assert_eq!(
        next_mode(Mode::Holding, TradeOutcome::SellConfirmed { fully_sold: false }),
        Mode::Holding
    );
    assert_eq!(
        next_mode(Mode::Holding, TradeOutcome::SellConfirmed { fully_sold: true }),
        Mode::Sniffing
    );
    assert_eq!(next_mode(Mode::Holding, TradeOutcome::SellFailed), Mode::Holding);
}

#[test]
fn config_defaults() {
    assert_eq!(default_rpc_url(), "https://solana-devnet.g.alchemy.com/v2/rWsbieEnAlFuYs-KKUfv1");
    assert_eq!(
        default_wss_rpc_url(),
        "wss://devnet.helius-rpc.com/?api-key=18435404-2f2b-4046-b273-f66b7c488b9c"
    );
    assert_eq!(default_rpc_endpoints(), vec![default_rpc_url()]);
    assert_eq!(default_nonce_count(), 5);
    assert_eq!(default_rpcs_per_nonce(), 3);
    assert_eq!(default_priority_fee_microlamports(), 500_000);
}

#[test]
fn sell_shortcuts() {
    assert_eq!(sell_percent_for_key('W'), Some(25));
    assert_eq!(sell_percent_for_key('Q'), Some(50));
    assert_eq!(sell_percent_for_key('S'), Some(100));
    assert_eq!(sell_percent_for_key('X'), None);
}

#[test]
fn sell_quote_applies_curve_and_slippage() {
    // expected = 1_000 * 30_000 / (1_000_000 + 1_000) = 29; 29 * 9_900 / 10_000 = 28
    assert_eq!(sell_min_sol_output(1_000, 30_000, 1_000_000, 100), 28);
    assert_eq!(sell_min_sol_output(1_000, 30_000, 1_000_000, 0), 29);
    assert_eq!(sell_min_sol_output(1_000, 30_000, 1_000_000, 10_000), 0);
}

#[test]
fn wallet_loads_from_key_file_json() {
    let keypair = Keypair::new();
    let json = serde_json::to_string(&keypair.to_bytes().to_vec()).unwrap();
    let wallet = WalletManager::from_keypair_json(&json).unwrap();
    assert_eq!(wallet.pubkey(), keypair.pubkey().to_bytes());
}

#[test]
fn wallet_signs_with_the_loaded_keypair() {
    let keypair = Keypair::new();
    let json = serde_json::to_string(&keypair.to_bytes().to_vec()).unwrap();
    let wallet = WalletManager::from_keypair_json(&json).unwrap();
    assert_eq!(wallet.keypair().to_bytes().to_vec(), keypair.to_bytes().to_vec());
    assert_eq!(wallet.keypair().pubkey().to_bytes(), wallet.pubkey());
}

#[test]
fn wallet_rejects_bad_json_and_bad_keys() {
    assert_eq!(
        WalletManager::from_keypair_json("not json").err(),
        Some(WalletError::InvalidKeypairJson)
    );
    assert_eq!(WalletManager::from_keypair_json("[1,2,3]").err(), Some(WalletError::InvalidKeypair));
}

#[test]
fn buy_quote_applies_curve_and_slippage() {
    // 1000 * 30_000 / (1_000_000 + 1000) = 29, then 29 * 9900 / 10000 = 28.
    assert_eq!(buy_min_token_output(1_000, 1_000_000, 30_000, 100), 28);
    assert_eq!(buy_min_token_output(1_000, 1_000_000, 30_000, 0), 29);
    assert_eq!(buy_min_token_output(1_000, 1_000_000, 30_000, 10_000), 0);
    // An empty curve with nothing paid in cannot be priced, but paying into
    // an empty reserve gives everything it holds.
    assert_eq!(buy_min_token_output(5, 0, 40, 0), 40);
}

#[test]
fn wider_slippage_lowers_the_minimum() {
    let mut last = u64::MAX;
    for bps in [0u64, 50, 100, 500, 2_500, 10_000] {
        let min = buy_min_token_output(123_456, 9_876_543, 55_555_555, bps);
        assert!(min <= last);
        last = min;
    }
    assert_eq!(last, 0);
}

#[test]
fn any_valid_key_file_loads() {
    for _ in 0..20 {
        let keypair = Keypair::new();
        let json = serde_json::to_string(&keypair.to_bytes().to_vec()).unwrap();
        assert!(WalletManager::from_keypair_json(&json).is_ok());
    }
    // The right length with a public half that does not match is refused.
    let mut bytes = Keypair::new().to_bytes().to_vec();
    bytes[40] ^= 1;
    let json = serde_json::to_string(&bytes).unwrap();
    assert_eq!(WalletManager::from_keypair_json(&json).err(), Some(WalletError::InvalidKeypair));
}
