use clam_core::config::{Config, ConfigPath, Network};
use clam_core::double::Double;
use clam_core::ledger::{Ledger, LedgerEntry, PaymentStatus, Timestamp};
use clam_core::server::{
    approval_decision, approval_message, default_method, internal_error_message, ClamServer, Decision,
    Elicitation, ListPaymentsParams, PayAndFetchParams, PaymentDecision, WalletInfoParams,
};
use clam_core::wallet::{TokenBalance, Wallet};
use clam_core::x402_client::{ApprovalDecision, ApprovalRequest, ClamX402Client};
use solana_keypair::{Keypair, Signer};

fn server() -> ClamServer {
    let config = Config {
        keypair_path: ConfigPath::Given("keypair.json".to_string()),
        network: Network::Devnet,
        rpc_url: String::new(),
        facilitator_url: String::new(),
        facilitator_api_key: None,
        ledger_path: ConfigPath::Given("payments.jsonl".to_string()),
    };
    let raw = format!("{:?}", Keypair::new_from_array([7; 32]).to_bytes());
    let wallet = Wallet::from_config(&config, "keypair.json", &raw).ok().unwrap();
    let ledger = Ledger::new(ConfigPath::Given("payments.jsonl".to_string()));
    let x402 = ClamX402Client::new(wallet.clone(), config, ledger.clone());
    ClamServer::new(wallet, ledger, x402)
}

fn approval(reason: Option<&str>) -> ApprovalRequest {
    ApprovalRequest {
        url: "https://api.example.com/premium".to_string(),
        method: "POST".to_string(),
        amount_usdc: Double { bits: 0.001f64.to_bits() },
        pay_to: "9xQe".to_string(),
        asset_mint: Network::Devnet.usdc_mint().to_string(),
        network: Network::Devnet,
        reason: reason.map(|r| r.to_string()),
    }
}

#[test]
fn the_default_method_is_get() {
    assert_eq!(default_method(), "GET");
}

#[test]
fn the_prompt_shows_the_payment() {
    assert_eq!(
        approval_message(&approval(None), "0.001000"),
        "Approve x402 payment of 0.001000 USDC (devnet) to 9xQe for POST https://api.example.com/premium?"
    );
}

#[test]
fn the_prompt_shows_the_reason_verbatim() {
    let message = approval_message(&approval(Some("today's \"weather\"")), "0.001000");
    assert_eq!(
        message,
        "Approve x402 payment of 0.001000 USDC (devnet) to 9xQe for POST https://api.example.com/premium? Reason: today's \"weather\""
    );
    assert!(approval_message(&approval(Some("")), "1").ends_with("? Reason: "));
}

#[test]
fn nothing_but_an_approval_approves() {
    let answer = |decision: Decision| Elicitation::Answered(Some(PaymentDecision { decision }));
    assert_eq!(approval_decision(answer(Decision::Approve)), ApprovalDecision::Approve);
    assert_eq!(approval_decision(answer(Decision::Reject)), ApprovalDecision::Reject);
    assert_eq!(approval_decision(Elicitation::Answered(None)), ApprovalDecision::Cancel);
    assert_eq!(approval_decision(Elicitation::Failed), ApprovalDecision::Cancel);
}

#[test]
fn parameters_become_the_request() {
    let req = PayAndFetchParams {
        url: "u".to_string(),
        method: default_method(),
        headers: vec![("a".to_string(), "b".to_string())],
        body: Some("body".to_string()),
        max_usdc: Some(Double { bits: 1 }),
        reason: Some("why".to_string()),
    }
    .into_request();
    assert_eq!(req.url, "u");
    assert_eq!(req.method, "GET");
    assert_eq!(req.headers, [("a".to_string(), "b".to_string())]);
    assert_eq!(req.body.as_deref(), Some("body"));
    assert_eq!(req.max_usdc, Some(Double { bits: 1 }));
    assert_eq!(req.reason.as_deref(), Some("why"));
}

#[test]
fn errors_name_their_scope() {
    assert_eq!(internal_error_message("pay_and_fetch", "user declined"), "pay_and_fetch: user declined");
}

#[test]
fn the_wallet_is_shown() {
    let info = server().wallet_info(WalletInfoParams {}, 2_000_000_000, TokenBalance::Unavailable);
    assert_eq!(info.address, Keypair::new_from_array([7; 32]).pubkey().to_string());
    assert_eq!(f64::from_bits(info.sol_balance.bits), 2.0);
    assert_eq!(server().wallet().network(), Network::Devnet);
    assert_eq!(server().x402().config().network, Network::Devnet);
}

#[test]
fn payments_are_listed() {
    let entry = |secs: i64| LedgerEntry {
        ts: Timestamp { secs, nanos: 0 },
        url: secs.to_string(),
        method: "GET".to_string(),
        amount_usdc: Double { bits: 0 },
        pay_to: String::new(),
        network: Network::Devnet,
        tx_signature: None,
        status: PaymentStatus::Failed,
        error: None,
    };
    let params = ListPaymentsParams { limit: Some(1), since: Some(Timestamp { secs: 2, nanos: 0 }) };
    let listed = server().list_payments(params, vec![Some(entry(1)), None, Some(entry(3)), Some(entry(2))]);
    assert_eq!(listed.len(), 1);
    assert_eq!(listed[0].url, "3");
    assert!(matches!(server().ledger().path(), ConfigPath::Given(path) if path == "payments.jsonl"));
}
