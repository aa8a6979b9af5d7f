use clam_core::config::{Config, ConfigPath, Network};
use clam_core::double::Double;
use clam_core::ledger::{Ledger, PaymentStatus, Timestamp};
use clam_core::wallet::Wallet;
use clam_core::x402_client::{
    method_named, parse_method, payment_required_error, prepare_request, settle, Answer,
    ApprovalDecision, ApprovalRequest, ClamX402Client, HttpMethod, InteractiveSelector,
    PayAndFetchRequest, PaymentCandidate, PaymentSelectionFailure, SelectedPayment, X402ClientError,
    X_PAYMENT_RESPONSE_HEADER,
};
use reqwest::header::{HeaderMap, HeaderValue};
use solana_keypair::Keypair;

fn double(value: f64) -> Double {
    Double { bits: value.to_bits() }
}

fn client(network: Network) -> ClamX402Client {
    let config = Config {
        keypair_path: ConfigPath::Given("keypair.json".to_string()),
        network,
        rpc_url: String::new(),
        facilitator_url: String::new(),
        facilitator_api_key: None,
        ledger_path: ConfigPath::Given("payments.jsonl".to_string()),
    };
    let raw = format!("{:?}", Keypair::new_from_array([7; 32]).to_bytes());
    let wallet = Wallet::from_config(&config, "keypair.json", &raw).ok().unwrap();
    ClamX402Client::new(wallet, config, Ledger::new(ConfigPath::Given("payments.jsonl".to_string())))
}

fn request(max_usdc: Option<f64>) -> PayAndFetchRequest {
    PayAndFetchRequest {
        url: "https://api.example.com/premium".to_string(),
        method: "get".to_string(),
        headers: vec![("Accept".to_string(), "application/json".to_string())],
        body: None,
        max_usdc: max_usdc.map(double),
        reason: Some("weather".to_string()),
    }
}

fn selector(max_usdc: Option<f64>) -> InteractiveSelector {
    client(Network::Devnet).prepare(&request(max_usdc)).ok().unwrap().selector
}

fn candidate(amount: &str, pay_to: &str) -> PaymentCandidate {
    PaymentCandidate {
        scheme: "exact".to_string(),
        chain_id: Network::Devnet.caip2().to_string(),
        asset: Network::Devnet.usdc_mint().to_string(),
        amount: amount.to_string(),
        pay_to: pay_to.to_string(),
    }
}

fn payment(amount: f64) -> SelectedPayment {
    SelectedPayment { amount_usdc: double(amount), pay_to: "payee".to_string(), network: Network::Devnet }
}

const NOW: Timestamp = Timestamp { secs: 1_700_000_000, nanos: 5 };

#[test]
fn payment_required_error_preserves_selector_reason() {
    assert!(matches!(
        payment_required_error(Some(PaymentSelectionFailure::UserDeclined), Some(double(1.0))),
        X402ClientError::UserDeclined
    ));
    assert!(matches!(
        payment_required_error(Some(PaymentSelectionFailure::UserCancelled), Some(double(1.0))),
        X402ClientError::UserCancelled
    ));
    assert!(matches!(
        payment_required_error(
            Some(PaymentSelectionFailure::ExceedsMaxUsdc {
                amount_usdc: double(2.0),
                max_usdc: double(1.0),
            }),
            Some(double(1.0)),
        ),
        X402ClientError::ExceedsMaxUsdc { amount_usdc, max_usdc }
            if amount_usdc == double(2.0) && max_usdc == double(1.0)
    ));
    assert!(matches!(
        payment_required_error(
            Some(PaymentSelectionFailure::NoMatchingCandidates),
            Some(double(1.0))
        ),
        X402ClientError::NoMatchingCandidates { max_usdc: Some(max_usdc) } if max_usdc == double(1.0)
    ));
}

#[test]
fn a_demand_that_the_selector_never_saw_matches_no_candidate() {
    assert!(matches!(
        payment_required_error(None, None),
        X402ClientError::NoMatchingCandidates { max_usdc: None }
    ));
}

#[test]
fn methods_are_named_in_either_case() {
    let methods = [
        ("GET", HttpMethod::Get),
        ("post", HttpMethod::Post),
        ("Put", HttpMethod::Put),
        ("pAtCh", HttpMethod::Patch),
        ("DELETE", HttpMethod::Delete),
        ("head", HttpMethod::Head),
        ("Options", HttpMethod::Options),
    ];
    for (name, method) in methods {
        assert_eq!(parse_method(name).ok(), Some(method));
        assert_eq!(method_named(&name.to_uppercase()), Some(method));
    }
    assert_eq!(method_named("get"), None);
    for name in ["", "TRACE", "CONNECT", " GET", "G\u{e9}T"] {
        match parse_method(name) {
            Err(X402ClientError::UnsupportedMethod(text)) => assert_eq!(text, name),
            other => panic!("{other:?}"),
        }
    }
}

#[test]
fn a_prepared_request_is_what_was_asked_for() {
    let mut req = request(Some(0.05));
    req.body = Some("body".to_string());
    let prepared = client(Network::MainnetBeta).prepare(&req).ok().unwrap();
    assert_eq!(prepared.url, "https://api.example.com/premium");
    assert_eq!(prepared.method, HttpMethod::Get);
    assert_eq!(prepared.headers.get("accept").unwrap(), "application/json");
    assert_eq!(prepared.body.as_deref(), Some("body"));
    assert_eq!(prepared.selector.usdc_mint, Network::MainnetBeta.usdc_mint());
    assert_eq!(prepared.selector.network_caip2, Network::MainnetBeta.caip2());
    assert_eq!(prepared.selector.network, Network::MainnetBeta);
    assert_eq!(prepared.selector.max_usdc, Some(double(0.05)));
    assert_eq!(prepared.selector.method, "GET");
    assert_eq!(prepared.selector.url, req.url);
    assert_eq!(prepared.selector.reason.as_deref(), Some("weather"));
    assert!(prepared.selector.last_selection.is_none());
    assert!(prepared.selector.selection_failure.is_none());
}

#[test]
fn a_bad_url_is_refused_before_anything_else() {
    for url in ["", "premium", "/premium", "https://", "http://[::1"] {
        let mut req = request(None);
        req.url = url.to_string();
        req.method = "TRACE".to_string();
        match client(Network::Devnet).prepare(&req) {
            Err(X402ClientError::InvalidUrl(text)) => assert_eq!(text, url),
            _ => panic!("{url:?}"),
        }
    }
}

#[test]
fn a_bad_method_is_refused_before_bad_headers() {
    let mut req = request(None);
    req.method = "Trace".to_string();
    req.headers.push(("bad name".to_string(), String::new()));
    assert!(matches!(
        client(Network::Devnet).prepare(&req),
        Err(X402ClientError::UnsupportedMethod(text)) if text == "Trace"
    ));
    req.method = "post".to_string();
    assert!(matches!(
        client(Network::Devnet).prepare(&req),
        Err(X402ClientError::InvalidHeaderName { name, .. }) if name == "bad name"
    ));
    req.headers[1] = ("good-name".to_string(), "\n".to_string());
    assert!(matches!(
        client(Network::Devnet).prepare(&req),
        Err(X402ClientError::InvalidHeaderValue { name }) if name == "good-name"
    ));
}

#[test]
fn a_request_is_prepared_from_what_was_read_off_it() {
    let req = request(None);
    let upper = || "PATCH".to_string();
    let prepared = prepare_request(&req, true, upper(), Network::Devnet).ok().unwrap();
    assert_eq!(prepared.method, HttpMethod::Patch);
    assert_eq!(prepared.selector.method, "PATCH");
    assert!(matches!(
        prepare_request(&req, false, upper(), Network::Devnet),
        Err(X402ClientError::InvalidUrl(_))
    ));
}

#[test]
fn the_cheapest_match_is_proposed() {
    let mut selector = selector(None);
    let candidates = vec![
        candidate("2000", "a"),
        candidate("10000", "b"),
        candidate("1000", "c"),
        candidate("1000", "d"),
    ];
    let proposal = selector.propose(&candidates).unwrap();
    assert_eq!(proposal.index, 2);
    assert_eq!(proposal.request.pay_to, "c");
    assert_eq!(proposal.request.amount_usdc, double(0.001));
    assert_eq!(proposal.request.asset_mint, Network::Devnet.usdc_mint());
    assert_eq!(proposal.request.url, "https://api.example.com/premium");
    assert_eq!(proposal.request.method, "GET");
    assert_eq!(proposal.request.network, Network::Devnet);
    assert_eq!(proposal.request.reason.as_deref(), Some("weather"));
    assert_eq!(proposal.payment.pay_to, "c");
    assert_eq!(proposal.payment.amount_usdc, double(0.001));
    assert!(selector.last_selection.is_none());
}

#[test]
fn only_exact_usdc_on_the_configured_chain_matches() {
    let mut selector = selector(None);
    let mut other_scheme = candidate("1", "x");
    other_scheme.scheme = "upto".to_string();
    let mut other_chain = candidate("1", "x");
    other_chain.chain_id = Network::MainnetBeta.caip2().to_string();
    let mut other_asset = candidate("1", "x");
    other_asset.asset = Network::MainnetBeta.usdc_mint().to_string();
    let candidates = vec![other_scheme, other_chain, other_asset];
    assert!(selector.propose(&candidates).is_none());
    assert!(matches!(selector.selection_failure, Some(PaymentSelectionFailure::NoMatchingCandidates)));
    assert!(selector.propose(&vec![]).is_none());

    let mut lower = candidate("1", "y");
    lower.asset = lower.asset.to_ascii_lowercase();
    let proposal = selector.propose(&vec![lower]).unwrap();
    assert_eq!(proposal.request.asset_mint, Network::Devnet.usdc_mint().to_ascii_lowercase());
    assert!(selector.selection_failure.is_none());
}

#[test]
fn the_cap_is_inclusive_and_hard() {
    let candidates = vec![candidate("50000", "a"), candidate("60000", "b")];
    assert!(selector(Some(0.05)).propose(&candidates).is_some());
    let mut tight = selector(Some(0.049999));
    assert!(tight.propose(&candidates).is_none());
    assert!(matches!(
        tight.selection_failure,
        Some(PaymentSelectionFailure::ExceedsMaxUsdc { amount_usdc, max_usdc })
            if amount_usdc == double(0.05) && max_usdc == double(0.049999)
    ));
    assert!(selector(None).propose(&candidates).is_some());
}

#[test]
fn amounts_too_large_for_a_machine_integer_stay_under_the_cap_check() {
    let huge = "9".repeat(60);
    let mut capped = selector(Some(1.0));
    assert!(capped.propose(&vec![candidate(&huge, "a")]).is_none());
    assert!(matches!(
        capped.selection_failure,
        Some(PaymentSelectionFailure::ExceedsMaxUsdc { .. })
    ));
}

#[test]
fn the_user_is_not_asked_above_the_cap() {
    let mut capped = selector(Some(0.5));
    let chosen = capped.select(&vec![candidate("500001", "a")], |_: ApprovalRequest| -> ApprovalDecision {
        panic!("the user was asked")
    });
    assert_eq!(chosen, None);
}

#[test]
fn an_approved_payment_is_selected() {
    let mut selector = selector(Some(1.0));
    let candidates = vec![candidate("900000", "a"), candidate("800000", "b")];
    let chosen = selector.select(&candidates, |request: ApprovalRequest| {
        assert_eq!(request.pay_to, "b");
        ApprovalDecision::Approve
    });
    assert_eq!(chosen, Some(1));
    let selected = selector.last_selection.unwrap();
    assert_eq!(selected.pay_to, "b");
    assert_eq!(selected.amount_usdc, double(0.8));
    assert_eq!(selected.network, Network::Devnet);
    assert!(selector.selection_failure.is_none());
}

#[test]
fn a_payment_that_is_not_approved_is_not_selected() {
    let candidates = vec![candidate("1", "a")];
    let mut rejected = selector(None);
    assert_eq!(rejected.select(&candidates, |_: ApprovalRequest| ApprovalDecision::Reject), None);
    assert!(rejected.last_selection.is_none());
    assert!(matches!(rejected.selection_failure, Some(PaymentSelectionFailure::UserDeclined)));
    let mut cancelled = selector(None);
    assert_eq!(cancelled.select(&candidates, |_: ApprovalRequest| ApprovalDecision::Cancel), None);
    assert!(cancelled.last_selection.is_none());
    assert!(matches!(cancelled.selection_failure, Some(PaymentSelectionFailure::UserCancelled)));
}

#[test]
fn a_later_refusal_leaves_an_earlier_selection() {
    let mut selector = selector(None);
    assert_eq!(selector.resolve(3, payment(0.25), ApprovalDecision::Approve), Some(3));
    assert_eq!(selector.resolve(4, payment(0.5), ApprovalDecision::Reject), None);
    assert_eq!(selector.last_selection.as_ref().unwrap().amount_usdc, double(0.25));
    assert!(matches!(selector.selection_failure, Some(PaymentSelectionFailure::UserDeclined)));
}

#[test]
fn a_demand_for_payment_ends_in_the_reason_for_it() {
    let mut selector = selector(Some(0.5));
    selector.selection_failure = Some(PaymentSelectionFailure::UserDeclined);
    selector.last_selection = Some(payment(0.25));
    let conclusion = client(Network::Devnet).conclude(
        &request(Some(0.5)),
        &selector,
        402,
        &HeaderMap::new(),
        String::new(),
        NOW,
    );
    assert!(matches!(conclusion, Err(X402ClientError::UserDeclined)));
}

#[test]
fn an_answer_without_payment_is_handed_on() {
    let mut headers = HeaderMap::new();
    headers.insert("content-type", HeaderValue::from_static("text/plain"));
    let conclusion = client(Network::Devnet)
        .conclude(&request(None), &selector(None), 404, &headers, "gone".to_string(), NOW)
        .ok()
        .unwrap();
    assert_eq!(conclusion.outcome.status, 404);
    assert_eq!(conclusion.outcome.body, "gone");
    assert_eq!(conclusion.outcome.headers, [("content-type".to_string(), "text/plain".to_string())]);
    assert!(conclusion.outcome.payment.is_none());
    assert!(conclusion.entry.is_none());
}

#[test]
fn a_paid_answer_comes_with_a_receipt_and_a_record() {
    let mut headers = HeaderMap::new();
    // {"success":true,"transaction":"5kJ"}
    headers.insert(
        X_PAYMENT_RESPONSE_HEADER,
        HeaderValue::from_static("eyJzdWNjZXNzIjp0cnVlLCJ0cmFuc2FjdGlvbiI6IjVrSiJ9"),
    );
    let mut selector = selector(None);
    selector.last_selection = Some(payment(0.001));
    let conclusion = client(Network::Devnet)
        .conclude(&request(None), &selector, 200, &headers, "ok".to_string(), NOW)
        .ok()
        .unwrap();
    let receipt = conclusion.outcome.payment.unwrap();
    assert_eq!(receipt.tx_signature.as_deref(), Some("5kJ"));
    assert_eq!(receipt.amount_usdc, double(0.001));
    assert_eq!(receipt.pay_to, "payee");
    assert_eq!(receipt.network, Network::Devnet);
    let entry = conclusion.entry.unwrap();
    assert_eq!(entry.ts, NOW);
    assert_eq!(entry.url, "https://api.example.com/premium");
    assert_eq!(entry.method, "GET");
    assert_eq!(entry.amount_usdc, double(0.001));
    assert_eq!(entry.pay_to, "payee");
    assert_eq!(entry.network, Network::Devnet);
    assert_eq!(entry.tx_signature.as_deref(), Some("5kJ"));
    assert_eq!(entry.status, PaymentStatus::Settled);
    assert_eq!(entry.error, None);
}

#[test]
fn a_paid_request_that_fails_is_recorded_as_failed() {
    let mut selector = selector(None);
    selector.last_selection = Some(payment(0.001));
    for (status, line) in [(500, "500 Internal Server Error"), (199, "199 <unknown status code>"), (300, "300 Multiple Choices")] {
        let conclusion = client(Network::Devnet)
            .conclude(&request(None), &selector, status, &HeaderMap::new(), String::new(), NOW)
            .ok()
            .unwrap();
        let entry = conclusion.entry.unwrap();
        assert_eq!(entry.status, PaymentStatus::Failed);
        assert_eq!(entry.error, Some(format!("upstream status {line}")));
        assert_eq!(entry.tx_signature, None);
        assert_eq!(conclusion.outcome.payment.unwrap().tx_signature, None);
    }
    let conclusion = client(Network::Devnet)
        .conclude(&request(None), &selector, 299, &HeaderMap::new(), String::new(), NOW)
        .ok()
        .unwrap();
    assert_eq!(conclusion.entry.unwrap().status, PaymentStatus::Settled);
}

#[test]
fn an_answer_is_settled_from_what_was_read_off_it() {
    let mut selector = selector(None);
    selector.last_selection = Some(payment(2.0));
    let answer = Answer {
        status: 503,
        status_line: "503 Busy".to_string(),
        headers: vec![("a".to_string(), "b".to_string())],
        tx_signature: Some("sig".to_string()),
        body: "later".to_string(),
    };
    let conclusion = settle(&request(None), "HEAD".to_string(), &selector, answer, NOW).ok().unwrap();
    assert_eq!(conclusion.outcome.status, 503);
    assert_eq!(conclusion.outcome.headers, [("a".to_string(), "b".to_string())]);
    assert_eq!(conclusion.outcome.body, "later");
    assert_eq!(conclusion.outcome.payment.unwrap().tx_signature.as_deref(), Some("sig"));
    let entry = conclusion.entry.unwrap();
    assert_eq!(entry.method, "HEAD");
    assert_eq!(entry.tx_signature.as_deref(), Some("sig"));
    assert_eq!(entry.error.as_deref(), Some("upstream status 503 Busy"));
}

#[test]
fn a_client_holds_what_it_was_made_of() {
    let client = client(Network::MainnetBeta);
    assert_eq!(client.wallet().network(), Network::MainnetBeta);
    assert_eq!(client.config().network, Network::MainnetBeta);
    assert!(matches!(client.ledger().path(), ConfigPath::Given(path) if path == "payments.jsonl"));
}

#[test]
fn a_refused_demand_is_reported_with_its_reason() {
    let conclude = |selector: &InteractiveSelector, max: Option<f64>| {
        client(Network::Devnet).conclude(
            &request(max),
            selector,
            402,
            &HeaderMap::new(),
            String::new(),
            NOW,
        )
    };
    let mut unmatched = selector(Some(2.0));
    assert_eq!(unmatched.select(&vec![], |_: ApprovalRequest| ApprovalDecision::Approve), None);
    assert!(matches!(
        conclude(&unmatched, Some(2.0)),
        Err(X402ClientError::NoMatchingCandidates { max_usdc: Some(max) }) if max == double(2.0)
    ));
    let mut capped = selector(Some(0.5));
    let dear = vec![candidate("750000", "a")];
    assert_eq!(capped.select(&dear, |_: ApprovalRequest| ApprovalDecision::Approve), None);
    assert!(matches!(
        conclude(&capped, Some(0.5)),
        Err(X402ClientError::ExceedsMaxUsdc { amount_usdc, max_usdc })
            if amount_usdc == double(0.75) && max_usdc == double(0.5)
    ));
    let mut cancelled = selector(None);
    assert_eq!(cancelled.select(&dear, |_: ApprovalRequest| ApprovalDecision::Cancel), None);
    assert!(matches!(conclude(&cancelled, None), Err(X402ClientError::UserCancelled)));
}

/// What is selected where the user always approves, and what they were asked about.
fn approve_all(
    selector: &mut InteractiveSelector,
    candidates: &Vec<PaymentCandidate>,
) -> (Option<usize>, Vec<ApprovalRequest>) {
    let mut asked = Vec::new();
    let chosen = selector.select(candidates, |request: ApprovalRequest| {
        asked.push(request);
        ApprovalDecision::Approve
    });
    (chosen, asked)
}

#[test]
fn the_user_is_asked_once_about_the_cheapest() {
    let candidates = vec![candidate("1000", "a"), candidate("999", "b")];
    let (chosen, asked) = approve_all(&mut selector(None), &candidates);
    assert_eq!(chosen, Some(1));
    assert_eq!(asked.len(), 1);
    assert_eq!(asked[0].amount_usdc, double(0.000999));
    assert_eq!(asked[0].pay_to, "b");
    assert_eq!(asked[0].reason.as_deref(), Some("weather"));
}

#[test]
fn the_user_is_asked_at_the_cap_and_not_above_it() {
    let (chosen, asked) = approve_all(&mut selector(Some(0.05)), &vec![candidate("50000", "a")]);
    assert_eq!(chosen, Some(0));
    assert_eq!(asked.len(), 1);
    assert_eq!(asked[0].amount_usdc, double(0.05));
    let (chosen, asked) = approve_all(&mut selector(Some(0.05)), &vec![candidate("50001", "a")]);
    assert_eq!(chosen, None);
    assert!(asked.is_empty());
    let beyond = "340282366920938463463374607431768211456";
    let (chosen, asked) = approve_all(&mut selector(Some(1.0)), &vec![candidate(beyond, "a")]);
    assert_eq!(chosen, None);
    assert!(asked.is_empty());
}

#[test]
fn the_user_is_not_asked_about_another_network() {
    let mut mainnet = candidate("1000", "11111111111111111111111111111111");
    mainnet.chain_id = Network::MainnetBeta.caip2().to_string();
    mainnet.asset = Network::MainnetBeta.usdc_mint().to_string();
    let mut devnet = selector(None);
    let (chosen, asked) = approve_all(&mut devnet, &vec![mainnet]);
    assert_eq!(chosen, None);
    assert!(asked.is_empty());
    assert!(matches!(devnet.selection_failure, Some(PaymentSelectionFailure::NoMatchingCandidates)));
}

#[test]
fn a_wider_cap_and_other_candidates_leave_the_choice() {
    let candidates = vec![candidate("50000", "a"), candidate("40000", "b")];
    let mut other = candidate("1", "x");
    other.scheme = "upto".to_string();
    let more = vec![other.clone(), candidate("50000", "a"), other.clone(), candidate("40000", "b"), other];
    for max in [Some(0.04), Some(0.05), Some(f64::INFINITY), None] {
        let (chosen, asked) = approve_all(&mut selector(max), &candidates);
        assert_eq!(chosen, Some(1));
        assert_eq!(asked[0].pay_to, "b");
        let (chosen, asked) = approve_all(&mut selector(max), &more);
        assert_eq!(chosen, Some(3));
        assert_eq!(asked.len(), 1);
        assert_eq!(asked[0].pay_to, "b");
        assert_eq!(asked[0].amount_usdc, double(0.04));
    }
}

#[test]
fn the_payment_header_is_parsed_on_success_only() {
    // {"success":true,"transaction":"5kJ"}
    let header = "eyJzdWNjZXNzIjp0cnVlLCJ0cmFuc2FjdGlvbiI6IjVrSiJ9";
    let mut headers = HeaderMap::new();
    headers.insert(X_PAYMENT_RESPONSE_HEADER, HeaderValue::from_static(header));
    let mut selector = selector(None);
    selector.last_selection = Some(payment(0.001));
    for (status, signature) in [(199, header), (200, "5kJ"), (299, "5kJ"), (300, header), (500, header)] {
        let conclusion = client(Network::Devnet)
            .conclude(&request(None), &selector, status, &headers, String::new(), NOW)
            .ok()
            .unwrap();
        assert_eq!(conclusion.outcome.payment.unwrap().tx_signature.as_deref(), Some(signature));
        assert_eq!(conclusion.entry.unwrap().tx_signature.as_deref(), Some(signature));
    }
}
