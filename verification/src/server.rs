//! What the MCP tools take and give:
//!
//! - `wallet_info`: read-only balance lookup
//! - `pay_and_fetch`: x402-protected HTTP request, with mandatory per-call user
//!   approval
//! - `list_payments`: read-only audit of the local payment ledger

use vstd::multiset::Multiset;
use vstd::prelude::*;
use vstd::string::StringExecFns;

use crate::config::{law_network_name_round_trip, Network};
use crate::double::Double;
use crate::ledger::{
    limit_or_default, lists_newest, newest_entries, wanted_entries, Ledger, LedgerEntry, Timestamp,
};
use crate::text::text_view;
use crate::wallet::{info_of, TokenBalance, Wallet, WalletInfo};
use crate::x402_client::{ApprovalDecision, ApprovalRequest, ClamX402Client, PayAndFetchRequest};

verus! {

/// Input of `wallet_info`: nothing.
#[derive(Debug, Clone, Copy)]
pub struct WalletInfoParams {}

/// Input of `pay_and_fetch`.
#[derive(Debug, Clone)]
pub struct PayAndFetchParams {
    /// URL to call. Must be a fully-qualified http(s) URL.
    pub url: String,
    /// HTTP method; see [`default_method`].
    pub method: String,
    /// HTTP headers to include on both the probe and the paid retry.
    pub headers: Vec<(String, String)>,
    /// Request body (pre-serialized).
    pub body: Option<String>,
    /// Hard cap on payable amount. If the server demands more, the call fails
    /// without prompting the user.
    pub max_usdc: Option<Double>,
    /// Free-form justification shown to the user in the approval prompt.
    pub reason: Option<String>,
}

/// HTTP method used when a request names none.
pub fn default_method() -> (method: String)
    ensures
        method@ == "GET"@,
{
    "GET".to_string()
}

/// Input of `list_payments`.
#[derive(Debug, Clone, Copy)]
pub struct ListPaymentsParams {
    /// Maximum number of entries to return (newest first).
    pub limit: Option<usize>,
    /// Inclusive lower-bound timestamp.
    pub since: Option<Timestamp>,
}

/// The user's response when prompted to approve a payment.
#[derive(Debug, Clone, Copy)]
pub struct PaymentDecision {
    pub decision: Decision,
}

#[derive(Debug, Clone, Copy, PartialEq, Eq, Structural)]
pub enum Decision {
    Approve,
    Reject,
}

/// What came of prompting the user.
#[derive(Debug, Clone, Copy)]
pub enum Elicitation {
    /// The user was reached, and answered or did not.
    Answered(Option<PaymentDecision>),
    /// The user could not be prompted.
    Failed,
}

impl PayAndFetchParams {
    /// The request that these parameters stand for.
    pub fn into_request(self) -> (req: PayAndFetchRequest)
        ensures
            req.url == self.url,
            req.method == self.method,
            req.headers == self.headers,
            req.body == self.body,
            req.max_usdc == self.max_usdc,
            req.reason == self.reason,
    {
        PayAndFetchRequest {
            url: self.url,
            method: self.method,
            headers: self.headers,
            body: self.body,
            max_usdc: self.max_usdc,
            reason: self.reason,
        }
    }
}

/// What the user decides by a response, or by none.
pub open spec fn decided(elicitation: Elicitation) -> ApprovalDecision {
    match elicitation {
        Elicitation::Answered(Some(PaymentDecision { decision: Decision::Approve })) => {
            ApprovalDecision::Approve
        },
        Elicitation::Answered(Some(PaymentDecision { decision: Decision::Reject })) => {
            ApprovalDecision::Reject
        },
        _ => ApprovalDecision::Cancel,
    }
}

/// Maps what came of the prompt to a decision.
pub fn approval_decision(elicitation: Elicitation) -> (decision: ApprovalDecision)
    ensures
        decision == decided(elicitation),
{
    match elicitation {
        Elicitation::Answered(Some(answer)) => match answer.decision {
            Decision::Approve => ApprovalDecision::Approve,
            Decision::Reject => ApprovalDecision::Reject,
        },
        Elicitation::Answered(None) => ApprovalDecision::Cancel,
        Elicitation::Failed => ApprovalDecision::Cancel,
    }
}

/// How the reason for a payment is shown: not at all if there is none.
pub open spec fn reason_text(reason: Option<Seq<char>>) -> Seq<char> {
    match reason {
        Some(text) => " Reason: "@ + text,
        None => Seq::empty(),
    }
}

/// What the user is asked about a payment whose amount is written `amount`.
pub open spec fn prompt_text(req: ApprovalRequest, amount: Seq<char>) -> Seq<char> {
    "Approve x402 payment of "@ + amount + " USDC ("@ + req.network.name() + ") to "@ + req.pay_to@
        + " for "@ + req.method@ + " "@ + req.url@ + "?"@ + reason_text(text_view(req.reason))
}

/// What the user is asked about a payment whose amount, with six decimals, is
/// written `amount`.
pub fn approval_message(req: &ApprovalRequest, amount: &str) -> (message: String)
    ensures
        message@ == prompt_text(*req, amount@),
{
    let message = "Approve x402 payment of ".to_string().concat(amount).concat(" USDC (").concat(
        req.network.as_str(),
    ).concat(") to ").concat(req.pay_to.as_str()).concat(" for ").concat(req.method.as_str()).concat(
        " ",
    ).concat(req.url.as_str()).concat("?");
    match &req.reason {
        Some(reason) => {
            let ghost asked = message@;
            let message = message.concat(" Reason: ").concat(reason.as_str());
            assert(message@ =~= asked + (" Reason: "@ + reason@));
            message
        },
        None => {
            assert(message@ + Seq::<char>::empty() =~= message@);
            message
        },
    }
}

/// What a tool reports of an error in `scope`.
pub fn internal_error_message(scope: &str, error: &str) -> (message: String)
    ensures
        message@ == scope@ + ": "@ + error@,
{
    scope.to_string().concat(": ").concat(error)
}

/// State shared across all tool invocations on this server. Cheap to clone.
#[derive(Clone)]
pub struct ClamServer {
    wallet: Wallet,
    ledger: Ledger,
    x402: ClamX402Client,
}

impl ClamServer {
    /// The wallet that is shown.
    pub closed spec fn shown_wallet(self) -> Wallet {
        self.wallet
    }

    /// The ledger that is listed.
    pub closed spec fn shown_ledger(self) -> Ledger {
        self.ledger
    }

    /// The client that makes requests.
    pub closed spec fn client(self) -> ClamX402Client {
        self.x402
    }

    pub fn new(wallet: Wallet, ledger: Ledger, x402: ClamX402Client) -> (server: ClamServer)
        ensures
            server.shown_wallet() == wallet,
            server.shown_ledger() == ledger,
            server.client() == x402,
    {
        ClamServer { wallet, ledger, x402 }
    }

    pub fn wallet(&self) -> (wallet: &Wallet)
        ensures
            *wallet == self.shown_wallet(),
    {
        &self.wallet
    }

    pub fn ledger(&self) -> (ledger: &Ledger)
        ensures
            *ledger == self.shown_ledger(),
    {
        &self.ledger
    }

    pub fn x402(&self) -> (x402: &ClamX402Client)
        ensures
            *x402 == self.client(),
    {
        &self.x402
    }

    /// Read-only: the wallet's address, network, and SOL + USDC balances, given
    /// what the network answered. No elicitation.
    pub fn wallet_info(
        &self,
        _params: WalletInfoParams,
        sol_lamports: u64,
        usdc: TokenBalance,
    ) -> (info: WalletInfo)
        ensures
            info@ == info_of(self.shown_wallet()@, sol_lamports, usdc),
    {
        self.wallet.info(sol_lamports, usdc)
    }

    /// Read-only: recent payment ledger entries, of those parsed from the ledger
    /// file.
    pub fn list_payments(
        &self,
        params: ListPaymentsParams,
        parsed: Vec<Option<LedgerEntry>>,
    ) -> (entries: Vec<LedgerEntry>)
        ensures
            entries@ == newest_entries(
                wanted_entries(parsed@, params.since),
                limit_or_default(params.limit),
            ),
            exists|older: Multiset<LedgerEntry>|
                lists_newest(
                    wanted_entries(parsed@, params.since),
                    limit_or_default(params.limit),
                    entries@,
                    older,
                ),
    {
        self.ledger.list(parsed, params.limit, params.since)
    }
}

/// Payments fail closed: nothing but an explicit approval approves.
pub proof fn law_fails_closed(elicitation: Elicitation)
    ensures
        decided(elicitation) == ApprovalDecision::Approve <==> {
            &&& elicitation matches Elicitation::Answered(Some(answer))
            &&& answer.decision == Decision::Approve
        },
{
}

/// The reason is shown verbatim, at the end of the prompt.
pub proof fn law_reason_is_shown(req: ApprovalRequest, amount: Seq<char>, reason: Seq<char>)
    requires
        text_view(req.reason) == Some(reason),
    ensures
        prompt_text(req, amount).len() >= reason.len(),
        prompt_text(req, amount).skip(prompt_text(req, amount).len() - reason.len()) == reason,
{
}

/// The prompt names what is paid, on which network, to whom and for what: each stands
/// at its own place in it.
pub proof fn law_prompt_shows_the_payment(req: ApprovalRequest, amount: Seq<char>)
    ensures
        req.network == Network::MainnetBeta ==> prompt_text(req, amount)
            == "Approve x402 payment of "@ + amount + " USDC (mainnet-beta) to "@ + req.pay_to@
            + " for "@ + req.method@ + " "@ + req.url@ + "?"@ + (match req.reason {
            Some(reason) => " Reason: "@ + reason@,
            None => seq![],
        }),
        req.network == Network::Devnet ==> prompt_text(req, amount) == "Approve x402 payment of "@
            + amount + " USDC (devnet) to "@ + req.pay_to@ + " for "@ + req.method@ + " "@ + req.url@
            + "?"@ + (match req.reason {
            Some(reason) => " Reason: "@ + reason@,
            None => seq![],
        }),
{
    reveal_strlit(" USDC (mainnet-beta) to ");
    reveal_strlit(" USDC (devnet) to ");
    reveal_strlit(" USDC (");
    reveal_strlit("mainnet-beta");
    reveal_strlit("devnet");
    reveal_strlit(") to ");
    let start = "Approve x402 payment of "@ + amount;
    assert(" USDC ("@ + "mainnet-beta"@ + ") to "@ =~= " USDC (mainnet-beta) to "@);
    assert(" USDC ("@ + "devnet"@ + ") to "@ =~= " USDC (devnet) to "@);
    assert(start + " USDC ("@ + "mainnet-beta"@ + ") to "@ =~= start + (" USDC ("@ + "mainnet-beta"@
        + ") to "@));
    assert(start + " USDC ("@ + "devnet"@ + ") to "@ =~= start + (" USDC ("@ + "devnet"@ + ") to "@));
}

/// Text before the same text is the same where the whole is.
proof fn lemma_same_front(a: Seq<char>, b: Seq<char>, after: Seq<char>)
    requires
        a + after == b + after,
    ensures
        a == b,
{
    assert((a + after).len() == (b + after).len());
    assert(a =~= (a + after).take(a.len() as int));
    assert(b =~= (b + after).take(b.len() as int));
}

/// Text behind the same text is the same where the whole is.
proof fn lemma_same_back(before: Seq<char>, a: Seq<char>, b: Seq<char>)
    requires
        before + a == before + b,
    ensures
        a == b,
{
    assert(a =~= (before + a).skip(before.len() as int));
    assert(b =~= (before + b).skip(before.len() as int));
}

/// The prompt tells payments apart: two requests that differ in one thing, the
/// amount, the network, the payee, the method or the URL, have different prompts.
pub proof fn law_prompts_tell_payments_apart(
    a: ApprovalRequest,
    b: ApprovalRequest,
    amount_a: Seq<char>,
    amount_b: Seq<char>,
)
    requires
        text_view(a.reason) == text_view(b.reason),
        prompt_text(a, amount_a) == prompt_text(b, amount_b),
    ensures
        a.network == b.network && a.pay_to@ == b.pay_to@ && a.method@ == b.method@ && a.url@
            == b.url@ ==> amount_a == amount_b,
        amount_a == amount_b && a.pay_to@ == b.pay_to@ && a.method@ == b.method@ && a.url@ == b.url@
            ==> a.network == b.network,
        amount_a == amount_b && a.network == b.network && a.method@ == b.method@ && a.url@ == b.url@
            ==> a.pay_to@ == b.pay_to@,
        amount_a == amount_b && a.network == b.network && a.pay_to@ == b.pay_to@ && a.url@ == b.url@
            ==> a.method@ == b.method@,
        amount_a == amount_b && a.network == b.network && a.pay_to@ == b.pay_to@ && a.method@
            == b.method@ ==> a.url@ == b.url@,
{
    let s0 = "Approve x402 payment of "@;
    let s1 = " USDC ("@;
    let s2 = ") to "@;
    let s3 = " for "@;
    let s4 = " "@;
    let s5 = "?"@;
    let a1 = s0 + amount_a;
    let b1 = s0 + amount_b;
    let a2 = a1 + s1 + a.network.name();
    let b2 = b1 + s1 + b.network.name();
    let a3 = a2 + s2 + a.pay_to@;
    let b3 = b2 + s2 + b.pay_to@;
    let a4 = a3 + s3 + a.method@;
    let b4 = b3 + s3 + b.method@;
    let a5 = a4 + s4 + a.url@;
    let b5 = b4 + s4 + b.url@;
    let end = reason_text(text_view(a.reason));
    lemma_same_front(a5 + s5, b5 + s5, end);
    lemma_same_front(a5, b5, s5);
    if a.url@ == b.url@ {
        lemma_same_front(a4 + s4, b4 + s4, a.url@);
        lemma_same_front(a4, b4, s4);
        if a.method@ == b.method@ {
            lemma_same_front(a3 + s3, b3 + s3, a.method@);
            lemma_same_front(a3, b3, s3);
            if a.pay_to@ == b.pay_to@ {
                lemma_same_front(a2 + s2, b2 + s2, a.pay_to@);
                lemma_same_front(a2, b2, s2);
                if a.network == b.network {
                    lemma_same_front(a1 + s1, b1 + s1, a.network.name());
                    lemma_same_front(a1, b1, s1);
                    lemma_same_back(s0, amount_a, amount_b);
                } else if amount_a == amount_b {
                    lemma_same_back(a1 + s1, a.network.name(), b.network.name());
                    law_network_name_round_trip(a.network);
                    law_network_name_round_trip(b.network);
                }
            } else if amount_a == amount_b && a.network == b.network {
                lemma_same_back(a2 + s2, a.pay_to@, b.pay_to@);
            }
        } else if amount_a == amount_b && a.network == b.network && a.pay_to@ == b.pay_to@ {
            lemma_same_back(a3 + s3, a.method@, b.method@);
        }
    } else if amount_a == amount_b && a.network == b.network && a.pay_to@ == b.pay_to@ && a.method@
        == b.method@ {
        lemma_same_back(a4 + s4, a.url@, b.url@);
    }
}

/// A refusal is a refusal, and everything else that is no approval cancels.
pub proof fn law_answers_are_told_apart(elicitation: Elicitation)
    ensures
        decided(elicitation) == ApprovalDecision::Reject <==> {
            &&& elicitation matches Elicitation::Answered(Some(answer))
            &&& answer.decision == Decision::Reject
        },
        decided(elicitation) == ApprovalDecision::Cancel <==> {
            ||| elicitation == Elicitation::Answered(None)
            ||| elicitation == Elicitation::Failed
        },
{
}

} // verus!
