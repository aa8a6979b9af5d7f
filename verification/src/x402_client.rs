//! Policy-gated x402 client.
//!
//! A request that a server answers with a demand for payment goes through the
//! [`InteractiveSelector`]: it filters the options for payment to USDC on the
//! configured Solana network, applies an absolute USDC cap, and has the user
//! approve the one that is left. Every payment made is recorded in the ledger.

use reqwest::header::{HeaderMap, HeaderValue, InvalidHeaderName};
use vstd::arithmetic::power::pow;
use vstd::prelude::*;
use vstd::string::StringExecFns;
use vstd::utf8::is_ascii_chars;

use crate::config::{env_network, law_networks_apart, Config, EnvVars, Network};
use crate::decimal::{
    comes_before, decimal_value, digit_value, digit_values, digits_value, integer_digits,
    is_canonical, is_digit, is_number, law_text_order_is_numeric, lemma_precedes_total,
    lemma_precedes_transitive, parse_digits, precedes, round_digits, unsigned_part,
};
use crate::double::{
    law_above_compares_bits, lemma_bits_order, lemma_quotient_order, ratio_bits, ratio_to_double,
    round_integer, Double, INFINITY_BITS,
};
use crate::headers::{
    ascii_text, build_header_map, distinct_names, first_text, header_text, header_values,
    headers_set, is_header, is_header_name, is_header_text, is_visible, is_visible_value, last_text,
    law_header_refusal_has_a_cause, refuses_headers, serialize_headers, text_for, values_of,
};
use crate::ledger::{Ledger, LedgerEntry, PaymentStatus, Timestamp};
use crate::settlement::{header_signature, payment_signature};
use crate::text::{
    ascii_lowered, ascii_uppered, chars_of, copy_text, law_case_is_all_that_is_ignored,
    law_trimming_takes_off_white_space, same_ignoring_ascii_case, same_text, text_view,
    to_uppercase, trim, trimmed, uppercased,
};
use crate::wallet::{Wallet, USDC_DECIMALS};

verus! {

/// Header set by an x402 resource server on a 200 response to communicate
/// settlement metadata (base64-encoded settle response).
pub const X_PAYMENT_RESPONSE_HEADER: &'static str = "x-payment-response";

/// Why a request was not carried through.
#[allow(inconsistent_fields)]
#[derive(Debug)]
pub enum X402ClientError {
    /// The URL is not an absolute URL.
    InvalidUrl(String),
    /// The HTTP method is not one of those supported.
    UnsupportedMethod(String),
    /// A header has a name that HTTP does not allow.
    InvalidHeaderName { name: String, source: InvalidHeaderName },
    /// A header has a value that HTTP does not allow.
    InvalidHeaderValue { name: String },
    /// There are more headers than a header map takes.
    TooManyHeaders,
    /// Payment was required but no USDC-on-Solana option matched.
    NoMatchingPayment { max_usdc: Option<Double> },
    /// Payment was required but no USDC-on-Solana candidates matched.
    NoMatchingCandidates { max_usdc: Option<Double> },
    /// The payment amount exceeds the cap.
    ExceedsMaxUsdc { amount_usdc: Double, max_usdc: Double },
    /// The user declined the payment.
    UserDeclined,
    /// The user cancelled the payment prompt.
    UserCancelled,
}

/// Approval request passed to the user via the consumer-supplied callback.
#[derive(Debug, Clone)]
pub struct ApprovalRequest {
    pub url: String,
    pub method: String,
    pub amount_usdc: Double,
    pub pay_to: String,
    pub asset_mint: String,
    pub network: Network,
    pub reason: Option<String>,
}

/// User's response to an approval request.
#[derive(Debug, Clone, Copy, PartialEq, Eq, Structural)]
pub enum ApprovalDecision {
    Approve,
    Reject,
    Cancel,
}

/// Input to [`ClamX402Client::prepare`].
#[derive(Debug, Clone)]
pub struct PayAndFetchRequest {
    pub url: String,
    pub method: String,
    pub headers: Vec<(String, String)>,
    pub body: Option<String>,
    pub max_usdc: Option<Double>,
    pub reason: Option<String>,
}

/// Successful settlement metadata for a paid request.
#[derive(Debug, Clone)]
pub struct PaymentReceipt {
    pub tx_signature: Option<String>,
    pub amount_usdc: Double,
    pub pay_to: String,
    pub network: Network,
}

/// Result of [`ClamX402Client::conclude`].
#[derive(Debug, Clone)]
pub struct PayAndFetchOutcome {
    pub status: u16,
    pub headers: Vec<(String, String)>,
    pub body: String,
    pub payment: Option<PaymentReceipt>,
}

/// One way to pay that a server offers.
#[derive(Debug, Clone)]
pub struct PaymentCandidate {
    /// Payment scheme.
    pub scheme: String,
    /// CAIP-2 identifier of the chain to pay on.
    pub chain_id: String,
    /// Address of the asset to pay in.
    pub asset: String,
    /// Amount in the asset's base units, in decimal.
    pub amount: String,
    /// Address to pay to.
    pub pay_to: String,
}

/// A payment that the user has approved.
#[derive(Debug, Clone)]
pub struct SelectedPayment {
    pub amount_usdc: Double,
    pub pay_to: String,
    pub network: Network,
}

/// Why no payment was selected.
#[derive(Debug, Clone, Copy)]
pub enum PaymentSelectionFailure {
    NoMatchingCandidates,
    ExceedsMaxUsdc { amount_usdc: Double, max_usdc: Double },
    UserDeclined,
    UserCancelled,
}

/// What is reported of a request that stays unpaid.
pub open spec fn is_payment_error(
    failure: Option<PaymentSelectionFailure>,
    max_usdc: Option<Double>,
    error: X402ClientError,
) -> bool {
    match failure {
        Some(PaymentSelectionFailure::ExceedsMaxUsdc { amount_usdc, max_usdc }) => error
            == (X402ClientError::ExceedsMaxUsdc { amount_usdc, max_usdc }),
        Some(PaymentSelectionFailure::UserDeclined) => error == X402ClientError::UserDeclined,
        Some(PaymentSelectionFailure::UserCancelled) => error == X402ClientError::UserCancelled,
        Some(PaymentSelectionFailure::NoMatchingCandidates) | None => error
            == (X402ClientError::NoMatchingCandidates { max_usdc }),
    }
}

/// The error for a request that stays unpaid: why the selector refused, if it
/// was asked.
pub fn payment_required_error(
    failure: Option<PaymentSelectionFailure>,
    max_usdc: Option<Double>,
) -> (error: X402ClientError)
    ensures
        is_payment_error(failure, max_usdc, error),
{
    match failure {
        Some(PaymentSelectionFailure::ExceedsMaxUsdc { amount_usdc, max_usdc }) => {
            X402ClientError::ExceedsMaxUsdc { amount_usdc, max_usdc }
        },
        Some(PaymentSelectionFailure::UserDeclined) => X402ClientError::UserDeclined,
        Some(PaymentSelectionFailure::UserCancelled) => X402ClientError::UserCancelled,
        Some(PaymentSelectionFailure::NoMatchingCandidates) | None => {
            X402ClientError::NoMatchingCandidates { max_usdc }
        },
    }
}

/// The number of base units that `raw` writes in decimal; zero for text that
/// writes no unsigned integer.
pub open spec fn base_units(raw: Seq<char>) -> nat {
    match integer_digits(trimmed(raw)) {
        Some(digits) => digits_value(digits),
        None => 0,
    }
}

/// The bits of the double that is nearest to `units` base units in USDC: the
/// nearest double of the units, divided, rounded to the nearest double again.
pub open spec fn usdc_bits(units: nat) -> int {
    ratio_bits(round_integer(units), pow(10, USDC_DECIMALS as nat) as nat)
}

/// Converts a USDC base-unit amount (decimal string) into a double that a user
/// interface can show. USDC has 6 decimals; the amount is a string because it
/// is an arbitrary-precision unsigned integer.
pub fn base_units_to_usdc(raw: &str) -> (usdc: Double)
    ensures
        usdc.bits == usdc_bits(base_units(raw@)),
{
    let text = trim(&chars_of(raw));
    let digits = match parse_digits(&text) {
        Some(digits) => digits,
        None => Vec::new(),
    };
    let (mantissa, shift) = round_digits(&digits);
    proof {
        reveal_with_fuel(pow, 7);
        assert(pow(10, 6) == 1_000_000);
        assert(digits@.len() == digits.len());
    }
    ratio_to_double(mantissa, shift, 1_000_000)
}

/// HTTP methods that a request may have.
#[derive(Debug, Clone, Copy, PartialEq, Eq, Structural)]
pub enum HttpMethod {
    Get,
    Post,
    Put,
    Patch,
    Delete,
    Head,
    Options,
}

impl HttpMethod {
    /// The method's name.
    pub open spec fn name(self) -> Seq<char> {
        match self {
            HttpMethod::Get => "GET"@,
            HttpMethod::Post => "POST"@,
            HttpMethod::Put => "PUT"@,
            HttpMethod::Patch => "PATCH"@,
            HttpMethod::Delete => "DELETE"@,
            HttpMethod::Head => "HEAD"@,
            HttpMethod::Options => "OPTIONS"@,
        }
    }
}

/// Whether a method has this name.
pub open spec fn is_method_name(upper: Seq<char>) -> bool {
    exists|m: HttpMethod| #[trigger] m.name() == upper
}

/// The method with the name `upper`, if there is one.
pub fn method_named(upper: &str) -> (method: Option<HttpMethod>)
    ensures
        match method {
            Some(m) => upper@ == m.name(),
            None => !is_method_name(upper@),
        },
{
    if same_text(upper, "GET") {
        Some(HttpMethod::Get)
    } else if same_text(upper, "POST") {
        Some(HttpMethod::Post)
    } else if same_text(upper, "PUT") {
        Some(HttpMethod::Put)
    } else if same_text(upper, "PATCH") {
        Some(HttpMethod::Patch)
    } else if same_text(upper, "DELETE") {
        Some(HttpMethod::Delete)
    } else if same_text(upper, "HEAD") {
        Some(HttpMethod::Head)
    } else if same_text(upper, "OPTIONS") {
        Some(HttpMethod::Options)
    } else {
        None
    }
}

/// The method that `s` names, its letters turned to capitals being `upper`.
fn method_from(s: &str, upper: &str) -> (method: Result<HttpMethod, X402ClientError>)
    ensures
        match method {
            Ok(m) => upper@ == m.name(),
            Err(X402ClientError::UnsupportedMethod(text)) => !is_method_name(upper@) && text@ == s@,
            Err(_) => false,
        },
{
    match method_named(upper) {
        Some(method) => Ok(method),
        None => Err(X402ClientError::UnsupportedMethod(s.to_string())),
    }
}

/// The method that `s` names, in letters of either case.
pub fn parse_method(s: &str) -> (method: Result<HttpMethod, X402ClientError>)
    ensures
        match method {
            Ok(m) => uppercased(s@) == m.name(),
            Err(X402ClientError::UnsupportedMethod(text)) => {
                &&& !is_method_name(uppercased(s@))
                &&& text@ == s@
            },
            Err(_) => false,
        },
        is_ascii_chars(s@) ==> uppercased(s@) == ascii_uppered(s@),
{
    method_from(s, to_uppercase(s).as_str())
}

/// The selector that gates payments behind the user's approval.
#[derive(Debug, Clone)]
pub struct InteractiveSelector {
    /// Address of the USDC mint that is paid in.
    pub usdc_mint: String,
    /// CAIP-2 identifier of the chain that is paid on.
    pub network_caip2: String,
    pub network: Network,
    /// What a payment may cost at most.
    pub max_usdc: Option<Double>,
    pub method: String,
    pub url: String,
    pub reason: Option<String>,
    /// The payment that the user approved last.
    pub last_selection: Option<SelectedPayment>,
    /// Why the last demand for payment was refused, if it was.
    pub selection_failure: Option<PaymentSelectionFailure>,
}

/// A payment that the user is to be asked about.
#[derive(Debug, Clone)]
pub struct Proposal {
    /// The place of the candidate among those offered.
    pub index: usize,
    /// What is paid if the user approves.
    pub payment: SelectedPayment,
    /// What the user is shown.
    pub request: ApprovalRequest,
}

/// The bits of the amount in USDC that a candidate demands.
pub open spec fn demanded_bits(candidate: PaymentCandidate) -> int {
    usdc_bits(base_units(candidate.amount@))
}

impl InteractiveSelector {
    /// Whether two selectors have the same policy, whatever they have selected.
    pub open spec fn same_policy(self, other: InteractiveSelector) -> bool {
        &&& self.usdc_mint == other.usdc_mint
        &&& self.network_caip2 == other.network_caip2
        &&& self.network == other.network
        &&& self.max_usdc == other.max_usdc
        &&& self.method == other.method
        &&& self.url == other.url
        &&& self.reason == other.reason
    }

    /// Whether a candidate is an exact payment in the configured USDC on the
    /// configured chain.
    pub open spec fn matches(self, candidate: PaymentCandidate) -> bool {
        &&& candidate.scheme@ == "exact"@
        &&& candidate.chain_id@ == self.network_caip2@
        &&& ascii_lowered(candidate.asset@) == ascii_lowered(self.usdc_mint@)
    }

    /// Whether a candidate is the one to pay: it matches, none that matches is
    /// cheaper, and it is the first of those that cost the same.
    pub open spec fn is_choice(self, candidates: Seq<PaymentCandidate>, index: int) -> bool {
        &&& 0 <= index < candidates.len()
        &&& self.matches(candidates[index])
        &&& forall|j: int|
            0 <= j < candidates.len() && self.matches(#[trigger] candidates[j]) ==> {
                &&& !precedes(candidates[j].amount@, candidates[index].amount@)
                &&& j < index ==> precedes(candidates[index].amount@, candidates[j].amount@)
            }
    }

    /// Whether an amount is within the cap, if there is one.
    pub open spec fn within_cap(self, amount: Double) -> bool {
        self.max_usdc matches Some(max) ==> !amount.above(max)
    }

    /// Whether a request shows the user what a candidate demands.
    pub open spec fn asks_for(self, candidate: PaymentCandidate, request: ApprovalRequest) -> bool {
        &&& request.url@ == self.url@
        &&& request.method@ == self.method@
        &&& request.amount_usdc.bits == demanded_bits(candidate)
        &&& request.pay_to@ == candidate.pay_to@
        &&& request.asset_mint@ == candidate.asset@
        &&& request.network == self.network
        &&& text_view(request.reason) == text_view(self.reason)
    }

    /// Whether a payment is the one that a request shows.
    pub open spec fn pays_for(self, request: ApprovalRequest, payment: SelectedPayment) -> bool {
        &&& payment.amount_usdc == request.amount_usdc
        &&& payment.pay_to@ == request.pay_to@
        &&& payment.network == request.network
    }

    /// Whether a proposal is the one to make for these candidates.
    pub open spec fn proposes(self, candidates: Seq<PaymentCandidate>, proposal: Proposal) -> bool {
        &&& self.is_choice(candidates, proposal.index as int)
        &&& self.asks_for(candidates[proposal.index as int], proposal.request)
        &&& self.pays_for(proposal.request, proposal.payment)
        &&& self.within_cap(proposal.request.amount_usdc)
    }

    /// Whether the candidates are refused, for this reason, without asking.
    pub open spec fn refuses(
        self,
        candidates: Seq<PaymentCandidate>,
        failure: Option<PaymentSelectionFailure>,
    ) -> bool {
        match failure {
            Some(PaymentSelectionFailure::NoMatchingCandidates) => forall|j: int|
                0 <= j < candidates.len() ==> !self.matches(#[trigger] candidates[j]),
            Some(PaymentSelectionFailure::ExceedsMaxUsdc { amount_usdc, max_usdc }) => {
                &&& self.max_usdc == Some(max_usdc)
                &&& amount_usdc.above(max_usdc)
                &&& exists|i: int| #[trigger]
                    self.is_choice(candidates, i) && amount_usdc.bits == demanded_bits(candidates[i])
            },
            _ => false,
        }
    }

    /// Whether a candidate is an exact payment in the configured USDC on the
    /// configured chain.
    fn accepts(&self, candidate: &PaymentCandidate) -> (accepted: bool)
        ensures
            accepted == self.matches(*candidate),
    {
        same_text(candidate.scheme.as_str(), "exact") && same_text(
            candidate.chain_id.as_str(),
            self.network_caip2.as_str(),
        ) && same_ignoring_ascii_case(candidate.asset.as_str(), self.usdc_mint.as_str())
    }

    /// The place of the candidate to pay, if one matches.
    fn cheapest(&self, candidates: &Vec<PaymentCandidate>) -> (index: Option<usize>)
        ensures
            match index {
                Some(i) => self.is_choice(candidates@, i as int),
                None => forall|j: int|
                    0 <= j < candidates@.len() ==> !self.matches(#[trigger] candidates@[j]),
            },
    {
        let mut best: Option<usize> = None;
        for i in 0..candidates.len()
            invariant
                match best {
                    Some(b) => b < i && self.is_choice(candidates@.take(i as int), b as int),
                    None => forall|j: int| 0 <= j < i ==> !self.matches(#[trigger] candidates@[j]),
                },
        {
            let ghost before = candidates@.take(i as int);
            let ghost upto = candidates@.take(i + 1);
            let candidate = &candidates[i];
            if self.accepts(candidate) {
                match best {
                    Some(b) => {
                        let cheaper = comes_before(
                            &chars_of(candidate.amount.as_str()),
                            &chars_of(candidates[b].amount.as_str()),
                        );
                        if cheaper {
                            best = Some(i);
                            proof {
                                self.lemma_cheaper(before, b as int, *candidate);
                                assert(upto =~= before.push(*candidate));
                            }
                        } else {
                            assert forall|j: int|
                                0 <= j < upto.len() && self.matches(#[trigger] upto[j]) implies {
                                &&& !precedes(upto[j].amount@, upto[b as int].amount@)
                                &&& j < b ==> precedes(upto[b as int].amount@, upto[j].amount@)
                            } by {
                                if j < i {
                                    assert(before[j] == upto[j]);
                                }
                            }
                        }
                    },
                    None => {
                        best = Some(i);
                        proof {
                            lemma_not_before_itself(candidate.amount@);
                        }
                    },
                }
            } else if let Some(b) = best {
                assert forall|j: int|
                    0 <= j < upto.len() && self.matches(#[trigger] upto[j]) implies {
                    &&& !precedes(upto[j].amount@, upto[b as int].amount@)
                    &&& j < b ==> precedes(upto[b as int].amount@, upto[j].amount@)
                } by {
                    assert(before[j] == upto[j]);
                }
            }
        }
        assert(candidates@.take(candidates@.len() as int) =~= candidates@);
        best
    }

    /// A candidate that matches and is cheaper than the one to pay takes its
    /// place.
    proof fn lemma_cheaper(
        self,
        before: Seq<PaymentCandidate>,
        best: int,
        candidate: PaymentCandidate,
    )
        requires
            self.is_choice(before, best),
            self.matches(candidate),
            precedes(candidate.amount@, before[best].amount@),
        ensures
            self.is_choice(before.push(candidate), before.len() as int),
    {
        let upto = before.push(candidate);
        let last = before.len() as int;
        lemma_not_before_itself(candidate.amount@);
        assert forall|j: int| 0 <= j < upto.len() && self.matches(#[trigger] upto[j]) implies {
            &&& !precedes(upto[j].amount@, upto[last].amount@)
            &&& j < last ==> precedes(upto[last].amount@, upto[j].amount@)
        } by {
            if j < last {
                let other = before[j].amount@;
                assert(self.matches(before[j]));
                assert(!precedes(other, before[best].amount@));
                if precedes(other, candidate.amount@) {
                    lemma_precedes_transitive(other, candidate.amount@, before[best].amount@);
                }
                lemma_precedes_total(other, candidate.amount@);
            }
        }
    }

    /// Looks at the candidates that a server offers, and says which one the user
    /// is to be asked about. Where none is left, or the cheapest exceeds the cap,
    /// the user is not asked.
    pub fn propose(&mut self, candidates: &Vec<PaymentCandidate>) -> (proposal: Option<Proposal>)
        ensures
            final(self).same_policy(*old(self)),
            final(self).last_selection == old(self).last_selection,
            match proposal {
                Some(p) => {
                    &&& old(self).proposes(candidates@, p)
                    &&& final(self).selection_failure is None
                },
                None => old(self).refuses(candidates@, final(self).selection_failure),
            },
    {
        self.selection_failure = None;
        let index = match self.cheapest(candidates) {
            Some(index) => index,
            None => {
                self.selection_failure = Some(PaymentSelectionFailure::NoMatchingCandidates);
                return None;
            },
        };
        let chosen = &candidates[index];
        let amount_usdc = base_units_to_usdc(chosen.amount.as_str());
        assert(old(self).is_choice(candidates@, index as int));
        if let Some(max) = self.max_usdc {
            if amount_usdc.exceeds(&max) {
                self.selection_failure = Some(
                    PaymentSelectionFailure::ExceedsMaxUsdc { amount_usdc, max_usdc: max },
                );
                return None;
            }
        }
        let request = ApprovalRequest {
            url: self.url.clone(),
            method: self.method.clone(),
            amount_usdc,
            pay_to: chosen.pay_to.clone(),
            asset_mint: chosen.asset.clone(),
            network: self.network,
            reason: copy_text(&self.reason),
        };
        let payment = SelectedPayment {
            amount_usdc,
            pay_to: chosen.pay_to.clone(),
            network: self.network,
        };
        Some(Proposal { index, payment, request })
    }

    /// Takes the user's decision on a proposal; the place of the candidate to pay
    /// if the user approved.
    pub fn resolve(
        &mut self,
        index: usize,
        payment: SelectedPayment,
        decision: ApprovalDecision,
    ) -> (chosen: Option<usize>)
        ensures
            final(self).same_policy(*old(self)),
            match decision {
                ApprovalDecision::Approve => {
                    &&& chosen == Some(index)
                    &&& final(self).last_selection == Some(payment)
                    &&& final(self).selection_failure is None
                },
                ApprovalDecision::Reject => {
                    &&& chosen is None
                    &&& final(self).last_selection == old(self).last_selection
                    &&& final(self).selection_failure == Some(PaymentSelectionFailure::UserDeclined)
                },
                ApprovalDecision::Cancel => {
                    &&& chosen is None
                    &&& final(self).last_selection == old(self).last_selection
                    &&& final(self).selection_failure == Some(
                        PaymentSelectionFailure::UserCancelled,
                    )
                },
            },
    {
        match decision {
            ApprovalDecision::Approve => {
                self.last_selection = Some(payment);
                self.selection_failure = None;
                Some(index)
            },
            ApprovalDecision::Reject => {
                self.selection_failure = Some(PaymentSelectionFailure::UserDeclined);
                None
            },
            ApprovalDecision::Cancel => {
                self.selection_failure = Some(PaymentSelectionFailure::UserCancelled);
                None
            },
        }
    }
}

impl InteractiveSelector {
    /// Selects the candidate to pay, asking the user through `approval`, which
    /// receives an [`ApprovalRequest`] describing the proposed payment and returns
    /// the user's decision. The user is asked about a proposal or not at all, and
    /// once at most.
    pub fn select<F: FnOnce(ApprovalRequest) -> ApprovalDecision>(
        &mut self,
        candidates: &Vec<PaymentCandidate>,
        approval: F,
    ) -> (chosen: Option<usize>)
        requires
            forall|proposal: Proposal| #[trigger]
                old(self).proposes(candidates@, proposal) ==> call_requires(
                    approval,
                    (proposal.request,),
                ),
        ensures
            final(self).same_policy(*old(self)),
            match chosen {
                Some(index) => exists|proposal: Proposal|
                    {
                        &&& #[trigger] old(self).proposes(candidates@, proposal)
                        &&& proposal.index == index
                        &&& call_ensures(approval, (proposal.request,), ApprovalDecision::Approve)
                        &&& final(self).last_selection == Some(proposal.payment)
                        &&& final(self).selection_failure is None
                    },
                None => {
                    &&& final(self).last_selection == old(self).last_selection
                    &&& {
                        ||| old(self).refuses(candidates@, final(self).selection_failure)
                        ||| exists|proposal: Proposal, decision: ApprovalDecision|
                            {
                                &&& #[trigger] old(self).proposes(candidates@, proposal)
                                &&& #[trigger] call_ensures(
                                    approval,
                                    (proposal.request,),
                                    decision,
                                )
                                &&& final(self).selection_failure == declined(decision)
                                &&& decision != ApprovalDecision::Approve
                            }
                    }
                },
            },
    {
        match self.propose(candidates) {
            Some(proposal) => {
                let ghost proposed = proposal;
                let Proposal { index, payment, request } = proposal;
                assert(old(self).proposes(candidates@, proposed));
                let decision = approval(request);
                assert(call_ensures(approval, (proposed.request,), decision));
                self.resolve(index, payment, decision)
            },
            None => None,
        }
    }
}

/// Why a payment is not made that the user did not approve.
pub open spec fn declined(decision: ApprovalDecision) -> Option<PaymentSelectionFailure> {
    match decision {
        ApprovalDecision::Approve => None,
        ApprovalDecision::Reject => Some(PaymentSelectionFailure::UserDeclined),
        ApprovalDecision::Cancel => Some(PaymentSelectionFailure::UserCancelled),
    }
}

/// Whether a text is an absolute URL.
pub uninterp spec fn is_url(text: Seq<char>) -> bool;

/// Whether `text` is an absolute URL.
///
/// Calls `reqwest::Url::parse`. Claimed of it: whether it succeeds depends on the
/// text alone.
#[verifier::external_body]
fn parses_as_url(text: &str) -> (parses: bool)
    ensures
        parses == is_url(text@),
{
    reqwest::Url::parse(text).is_ok()
}

/// How a status code is written: its number and the reason phrase for it.
pub uninterp spec fn status_line(code: u16) -> Seq<char>;

/// A status code as text.
///
/// Calls `reqwest::StatusCode::from_u16`, which takes the codes of three digits,
/// and, on the status code, `to_string`. Claimed of them: the text depends on the
/// code alone.
#[verifier::external_body]
fn status_text(code: u16) -> (text: String)
    requires
        100 <= code <= 999,
    ensures
        text@ == status_line(code),
{
    reqwest::StatusCode::from_u16(code).unwrap().to_string()
}

/// A request that is ready to be sent, with the selector for the case that the
/// server demands payment.
pub struct PreparedRequest {
    pub url: String,
    pub method: HttpMethod,
    pub headers: HeaderMap<HeaderValue>,
    pub body: Option<String>,
    pub selector: InteractiveSelector,
}

/// What came of a request that was answered: the answer, and the entry that is
/// added to the ledger, if a payment was made.
pub struct Conclusion {
    pub outcome: PayAndFetchOutcome,
    pub entry: Option<LedgerEntry>,
}

/// Whether `prepared` is a request made ready to be sent, its method in capital
/// letters being `upper`.
pub open spec fn is_prepared(
    req: PayAndFetchRequest,
    upper: Seq<char>,
    network: Network,
    prepared: PreparedRequest,
) -> bool {
    &&& forall|i: int| 0 <= i < req.headers@.len() ==> is_header(#[trigger] req.headers@[i])
    &&& prepared.url@ == req.url@
    &&& prepared.method.name() == upper
    &&& header_values(prepared.headers) == headers_set(req.headers@)
    &&& text_view(prepared.body) == text_view(req.body)
    &&& gates(prepared.selector, req, upper, network)
}

/// Whether `error` tells what keeps a request from being sent; of several things
/// the URL comes first, and then the method, in capital letters `upper`.
pub open spec fn refuses_request(
    req: PayAndFetchRequest,
    has_url: bool,
    upper: Seq<char>,
    error: X402ClientError,
) -> bool {
    match error {
        X402ClientError::InvalidUrl(text) => !has_url && text@ == req.url@,
        X402ClientError::UnsupportedMethod(text) => {
            &&& has_url
            &&& !is_method_name(upper)
            &&& text@ == req.method@
        },
        _ => {
            &&& has_url
            &&& is_method_name(upper)
            &&& refuses_headers(req.headers@, error)
        },
    }
}

/// Whether `selector` gates the payments for a request on a network, and has
/// selected nothing yet.
pub open spec fn gates(
    selector: InteractiveSelector,
    req: PayAndFetchRequest,
    upper: Seq<char>,
    network: Network,
) -> bool {
    &&& selector.usdc_mint@ == network.mint()
    &&& selector.network_caip2@ == network.chain_id()
    &&& selector.network == network
    &&& selector.max_usdc == req.max_usdc
    &&& selector.method@ == upper
    &&& selector.url@ == req.url@
    &&& text_view(selector.reason) == text_view(req.reason)
    &&& selector.last_selection is None
    &&& selector.selection_failure is None
}

/// Whether a status reports success.
pub open spec fn is_success(status: u16) -> bool {
    200 <= status <= 299
}

/// What a response with this status gives as transaction signature in its payment
/// header: of a success the signature that is parsed from the header, and else the
/// text of the header as it stands.
pub open spec fn response_signature(
    status: u16,
    held: Map<Seq<char>, Seq<Seq<u8>>>,
) -> Option<Seq<char>> {
    match first_text(held, X_PAYMENT_RESPONSE_HEADER@) {
        Some(header) => if is_success(status) {
            header_signature(header)
        } else {
            Some(header)
        },
        None => None,
    }
}

/// Whether `receipt` is the one for a payment with this signature.
pub open spec fn is_receipt(
    payment: SelectedPayment,
    signature: Option<Seq<char>>,
    receipt: PaymentReceipt,
) -> bool {
    &&& text_view(receipt.tx_signature) == signature
    &&& receipt.amount_usdc == payment.amount_usdc
    &&& receipt.pay_to@ == payment.pay_to@
    &&& receipt.network == payment.network
}

/// Whether `entry` records the payment in `receipt`, made for a request that was
/// answered with `status`, which is written `line`, at `now`.
pub open spec fn records(
    entry: LedgerEntry,
    req: PayAndFetchRequest,
    upper: Seq<char>,
    receipt: PaymentReceipt,
    status: u16,
    line: Seq<char>,
    now: Timestamp,
) -> bool {
    &&& entry.ts == now
    &&& entry.url@ == req.url@
    &&& entry.method@ == upper
    &&& entry.amount_usdc == receipt.amount_usdc
    &&& entry.pay_to@ == receipt.pay_to@
    &&& entry.network == receipt.network
    &&& text_view(entry.tx_signature) == text_view(receipt.tx_signature)
    &&& entry.status == if is_success(status) {
        PaymentStatus::Settled
    } else {
        PaymentStatus::Failed
    }
    &&& text_view(entry.error) == if is_success(status) {
        None
    } else {
        Some("upstream status "@ + line)
    }
}

/// Whether a request that was answered comes to `conclusion`: an error where
/// payment is still demanded; else a receipt and a record of the payment that was
/// selected, and neither where none was.
pub open spec fn concludes(
    req: PayAndFetchRequest,
    upper: Seq<char>,
    selector: InteractiveSelector,
    status: u16,
    line: Seq<char>,
    signature: Option<Seq<char>>,
    now: Timestamp,
    conclusion: Result<Conclusion, X402ClientError>,
) -> bool {
    match conclusion {
        Err(error) => {
            &&& status == 402
            &&& is_payment_error(selector.selection_failure, req.max_usdc, error)
        },
        Ok(c) => {
            &&& status != 402
            &&& c.outcome.status == status
            &&& match (selector.last_selection, c.outcome.payment, c.entry) {
                (Some(payment), Some(receipt), Some(entry)) => {
                    &&& is_receipt(payment, signature, receipt)
                    &&& records(entry, req, upper, receipt, status, line, now)
                },
                (None, None, None) => true,
                _ => false,
            }
        },
    }
}

/// An answer, with what has been read off it.
#[derive(Debug, Clone)]
pub struct Answer {
    pub status: u16,
    /// The status, written out.
    pub status_line: String,
    pub headers: Vec<(String, String)>,
    /// What the payment header gives as transaction signature.
    pub tx_signature: Option<String>,
    pub body: String,
}

/// What a request comes to that was answered, where its method in capital letters
/// is `method`.
pub fn settle(
    req: &PayAndFetchRequest,
    method: String,
    selector: &InteractiveSelector,
    answer: Answer,
    now: Timestamp,
) -> (conclusion: Result<Conclusion, X402ClientError>)
    ensures
        concludes(
            *req,
            method@,
            *selector,
            answer.status,
            answer.status_line@,
            text_view(answer.tx_signature),
            now,
            conclusion,
        ),
        conclusion matches Ok(c) ==> c.outcome.headers == answer.headers && c.outcome.body
            == answer.body,
{
    let status: u16 = answer.status;
    if status == 402 {
        return Err(payment_required_error(selector.selection_failure, req.max_usdc));
    }
    let (payment, entry) = match &selector.last_selection {
        Some(selected) => {
            let success = 200 <= status && status <= 299;
            let receipt = PaymentReceipt {
                tx_signature: copy_text(&answer.tx_signature),
                amount_usdc: selected.amount_usdc,
                pay_to: selected.pay_to.clone(),
                network: selected.network,
            };
            let entry = LedgerEntry {
                ts: now,
                url: req.url.clone(),
                method,
                amount_usdc: selected.amount_usdc,
                pay_to: selected.pay_to.clone(),
                network: selected.network,
                tx_signature: answer.tx_signature,
                status: if success {
                    PaymentStatus::Settled
                } else {
                    PaymentStatus::Failed
                },
                error: if success {
                    None
                } else {
                    Some("upstream status ".to_string().concat(answer.status_line.as_str()))
                },
            };
            (Some(receipt), Some(entry))
        },
        None => (None, None),
    };
    Ok(
        Conclusion {
            outcome: PayAndFetchOutcome {
                status,
                headers: answer.headers,
                body: answer.body,
                payment,
            },
            entry,
        },
    )
}

/// Checks a request whose URL parses if `has_url`, and whose method in capital
/// letters is `upper`, and makes the selector that gates payments for it.
pub fn prepare_request(
    req: &PayAndFetchRequest,
    has_url: bool,
    upper: String,
    network: Network,
) -> (prepared: Result<PreparedRequest, X402ClientError>)
    ensures
        match prepared {
            Ok(p) => has_url && is_prepared(*req, upper@, network, p),
            Err(error) => refuses_request(*req, has_url, upper@, error),
        },
{
    if !has_url {
        return Err(X402ClientError::InvalidUrl(req.url.clone()));
    }
    let method = match method_from(req.method.as_str(), upper.as_str()) {
        Ok(method) => method,
        Err(error) => {
            return Err(error);
        },
    };
    let headers = match build_header_map(&req.headers) {
        Ok(headers) => headers,
        Err(error) => {
            return Err(error);
        },
    };
    let selector = InteractiveSelector {
        usdc_mint: network.usdc_mint().to_string(),
        network_caip2: network.caip2().to_string(),
        network,
        max_usdc: req.max_usdc,
        method: upper,
        url: req.url.clone(),
        reason: copy_text(&req.reason),
        last_selection: None,
        selection_failure: None,
    };
    Ok(
        PreparedRequest {
            url: req.url.clone(),
            method,
            headers,
            body: copy_text(&req.body),
            selector,
        },
    )
}

/// The policy-gated x402 client. Cheap to clone.
#[derive(Clone)]
pub struct ClamX402Client {
    wallet: Wallet,
    config: Config,
    ledger: Ledger,
}

impl ClamX402Client {
    /// The wallet that pays.
    pub closed spec fn payer(self) -> Wallet {
        self.wallet
    }

    /// The configuration.
    pub closed spec fn settings(self) -> Config {
        self.config
    }

    /// The ledger that payments are recorded in.
    pub closed spec fn book(self) -> Ledger {
        self.ledger
    }

    pub fn new(wallet: Wallet, config: Config, ledger: Ledger) -> (client: ClamX402Client)
        ensures
            client.payer() == wallet,
            client.settings() == config,
            client.book() == ledger,
    {
        ClamX402Client { wallet, config, ledger }
    }

    pub fn wallet(&self) -> (wallet: &Wallet)
        ensures
            *wallet == self.payer(),
    {
        &self.wallet
    }

    pub fn config(&self) -> (config: &Config)
        ensures
            *config == self.settings(),
    {
        &self.config
    }

    pub fn ledger(&self) -> (ledger: &Ledger)
        ensures
            *ledger == self.book(),
    {
        &self.ledger
    }

    /// First half of a paid request: checks it, and makes the selector that gates
    /// payments for it. The network and the mint that are paid in are those of the
    /// configuration, whatever the request says.
    pub fn prepare(&self, req: &PayAndFetchRequest) -> (prepared: Result<
        PreparedRequest,
        X402ClientError,
    >)
        ensures
            match prepared {
                Ok(p) => is_url(req.url@) && is_prepared(
                    *req,
                    uppercased(req.method@),
                    self.settings().network,
                    p,
                ),
                Err(error) => refuses_request(
                    *req,
                    is_url(req.url@),
                    uppercased(req.method@),
                    error,
                ),
            },
            is_ascii_chars(req.method@) ==> uppercased(req.method@) == ascii_uppered(req.method@),
    {
        let has_url = parses_as_url(req.url.as_str());
        let upper = to_uppercase(req.method.as_str());
        prepare_request(req, has_url, upper, self.config.network)
    }

    /// Second half of a paid request: what its answer comes to. Where payment is
    /// still demanded, that is an error, which tells why the selector refused; else
    /// the answer is handed on, and a payment that was made comes with a receipt
    /// and an entry for the ledger.
    pub fn conclude(
        &self,
        req: &PayAndFetchRequest,
        selector: &InteractiveSelector,
        status: u16,
        headers: &HeaderMap<HeaderValue>,
        body: String,
        now: Timestamp,
    ) -> (conclusion: Result<Conclusion, X402ClientError>)
        requires
            100 <= status <= 999,
        ensures
            concludes(
                *req,
                uppercased(req.method@),
                *selector,
                status,
                status_line(status),
                response_signature(status, header_values(*headers)),
                now,
                conclusion,
            ),
            conclusion matches Ok(c) ==> {
                &&& c.outcome.body == body
                &&& distinct_names(c.outcome.headers@)
                &&& forall|name: Seq<char>|
                    #[trigger] text_for(c.outcome.headers@, name) == last_text(
                        values_of(header_values(*headers), name),
                    )
            },
            is_ascii_chars(req.method@) ==> uppercased(req.method@) == ascii_uppered(req.method@),
    {
        let tx_signature = match header_text(headers, X_PAYMENT_RESPONSE_HEADER) {
            Some(header) => if 200 <= status && status <= 299 {
                payment_signature(header)
            } else {
                Some(header)
            },
            None => None,
        };
        let answer = Answer {
            status,
            status_line: status_text(status),
            headers: serialize_headers(headers),
            tx_signature,
            body,
        };
        settle(req, to_uppercase(req.method.as_str()), selector, answer, now)
    }
}

/// No text comes before itself.
proof fn lemma_not_before_itself(text: Seq<char>)
    ensures
        !precedes(text, text),
{
}

/// A decimal amount without leading zeros is the number that it writes.
proof fn lemma_canonical_units(amount: Seq<char>)
    requires
        is_canonical(amount),
    ensures
        base_units(amount) == decimal_value(amount),
{
    assert(is_digit(amount[0]));
    assert(is_digit(amount[amount.len() - 1]));
    assert(trimmed(amount) == amount);
    assert(unsigned_part(amount) == amount);
}

/// More base units never come to less USDC, and always to a number.
pub proof fn law_usdc_keeps_order(a: nat, b: nat)
    requires
        a <= b,
    ensures
        0 <= usdc_bits(a) <= usdc_bits(b) <= INFINITY_BITS,
{
    reveal_with_fuel(pow, 7);
    assert(pow(10, 6) == 1_000_000);
    lemma_quotient_order(a, b, 1_000_000);
}

/// The cap is hard: what the user is asked about, and what is paid if they
/// approve, is never more than the cap.
pub proof fn law_cap_is_hard(
    selector: InteractiveSelector,
    candidates: Seq<PaymentCandidate>,
    proposal: Proposal,
    max: Double,
)
    requires
        selector.proposes(candidates, proposal),
        selector.max_usdc == Some(max),
        !max.is_nan(),
    ensures
        !proposal.request.amount_usdc.is_nan(),
        proposal.request.amount_usdc.value() <= max.value(),
        proposal.payment.amount_usdc == proposal.request.amount_usdc,
{
    let units = base_units(candidates[proposal.index as int].amount@);
    law_usdc_keeps_order(units, units);
}

/// The candidate to pay demands the least of all that match.
pub proof fn law_choice_is_cheapest(
    selector: InteractiveSelector,
    candidates: Seq<PaymentCandidate>,
    index: int,
    other: int,
)
    requires
        selector.is_choice(candidates, index),
        0 <= other < candidates.len(),
        selector.matches(candidates[other]),
        is_canonical(candidates[index].amount@),
        is_canonical(candidates[other].amount@),
    ensures
        base_units(candidates[index].amount@) <= base_units(candidates[other].amount@),
        demanded_bits(candidates[index]) <= demanded_bits(candidates[other]),
{
    let a = candidates[index].amount@;
    let b = candidates[other].amount@;
    law_text_order_is_numeric(b, a);
    lemma_canonical_units(a);
    lemma_canonical_units(b);
    law_usdc_keeps_order(base_units(a), base_units(b));
}

/// No candidate within the cap is passed over: where the cap is the reason for a
/// refusal, every candidate that matches demands more.
pub proof fn law_cap_refuses_only_above(
    selector: InteractiveSelector,
    candidates: Seq<PaymentCandidate>,
    amount_usdc: Double,
    max_usdc: Double,
    other: int,
    demanded: Double,
)
    requires
        selector.refuses(
            candidates,
            Some(PaymentSelectionFailure::ExceedsMaxUsdc { amount_usdc, max_usdc }),
        ),
        forall|j: int|
            0 <= j < candidates.len() ==> is_canonical((#[trigger] candidates[j]).amount@),
        0 <= other < candidates.len(),
        selector.matches(candidates[other]),
        demanded.bits == demanded_bits(candidates[other]),
    ensures
        demanded.above(max_usdc),
{
    let index = choose|i: int| #[trigger]
        selector.is_choice(candidates, i) && amount_usdc.bits == demanded_bits(candidates[i]);
    law_choice_is_cheapest(selector, candidates, index, other);
    let a = base_units(candidates[index].amount@);
    let b = base_units(candidates[other].amount@);
    law_usdc_keeps_order(a, b);
    lemma_bits_order(amount_usdc, demanded);
}

/// Payments are only ever made on the configured network, in its USDC: no
/// candidate on another network, or in its USDC, matches.
pub proof fn law_only_the_configured_network(
    selector: InteractiveSelector,
    req: PayAndFetchRequest,
    upper: Seq<char>,
    network: Network,
    other: Network,
    candidate: PaymentCandidate,
)
    requires
        gates(selector, req, upper, network),
        other != network,
        candidate.chain_id@ == other.chain_id() || candidate.asset@ == other.mint(),
    ensures
        !selector.matches(candidate),
{
    law_networks_apart(network, other);
}

/// Every payment has a receipt and a record, both or neither, and they agree; it
/// is recorded as settled if the answer was a success, and else as failed.
pub proof fn law_every_payment_is_recorded(
    req: PayAndFetchRequest,
    upper: Seq<char>,
    selector: InteractiveSelector,
    status: u16,
    line: Seq<char>,
    signature: Option<Seq<char>>,
    now: Timestamp,
    conclusion: Conclusion,
)
    requires
        concludes(req, upper, selector, status, line, signature, now, Ok(conclusion)),
    ensures
        conclusion.entry is Some <==> conclusion.outcome.payment is Some,
        conclusion.entry is Some <==> selector.last_selection is Some,
        conclusion.entry matches Some(entry) ==> {
            let receipt = conclusion.outcome.payment->0;
            &&& entry.amount_usdc == receipt.amount_usdc
            &&& entry.pay_to@ == receipt.pay_to@
            &&& entry.network == receipt.network
            &&& text_view(entry.tx_signature) == text_view(receipt.tx_signature)
            &&& entry.status == PaymentStatus::Settled <==> is_success(status)
            &&& entry.error is None <==> is_success(status)
        },
{
}

/// What is paid is what the user was shown: a payment that was proposed and then
/// approved is paid to the address, in the amount and on the network of the
/// approval request, which are those of the candidate that was chosen.
pub proof fn law_paid_is_what_was_shown(
    before: InteractiveSelector,
    candidates: Seq<PaymentCandidate>,
    proposal: Proposal,
    req: PayAndFetchRequest,
    upper: Seq<char>,
    after: InteractiveSelector,
    status: u16,
    line: Seq<char>,
    signature: Option<Seq<char>>,
    now: Timestamp,
    conclusion: Conclusion,
)
    requires
        before.proposes(candidates, proposal),
        after.last_selection == Some(proposal.payment),
        concludes(req, upper, after, status, line, signature, now, Ok(conclusion)),
    ensures
        conclusion.outcome.payment matches Some(receipt) && {
            &&& receipt.amount_usdc == proposal.request.amount_usdc
            &&& receipt.amount_usdc.bits == demanded_bits(candidates[proposal.index as int])
            &&& receipt.pay_to@ == proposal.request.pay_to@
            &&& receipt.pay_to@ == candidates[proposal.index as int].pay_to@
            &&& receipt.network == proposal.request.network
            &&& receipt.network == before.network
        },
{
}

/// With no network named in the environment no payment spends real money: no
/// candidate on the main network, or in its USDC, matches.
pub proof fn law_default_spends_no_real_money(
    vars: EnvVars,
    config: Config,
    selector: InteractiveSelector,
    req: PayAndFetchRequest,
    upper: Seq<char>,
    candidate: PaymentCandidate,
)
    requires
        vars.network is None,
        env_network(vars) == Some(config.network),
        gates(selector, req, upper, config.network),
        candidate.chain_id@ == Network::MainnetBeta.chain_id() || candidate.asset@
            == Network::MainnetBeta.mint(),
    ensures
        !selector.matches(candidate),
{
    law_only_the_configured_network(
        selector,
        req,
        upper,
        config.network,
        Network::MainnetBeta,
        candidate,
    );
}

/// A demand for payment that is refused without asking ends in an error that says
/// why: that no candidate matches, or by how much the cheapest exceeds the cap.
pub proof fn law_refusal_is_reported(
    before: InteractiveSelector,
    candidates: Seq<PaymentCandidate>,
    after: InteractiveSelector,
    req: PayAndFetchRequest,
    upper: Seq<char>,
    line: Seq<char>,
    signature: Option<Seq<char>>,
    now: Timestamp,
    conclusion: Result<Conclusion, X402ClientError>,
)
    requires
        before.refuses(candidates, after.selection_failure),
        concludes(req, upper, after, 402, line, signature, now, conclusion),
    ensures
        match conclusion {
            Err(X402ClientError::NoMatchingCandidates { max_usdc }) => {
                &&& max_usdc == req.max_usdc
                &&& forall|j: int|
                    0 <= j < candidates.len() ==> !before.matches(#[trigger] candidates[j])
            },
            Err(X402ClientError::ExceedsMaxUsdc { amount_usdc, max_usdc }) => {
                &&& before.max_usdc == Some(max_usdc)
                &&& amount_usdc.above(max_usdc)
                &&& exists|i: int| #[trigger]
                    before.is_choice(candidates, i) && amount_usdc.bits == demanded_bits(
                        candidates[i],
                    )
            },
            _ => false,
        },
{
}

/// A payment that the user does not approve is not made, and the demand for it
/// ends in an error that tells a refusal from a prompt that was cancelled.
pub proof fn law_decline_is_reported(
    decision: ApprovalDecision,
    after: InteractiveSelector,
    req: PayAndFetchRequest,
    upper: Seq<char>,
    line: Seq<char>,
    signature: Option<Seq<char>>,
    now: Timestamp,
    conclusion: Result<Conclusion, X402ClientError>,
)
    requires
        decision != ApprovalDecision::Approve,
        after.selection_failure == declined(decision),
        concludes(req, upper, after, 402, line, signature, now, conclusion),
    ensures
        conclusion matches Err(error) && error == if decision == ApprovalDecision::Reject {
            X402ClientError::UserDeclined
        } else {
            X402ClientError::UserCancelled
        },
{
}

/// Whether two requests show the user the same.
pub open spec fn same_request(a: ApprovalRequest, b: ApprovalRequest) -> bool {
    &&& a.url@ == b.url@
    &&& a.method@ == b.method@
    &&& a.amount_usdc == b.amount_usdc
    &&& a.pay_to@ == b.pay_to@
    &&& a.asset_mint@ == b.asset_mint@
    &&& a.network == b.network
    &&& text_view(a.reason) == text_view(b.reason)
}

/// There is one candidate to pay at most.
proof fn lemma_one_choice(
    selector: InteractiveSelector,
    candidates: Seq<PaymentCandidate>,
    i: int,
    j: int,
)
    requires
        selector.is_choice(candidates, i),
        selector.is_choice(candidates, j),
    ensures
        i == j,
{
    assert(selector.matches(candidates[i]));
    assert(selector.matches(candidates[j]));
}

/// The user is asked about one payment: for the same candidates there is no other
/// proposal than one for the same candidate that shows the same.
pub proof fn law_one_proposal(
    selector: InteractiveSelector,
    candidates: Seq<PaymentCandidate>,
    a: Proposal,
    b: Proposal,
)
    requires
        selector.proposes(candidates, a),
        selector.proposes(candidates, b),
    ensures
        a.index == b.index,
        same_request(a.request, b.request),
{
    lemma_one_choice(selector, candidates, a.index as int, b.index as int);
}

/// The user is never asked where the candidates are refused: no match, or a
/// cheapest match above the cap, leaves nothing to propose.
pub proof fn law_refused_is_never_asked(
    selector: InteractiveSelector,
    candidates: Seq<PaymentCandidate>,
    failure: Option<PaymentSelectionFailure>,
    proposal: Proposal,
)
    requires
        selector.refuses(candidates, failure),
    ensures
        !selector.proposes(candidates, proposal),
{
    if selector.proposes(candidates, proposal) {
        let index = proposal.index as int;
        assert(selector.matches(candidates[index]));
        if let Some(PaymentSelectionFailure::ExceedsMaxUsdc { amount_usdc, max_usdc }) = failure {
            let i = choose|i: int| #[trigger]
                selector.is_choice(candidates, i) && amount_usdc.bits == demanded_bits(candidates[i]);
            lemma_one_choice(selector, candidates, i, index);
            assert(proposal.request.amount_usdc == amount_usdc);
        }
    }
}

/// Whether `wider` is a selector like `narrow` but for what has been selected and
/// for a cap that is no smaller, or none.
pub open spec fn has_wider_cap(wider: InteractiveSelector, narrow: InteractiveSelector) -> bool {
    &&& wider.usdc_mint == narrow.usdc_mint
    &&& wider.network_caip2 == narrow.network_caip2
    &&& wider.network == narrow.network
    &&& wider.method == narrow.method
    &&& wider.url == narrow.url
    &&& wider.reason == narrow.reason
    &&& match (wider.max_usdc, narrow.max_usdc) {
        (None, _) => true,
        (Some(wide), Some(max)) => !wide.is_nan() && !max.is_nan() && max.value() <= wide.value(),
        (Some(_), None) => false,
    }
}

/// A larger cap, or none, leaves the choice as it is: the user is asked about the
/// same candidate, and is shown the same.
pub proof fn law_wider_cap_keeps_the_choice(
    narrow: InteractiveSelector,
    wider: InteractiveSelector,
    candidates: Seq<PaymentCandidate>,
    proposal: Proposal,
)
    requires
        narrow.proposes(candidates, proposal),
        has_wider_cap(wider, narrow),
    ensures
        wider.proposes(candidates, proposal),
        forall|failure: Option<PaymentSelectionFailure>| !wider.refuses(candidates, failure),
        forall|other: Proposal| #[trigger]
            wider.proposes(candidates, other) ==> other.index == proposal.index && same_request(
                other.request,
                proposal.request,
            ),
{
    assert forall|j: int| wider.matches(#[trigger] candidates[j]) == narrow.matches(candidates[j]) by {
    }
    let index = proposal.index as int;
    assert(wider.is_choice(candidates, index));
    let units = base_units(candidates[index].amount@);
    law_usdc_keeps_order(units, units);
    assert forall|failure: Option<PaymentSelectionFailure>| !wider.refuses(candidates, failure) by {
        if wider.refuses(candidates, failure) {
            law_refused_is_never_asked(wider, candidates, failure, proposal);
        }
    }
    assert forall|other: Proposal| #[trigger] wider.proposes(candidates, other) implies other.index
        == proposal.index && same_request(other.request, proposal.request) by {
        law_one_proposal(wider, candidates, other, proposal);
    }
}

impl InteractiveSelector {
    /// The places of the candidates that match.
    pub open spec fn matching_places(self, candidates: Seq<PaymentCandidate>) -> Seq<int>
        decreases candidates.len(),
    {
        if candidates.len() == 0 {
            Seq::empty()
        } else {
            let before = self.matching_places(candidates.drop_last());
            if self.matches(candidates.last()) {
                before.push(candidates.len() - 1)
            } else {
                before
            }
        }
    }

    /// The candidates that match, in order.
    pub open spec fn matching(self, candidates: Seq<PaymentCandidate>) -> Seq<PaymentCandidate> {
        self.matching_places(candidates).map_values(|place: int| candidates[place])
    }

    /// The places of the candidates that match are those, in order.
    proof fn lemma_matching_places(self, candidates: Seq<PaymentCandidate>)
        ensures
            forall|k: int|
                0 <= k < self.matching_places(candidates).len() ==> 0
                    <= #[trigger] self.matching_places(candidates)[k] < candidates.len()
                    && self.matches(candidates[self.matching_places(candidates)[k]]),
            forall|k: int, l: int|
                0 <= k < l < self.matching_places(candidates).len()
                    ==> #[trigger] self.matching_places(candidates)[k]
                    < #[trigger] self.matching_places(candidates)[l],
            forall|j: int|
                0 <= j < candidates.len() && self.matches(#[trigger] candidates[j])
                    ==> self.matching_places(candidates).contains(j),
        decreases candidates.len(),
    {
        if candidates.len() > 0 {
            let front = candidates.drop_last();
            self.lemma_matching_places(front);
            let before = self.matching_places(front);
            let places = self.matching_places(candidates);
            assert forall|k: int| 0 <= k < places.len() implies 0 <= #[trigger] places[k]
                < candidates.len() && self.matches(candidates[places[k]]) by {
                if k < before.len() {
                    assert(places[k] == before[k]);
                    assert(front[before[k]] == candidates[before[k]]);
                }
            }
            assert forall|k: int, l: int| 0 <= k < l < places.len() implies #[trigger] places[k]
                < #[trigger] places[l] by {
                assert(places[k] == before[k]);
                if l < before.len() {
                    assert(places[l] == before[l]);
                }
            }
            assert forall|j: int|
                0 <= j < candidates.len() && self.matches(#[trigger] candidates[j]) implies places.contains(
                j,
            ) by {
                if j < front.len() {
                    assert(front[j] == candidates[j]);
                    let k = choose|k: int| 0 <= k < before.len() && before[k] == j;
                    assert(places[k] == j);
                } else {
                    assert(places[places.len() - 1] == j);
                }
            }
        }
    }

    /// The candidate to pay is the one to pay of those that match.
    proof fn lemma_choice_among_matching(self, candidates: Seq<PaymentCandidate>, k: int)
        requires
            0 <= k < self.matching(candidates).len(),
        ensures
            self.is_choice(self.matching(candidates), k) <==> self.is_choice(
                candidates,
                self.matching_places(candidates)[k],
            ),
    {
        self.lemma_matching_places(candidates);
        let places = self.matching_places(candidates);
        let matching = self.matching(candidates);
        assert(matching[k] == candidates[places[k]]);
        if self.is_choice(matching, k) {
            assert forall|j: int|
                0 <= j < candidates.len() && self.matches(#[trigger] candidates[j]) implies {
                &&& !precedes(candidates[j].amount@, candidates[places[k]].amount@)
                &&& j < places[k] ==> precedes(candidates[places[k]].amount@, candidates[j].amount@)
            } by {
                let l = choose|l: int| 0 <= l < places.len() && places[l] == j;
                assert(matching[l] == candidates[j]);
                if k < l {
                    assert(places[k] < places[l]);
                }
            }
        }
        if self.is_choice(candidates, places[k]) {
            assert forall|l: int|
                0 <= l < matching.len() && self.matches(#[trigger] matching[l]) implies {
                &&& !precedes(matching[l].amount@, matching[k].amount@)
                &&& l < k ==> precedes(matching[k].amount@, matching[l].amount@)
            } by {
                assert(matching[l] == candidates[places[l]]);
                if l < k {
                    assert(places[l] < places[k]);
                }
            }
        }
    }
}

/// Where the same candidates match, the same one is to be paid.
proof fn lemma_same_choice(
    selector: InteractiveSelector,
    a: Seq<PaymentCandidate>,
    b: Seq<PaymentCandidate>,
    index: int,
) -> (other: int)
    requires
        selector.matching(a) == selector.matching(b),
        selector.is_choice(a, index),
    ensures
        selector.is_choice(b, other),
        b[other] == a[index],
{
    selector.lemma_matching_places(a);
    selector.lemma_matching_places(b);
    let places = selector.matching_places(a);
    let k = choose|k: int| 0 <= k < places.len() && places[k] == index;
    selector.lemma_choice_among_matching(a, k);
    selector.lemma_choice_among_matching(b, k);
    let other = selector.matching_places(b)[k];
    assert(selector.matching(a)[k] == a[index]);
    assert(selector.matching(b)[k] == b[other]);
    other
}

/// Candidates that do not match leave the choice as it is, wherever they stand:
/// where the same candidates match, in the same order, the user is asked about the
/// same one and is shown the same, or the refusal is the same.
pub proof fn law_other_candidates_keep_the_choice(
    selector: InteractiveSelector,
    a: Seq<PaymentCandidate>,
    b: Seq<PaymentCandidate>,
)
    requires
        selector.matching(a) == selector.matching(b),
    ensures
        forall|p: Proposal, q: Proposal| #[trigger]
            selector.proposes(a, p) && #[trigger] selector.proposes(b, q) ==> b[q.index as int]
                == a[p.index as int] && same_request(p.request, q.request),
        forall|failure: Option<PaymentSelectionFailure>| #[trigger]
            selector.refuses(a, failure) ==> selector.refuses(b, failure),
        forall|p: Proposal, failure: Option<PaymentSelectionFailure>|
            #[trigger] selector.proposes(a, p) ==> !#[trigger] selector.refuses(b, failure),
{
    assert forall|p: Proposal, q: Proposal| #[trigger]
        selector.proposes(a, p) && #[trigger] selector.proposes(b, q) implies b[q.index as int]
        == a[p.index as int] && same_request(p.request, q.request) by {
        let other = lemma_same_choice(selector, a, b, p.index as int);
        lemma_one_choice(selector, b, other, q.index as int);
    }
    assert forall|failure: Option<PaymentSelectionFailure>| #[trigger]
        selector.refuses(a, failure) implies selector.refuses(b, failure) by {
        lemma_same_refusal(selector, a, b, failure);
    }
    assert forall|p: Proposal, failure: Option<PaymentSelectionFailure>|
        #[trigger] selector.proposes(a, p) implies !#[trigger] selector.refuses(b, failure) by {
        if selector.refuses(b, failure) {
            lemma_same_refusal(selector, b, a, failure);
            law_refused_is_never_asked(selector, a, failure, p);
        }
    }
}

/// Where the same candidates match, the refusal is the same.
proof fn lemma_same_refusal(
    selector: InteractiveSelector,
    a: Seq<PaymentCandidate>,
    b: Seq<PaymentCandidate>,
    failure: Option<PaymentSelectionFailure>,
)
    requires
        selector.matching(a) == selector.matching(b),
        selector.refuses(a, failure),
    ensures
        selector.refuses(b, failure),
{
    selector.lemma_matching_places(a);
    selector.lemma_matching_places(b);
    match failure {
        Some(PaymentSelectionFailure::NoMatchingCandidates) => {
            assert forall|j: int| 0 <= j < b.len() implies !selector.matches(#[trigger] b[j]) by {
                if selector.matches(b[j]) {
                    let places = selector.matching_places(b);
                    let k = choose|k: int| 0 <= k < places.len() && places[k] == j;
                    assert(selector.matching(a).len() == selector.matching_places(a).len());
                    assert(selector.matching(b).len() == places.len());
                    assert(selector.matches(a[selector.matching_places(a)[k]]));
                }
            }
        },
        Some(PaymentSelectionFailure::ExceedsMaxUsdc { amount_usdc, max_usdc }) => {
            let i = choose|i: int| #[trigger]
                selector.is_choice(a, i) && amount_usdc.bits == demanded_bits(a[i]);
            let other = lemma_same_choice(selector, a, b, i);
            assert(selector.is_choice(b, other) && amount_usdc.bits == demanded_bits(b[other]));
        },
        _ => {},
    }
}

/// What the user is asked about keeps to the policy: an exact payment, on the
/// configured chain, in the configured mint, whose whole address is that of the
/// candidate at every place but for the case of ASCII letters; and within the cap,
/// by the bits of the two doubles. It is shown, and paid if the user approves, as the
/// candidate demands it, for the request as it was made.
pub proof fn law_proposal_keeps_to_the_policy(
    selector: InteractiveSelector,
    candidates: Seq<PaymentCandidate>,
    proposal: Proposal,
)
    requires
        selector.proposes(candidates, proposal),
    ensures
        0 <= proposal.index < candidates.len(),
        candidates[proposal.index as int].scheme@ == "exact"@,
        candidates[proposal.index as int].chain_id@ == selector.network_caip2@,
        ({
            let asset = candidates[proposal.index as int].asset@;
            let mint = selector.usdc_mint@;
            &&& asset.len() == mint.len()
            &&& forall|k: int|
                0 <= k < asset.len() ==> {
                    ||| (#[trigger] asset[k]) == mint[k]
                    ||| 65 <= (asset[k] as int) <= 90 && (mint[k] as int) == (asset[k] as int) + 32
                    ||| 65 <= (mint[k] as int) <= 90 && (asset[k] as int) == (mint[k] as int) + 32
                }
        }),
        selector.max_usdc matches Some(max) ==> {
            &&& max.bits <= 0x7ff0_0000_0000_0000 ==> proposal.request.amount_usdc.bits <= max.bits
            &&& 0x8000_0000_0000_0000 <= max.bits <= 0xfff0_0000_0000_0000 ==> max.bits
                == 0x8000_0000_0000_0000 && proposal.request.amount_usdc.bits == 0
        },
        proposal.request.amount_usdc.bits == usdc_bits(
            base_units(candidates[proposal.index as int].amount@),
        ),
        proposal.request.url@ == selector.url@,
        proposal.request.method@ == selector.method@,
        proposal.request.pay_to@ == candidates[proposal.index as int].pay_to@,
        proposal.request.asset_mint@ == candidates[proposal.index as int].asset@,
        proposal.request.network == selector.network,
        proposal.request.reason is Some <==> selector.reason is Some,
        proposal.request.reason is Some ==> proposal.request.reason->0@ == selector.reason->0@,
        proposal.payment.amount_usdc == proposal.request.amount_usdc,
        proposal.payment.pay_to@ == candidates[proposal.index as int].pay_to@,
        proposal.payment.network == selector.network,
{
    let candidate = candidates[proposal.index as int];
    law_case_is_all_that_is_ignored(candidate.asset@, selector.usdc_mint@);
    let units = base_units(candidate.amount@);
    law_usdc_keeps_order(units, units);
    if let Some(max) = selector.max_usdc {
        law_above_compares_bits(proposal.request.amount_usdc, max);
    }
}

/// A refusal has a cause: either no candidate is an exact payment on the configured
/// chain in the configured mint; or there is a cap, and one that is demands more.
pub proof fn law_refusal_has_a_cause(
    selector: InteractiveSelector,
    candidates: Seq<PaymentCandidate>,
    failure: Option<PaymentSelectionFailure>,
)
    requires
        selector.refuses(candidates, failure),
    ensures
        match failure {
            Some(PaymentSelectionFailure::NoMatchingCandidates) => forall|j: int|
                0 <= j < candidates.len() ==> {
                    ||| (#[trigger] candidates[j]).scheme@ != "exact"@
                    ||| candidates[j].chain_id@ != selector.network_caip2@
                    ||| ascii_lowered(candidates[j].asset@) != ascii_lowered(selector.usdc_mint@)
                },
            Some(PaymentSelectionFailure::ExceedsMaxUsdc { amount_usdc, max_usdc }) => {
                &&& selector.max_usdc == Some(max_usdc)
                &&& max_usdc.bits < 0x8000_0000_0000_0000 ==> amount_usdc.bits > max_usdc.bits
                &&& max_usdc.bits == 0x8000_0000_0000_0000 ==> amount_usdc.bits > 0
                &&& max_usdc.bits as int % 0x8000_0000_0000_0000 <= 0x7ff0_0000_0000_0000
                &&& exists|j: int|
                    {
                        &&& 0 <= j < candidates.len()
                        &&& (#[trigger] candidates[j]).scheme@ == "exact"@
                        &&& candidates[j].chain_id@ == selector.network_caip2@
                        &&& ascii_lowered(candidates[j].asset@) == ascii_lowered(
                            selector.usdc_mint@,
                        )
                        &&& amount_usdc.bits == usdc_bits(base_units(candidates[j].amount@))
                    }
            },
            _ => false,
        },
{
    if let Some(PaymentSelectionFailure::ExceedsMaxUsdc { amount_usdc, max_usdc }) = failure {
        law_above_compares_bits(amount_usdc, max_usdc);
        let i = choose|i: int| #[trigger]
            selector.is_choice(candidates, i) && amount_usdc.bits == demanded_bits(candidates[i]);
        let units = base_units(candidates[i].amount@);
        law_usdc_keeps_order(units, units);
        assert(candidates[i].scheme@ == "exact"@);
    }
}

/// Of the candidates that are exact payments on the configured chain in the
/// configured mint, with amounts written without leading zeros, the one that the
/// user is asked about demands the fewest base units, and those before it more.
pub proof fn law_cheapest_is_asked_about(
    selector: InteractiveSelector,
    candidates: Seq<PaymentCandidate>,
    proposal: Proposal,
    other: int,
)
    requires
        selector.proposes(candidates, proposal),
        0 <= other < candidates.len(),
        candidates[other].scheme@ == "exact"@,
        candidates[other].chain_id@ == selector.network_caip2@,
        ascii_lowered(candidates[other].asset@) == ascii_lowered(selector.usdc_mint@),
        forall|j: int|
            0 <= j < candidates.len() ==> {
                &&& (#[trigger] candidates[j]).amount@.len() > 0
                &&& candidates[j].amount@[0] == '0' ==> candidates[j].amount@.len() == 1
                &&& forall|k: int|
                    0 <= k < candidates[j].amount@.len() ==> 48 <= (
                    #[trigger] candidates[j].amount@[k] as int) <= 57
            },
    ensures
        base_units(candidates[proposal.index as int].amount@) <= base_units(
            candidates[other].amount@,
        ),
        other < proposal.index ==> base_units(candidates[proposal.index as int].amount@)
            < base_units(candidates[other].amount@),
{
    let a = candidates[proposal.index as int].amount@;
    let b = candidates[other].amount@;
    assert(selector.matches(candidates[other]));
    assert(is_canonical(a));
    assert(is_canonical(b));
    law_text_order_is_numeric(a, b);
    law_text_order_is_numeric(b, a);
    lemma_canonical_units(a);
    lemma_canonical_units(b);
}

/// Base units are read in decimal: a further digit counts ten times what stands
/// before it, and itself.
pub proof fn law_base_units_are_decimal(text: Seq<char>, digit: char)
    requires
        forall|k: int| 0 <= k < text.len() ==> 48 <= (#[trigger] text[k] as int) <= 57,
        48 <= (digit as int) <= 57,
    ensures
        base_units(seq![digit]) == (digit as int) - 48,
        text.len() > 0 ==> base_units(text.push(digit)) == 10 * base_units(text) + (digit as int) - 48,
{
    lemma_digits_read(seq![digit]);
    assert(digit_values(seq![digit]) =~= seq![digit_value(digit)]);
    assert(digit_values(seq![digit]).drop_last() =~= seq![]);
    reveal_with_fuel(digits_value, 2);
    if text.len() > 0 {
        let longer = text.push(digit);
        lemma_digits_read(text);
        lemma_digits_read(longer);
        assert(digit_values(longer).drop_last() =~= digit_values(text));
    }
}

/// Text of digits is the number that the digits write.
proof fn lemma_digits_read(text: Seq<char>)
    requires
        text.len() > 0,
        forall|k: int| 0 <= k < text.len() ==> 48 <= (#[trigger] text[k] as int) <= 57,
    ensures
        base_units(text) == digits_value(digit_values(text)),
        is_number(text),
{
    assert(is_digit(text[0]));
    assert(is_digit(text[text.len() - 1]));
    assert(trimmed(text) == text);
    assert(unsigned_part(text) == text);
    assert forall|k: int| 0 <= k < text.len() implies is_digit(#[trigger] text[k]) by {
    }
}

/// White space around base units, and a plus sign before them, count for nothing;
/// and what is not made of digits then is no amount.
pub proof fn law_what_counts_as_base_units(raw: Seq<char>, body: Seq<char>)
    requires
        body == if trimmed(raw).len() > 0 && trimmed(raw)[0] == '+' {
            trimmed(raw).skip(1)
        } else {
            trimmed(raw)
        },
    ensures
        base_units(raw) == base_units(trimmed(raw)),
        body.len() == 0 ==> base_units(raw) == 0,
        forall|k: int|
            0 <= k < body.len() && !(48 <= (#[trigger] body[k] as int) <= 57) ==> base_units(raw)
                == 0,
        body.len() > 0 && (forall|k: int|
            0 <= k < body.len() ==> 48 <= (#[trigger] body[k] as int) <= 57) ==> base_units(raw)
            == base_units(body),
{
    let text = trimmed(raw);
    lemma_trimmed_twice(raw);
    assert(body == unsigned_part(text));
    if body.len() > 0 && (forall|k: int|
        0 <= k < body.len() ==> 48 <= (#[trigger] body[k] as int) <= 57) {
        lemma_digits_read(body);
        assert(base_units(raw) == base_units(body));
    } else {
        if exists|k: int| 0 <= k < body.len() && !(48 <= (#[trigger] body[k] as int) <= 57) {
            let k = choose|k: int| 0 <= k < body.len() && !(48 <= (#[trigger] body[k] as int) <= 57);
            assert(!is_digit(body[k]));
        }
        assert(!is_number(body));
        assert(base_units(raw) == 0);
    }
}

/// A text that was trimmed stays as it is when it is trimmed again.
proof fn lemma_trimmed_twice(raw: Seq<char>)
    ensures
        trimmed(trimmed(raw)) == trimmed(raw),
{
    let (start, end) = law_trimming_takes_off_white_space(raw);
    let text = trimmed(raw);
    if text.len() > 0 {
        assert(text[0] == raw[start]);
        assert(text[text.len() - 1] == raw[end - 1]);
    }
}

/// A million base units are one USDC: the conversion divides by a million.
pub proof fn law_usdc_are_millions(units: nat)
    ensures
        usdc_bits(units) == ratio_bits(round_integer(units), 1_000_000),
{
    reveal_with_fuel(pow, 7);
    assert(pow(10, 6) == 1_000_000);
}

/// What comes of an answered request. A status of 402 is an error, and nothing else
/// is. A payment that was selected is recorded as settled, without an error, for the
/// statuses from 200 to 299, and for all others as failed, with the status in the
/// error; the record and the receipt are those of the payment, the request and the
/// moment.
pub proof fn law_record_tells_what_happened(
    req: PayAndFetchRequest,
    upper: Seq<char>,
    selector: InteractiveSelector,
    status: u16,
    line: Seq<char>,
    signature: Option<Seq<char>>,
    now: Timestamp,
    conclusion: Result<Conclusion, X402ClientError>,
)
    requires
        concludes(req, upper, selector, status, line, signature, now, conclusion),
    ensures
        conclusion is Err <==> status == 402,
        conclusion matches Ok(c) ==> {
            &&& c.outcome.status == status
            &&& c.entry is Some <==> selector.last_selection is Some
            &&& c.outcome.payment is Some <==> selector.last_selection is Some
        },
        conclusion matches Ok(c) ==> selector.last_selection is Some ==> {
            let payment = selector.last_selection->0;
            let receipt = c.outcome.payment->0;
            let entry = c.entry->0;
            &&& 200 <= status && status <= 299 ==> entry.status == PaymentStatus::Settled
                && entry.error is None
            &&& status < 200 || 299 < status ==> entry.status == PaymentStatus::Failed && (
            entry.error matches Some(error) && error@ == "upstream status "@ + line)
            &&& receipt.amount_usdc == payment.amount_usdc
            &&& receipt.pay_to@ == payment.pay_to@
            &&& receipt.network == payment.network
            &&& receipt.tx_signature is Some <==> signature is Some
            &&& receipt.tx_signature is Some ==> receipt.tx_signature->0@ == signature->0
            &&& entry.ts.secs == now.secs
            &&& entry.ts.nanos == now.nanos
            &&& entry.url@ == req.url@
            &&& entry.method@ == upper
            &&& entry.amount_usdc == payment.amount_usdc
            &&& entry.pay_to@ == payment.pay_to@
            &&& entry.network == payment.network
            &&& entry.tx_signature is Some <==> signature is Some
            &&& entry.tx_signature is Some ==> entry.tx_signature->0@ == signature->0
        },
{
}

/// A request that stays unpaid is reported with the reason of the selector, where it
/// has one, and as without a match where it has none.
pub proof fn law_reason_is_kept(
    failure: Option<PaymentSelectionFailure>,
    max_usdc: Option<Double>,
    error: X402ClientError,
    amount: Double,
    cap: Double,
)
    requires
        is_payment_error(failure, max_usdc, error),
    ensures
        failure == Some(PaymentSelectionFailure::UserDeclined) <==> error
            == X402ClientError::UserDeclined,
        failure == Some(PaymentSelectionFailure::UserCancelled) <==> error
            == X402ClientError::UserCancelled,
        failure == Some(
            PaymentSelectionFailure::ExceedsMaxUsdc { amount_usdc: amount, max_usdc: cap },
        ) <==> error == (X402ClientError::ExceedsMaxUsdc { amount_usdc: amount, max_usdc: cap }),
        failure is None || failure == Some(PaymentSelectionFailure::NoMatchingCandidates) <==> error
            == (X402ClientError::NoMatchingCandidates { max_usdc }),
{
}

/// The signature that a response gives stands in its header `x-payment-response`:
/// none without the header, or where the first value cannot be read; for a status
/// outside 200 to 299 the characters of that value; and for one from 200 to 299 what
/// is parsed from them.
pub proof fn law_signature_comes_from_its_header(
    status: u16,
    held: Map<Seq<char>, Seq<Seq<u8>>>,
    text: Seq<char>,
)
    ensures
        !held.dom().contains("x-payment-response"@) ==> response_signature(status, held) is None,
        ({
            let value = held["x-payment-response"@][0];
            held.dom().contains("x-payment-response"@) ==> {
                &&& (exists|k: int|
                    0 <= k < value.len() && (#[trigger] value[k]) != 9 && !(32 <= value[k] <= 126))
                    ==> response_signature(status, held) is None
                &&& text.len() == value.len() && (forall|k: int|
                    0 <= k < value.len() ==> ((#[trigger] value[k]) == 9 || 32 <= value[k] <= 126)
                        && (text[k] as int) == value[k] as int) ==> {
                    &&& status < 200 || 299 < status ==> response_signature(status, held) == Some(
                        text,
                    )
                    &&& 200 <= status && status <= 299 ==> response_signature(status, held)
                        == header_signature(text)
                }
            }
        }),
{
    let name = "x-payment-response"@;
    reveal_strlit("x-payment-response");
    assert(ascii_lowered(name) =~= name);
    if held.dom().contains(name) {
        let value = held[name][0];
        if exists|k: int|
            0 <= k < value.len() && (#[trigger] value[k]) != 9 && !(32 <= value[k] <= 126) {
            let k = choose|k: int|
                0 <= k < value.len() && (#[trigger] value[k]) != 9 && !(32 <= value[k] <= 126);
            assert(!is_visible(value[k]));
        }
        if text.len() == value.len() && (forall|k: int|
            0 <= k < value.len() ==> ((#[trigger] value[k]) == 9 || 32 <= value[k] <= 126) && (
            text[k] as int) == value[k] as int) {
            assert(is_visible_value(value)) by {
                assert forall|k: int| 0 <= k < value.len() implies is_visible(#[trigger] value[k]) by {
                }
            }
            assert(ascii_text(value) =~= text);
        }
    }
}

/// A method is one of seven, each with its own name.
pub proof fn law_seven_methods(upper: Seq<char>, method: HttpMethod)
    ensures
        is_method_name(upper) <==> {
            ||| upper == "GET"@
            ||| upper == "POST"@
            ||| upper == "PUT"@
            ||| upper == "PATCH"@
            ||| upper == "DELETE"@
            ||| upper == "HEAD"@
            ||| upper == "OPTIONS"@
        },
        method.name() == "GET"@ <==> method == HttpMethod::Get,
        method.name() == "POST"@ <==> method == HttpMethod::Post,
        method.name() == "PUT"@ <==> method == HttpMethod::Put,
        method.name() == "PATCH"@ <==> method == HttpMethod::Patch,
        method.name() == "DELETE"@ <==> method == HttpMethod::Delete,
        method.name() == "HEAD"@ <==> method == HttpMethod::Head,
        method.name() == "OPTIONS"@ <==> method == HttpMethod::Options,
{
    reveal_strlit("GET");
    reveal_strlit("POST");
    reveal_strlit("PUT");
    reveal_strlit("PATCH");
    reveal_strlit("DELETE");
    reveal_strlit("HEAD");
    reveal_strlit("OPTIONS");
    assert("GET"@[0] == 'G');
    assert("POST"@[0] == 'P');
    assert("PUT"@[0] == 'P');
    assert("PATCH"@[0] == 'P');
    assert("DELETE"@[0] == 'D');
    assert("HEAD"@[0] == 'H');
    assert("OPTIONS"@[0] == 'O');
    assert("GET"@.len() == 3 && "PUT"@.len() == 3);
    assert("POST"@.len() == 4 && "HEAD"@.len() == 4);
    assert("PATCH"@.len() == 5 && "DELETE"@.len() == 6 && "OPTIONS"@.len() == 7);
    assert(HttpMethod::Get.name() == "GET"@);
    assert(HttpMethod::Post.name() == "POST"@);
    assert(HttpMethod::Put.name() == "PUT"@);
    assert(HttpMethod::Patch.name() == "PATCH"@);
    assert(HttpMethod::Delete.name() == "DELETE"@);
    assert(HttpMethod::Head.name() == "HEAD"@);
    assert(HttpMethod::Options.name() == "OPTIONS"@);
}

/// A request is sent as it was made, and its payments are gated by the network that
/// the server is configured for: its chain, its USDC mint, and the cap and the reason
/// of the request.
pub proof fn law_request_is_sent_as_made(
    req: PayAndFetchRequest,
    upper: Seq<char>,
    network: Network,
    prepared: PreparedRequest,
)
    requires
        is_prepared(req, upper, network, prepared),
    ensures
        prepared.url@ == req.url@,
        prepared.method.name() == upper,
        prepared.body is Some <==> req.body is Some,
        prepared.body is Some ==> prepared.body->0@ == req.body->0@,
        header_values(prepared.headers) == headers_set(req.headers@),
        prepared.selector.network == network,
        network == Network::MainnetBeta ==> prepared.selector.network_caip2@
            == "solana:5eykt4UsFv8P8NJdTREpY1vzqKqZKvdp"@ && prepared.selector.usdc_mint@
            == "EPjFWdd5AufqSSqeM2qN1xzybapC8G4wEGGkZwyTDt1v"@,
        network == Network::Devnet ==> prepared.selector.network_caip2@
            == "solana:EtWTRABZaYq6iMfeYKouRu166VU2xqa1"@ && prepared.selector.usdc_mint@
            == "4zMMC9srt5Ri5X14GAgXhaHii3GnPAEERYPJgZJDncDU"@,
        prepared.selector.max_usdc == req.max_usdc,
        prepared.selector.method@ == upper,
        prepared.selector.url@ == req.url@,
        prepared.selector.reason is Some <==> req.reason is Some,
        prepared.selector.reason is Some ==> prepared.selector.reason->0@ == req.reason->0@,
        prepared.selector.last_selection is None,
        prepared.selector.selection_failure is None,
{
}

/// A request is refused only for what is wrong with it: its URL; or its method, which
/// is none of the seven; or a header; or that there are more headers than fit.
pub proof fn law_request_refusal_has_a_cause(
    req: PayAndFetchRequest,
    has_url: bool,
    upper: Seq<char>,
    error: X402ClientError,
) -> (place: int)
    requires
        refuses_request(req, has_url, upper, error),
    ensures
        error is InvalidUrl <==> !has_url,
        error matches X402ClientError::InvalidUrl(text) ==> text@ == req.url@,
        error matches X402ClientError::UnsupportedMethod(text) ==> text@ == req.method@,
        has_url ==> (error is UnsupportedMethod <==> {
            &&& upper != "GET"@
            &&& upper != "POST"@
            &&& upper != "PUT"@
            &&& upper != "PATCH"@
            &&& upper != "DELETE"@
            &&& upper != "HEAD"@
            &&& upper != "OPTIONS"@
        }),
        error is InvalidUrl || error is UnsupportedMethod || {
            &&& error is TooManyHeaders ==> req.headers@.len() > 6554
            &&& !(error is TooManyHeaders) ==> 0 <= place < req.headers@.len() && !(is_header_name(
                req.headers@[place].0@,
            ) && is_header_text(req.headers@[place].1@))
        },
{
    law_seven_methods(upper, HttpMethod::Get);
    if error is InvalidUrl || error is UnsupportedMethod {
        0
    } else {
        law_header_refusal_has_a_cause(req.headers@, error)
    }
}

/// Selecting keeps the policy of a selector: only what has been selected changes.
pub proof fn law_policy_stays(before: InteractiveSelector, after: InteractiveSelector)
    requires
        after.same_policy(before),
    ensures
        after.usdc_mint@ == before.usdc_mint@,
        after.network_caip2@ == before.network_caip2@,
        after.network == before.network,
        after.max_usdc == before.max_usdc,
        after.method@ == before.method@,
        after.url@ == before.url@,
        after.reason is Some <==> before.reason is Some,
        after.reason is Some ==> after.reason->0@ == before.reason->0@,
{
}

/// A prompt that was rejected, one that was cancelled, and an approval are told
/// apart.
pub proof fn law_decisions_are_told_apart()
    ensures
        declined(ApprovalDecision::Approve) is None,
        declined(ApprovalDecision::Reject) == Some(PaymentSelectionFailure::UserDeclined),
        declined(ApprovalDecision::Cancel) == Some(PaymentSelectionFailure::UserCancelled),
{
}

} // verus!
