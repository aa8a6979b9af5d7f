//! Wallet, x402 payment client and payment ledger.

pub mod base64;
pub mod config;
pub mod decimal;
pub mod double;
pub mod headers;
pub mod ledger;
pub mod server;
pub mod settlement;
pub mod text;
pub mod wallet;
pub mod x402_client;

pub use config::{Config, Network};
pub use ledger::{Ledger, LedgerEntry, PaymentStatus};
pub use wallet::{Wallet, WalletInfo};
pub use x402_client::{
    ApprovalDecision, ApprovalRequest, ClamX402Client, PayAndFetchOutcome, PayAndFetchRequest,
    PaymentReceipt,
};
