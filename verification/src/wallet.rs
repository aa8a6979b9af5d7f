//! Solana wallet operations: load a local keypair, derive its USDC associated
//! token account, and show SOL + USDC balances.
//!
//! The keypair only ever exists in this process. Nothing in the MCP tool
//! surface exposes it to the agent, neither directly nor indirectly.

use std::sync::Arc;

use solana_keypair::{Keypair, Signer};
use solana_pubkey::Pubkey;
use spl_associated_token_account::get_associated_token_address_with_program_id;
use vstd::prelude::*;

use crate::config::{Config, Network};
use crate::decimal::round_u64;
use crate::double::{lemma_quotient_order, ratio_bits, ratio_to_double, round_integer, Double};

verus! {

/// One USDC = 10^6 base units.
pub const USDC_DECIMALS: u8 = 6;

/// One SOL = 10^9 lamports.
pub const LAMPORTS_PER_SOL: u64 = 1_000_000_000;

/// Length of a keypair: the secret key and then the public key.
pub const KEYPAIR_LENGTH: usize = 64;

/// [`serde_json::Error`], opaque here.
#[verifier::external_type_specification]
#[verifier::external_body]
pub struct ExJsonError(serde_json::Error);

/// The bytes that a JSON array of numbers below 256 lists, if the text is one.
pub uninterp spec fn json_bytes(text: Seq<char>) -> Option<Seq<u8>>;

/// Whether bytes are an Ed25519 keypair: a secret key and the public key that
/// belongs to it.
pub uninterp spec fn is_keypair(bytes: Seq<u8>) -> bool;

/// The address that a base58 text writes, if it writes one.
pub uninterp spec fn parsed_address(text: Seq<char>) -> Option<Seq<u8>>;

/// The base58 text of an address.
pub uninterp spec fn address_text(address: Seq<u8>) -> Seq<char>;

/// The address that a program derives from seeds, if there is one.
pub uninterp spec fn program_address(seeds: Seq<Seq<u8>>, program: Seq<u8>) -> Option<Seq<u8>>;

/// The bytes that a JSON array lists.
///
/// Calls `serde_json::from_str` for a `Vec<u8>`. Claimed of it: whether it
/// succeeds, and with which bytes, depends on the text alone.
#[verifier::external_body]
fn parse_bytes(text: &str) -> (bytes: Result<Vec<u8>, serde_json::Error>)
    ensures
        match bytes {
            Ok(b) => json_bytes(text@) == Some(b@),
            Err(_) => json_bytes(text@) is None,
        },
{
    serde_json::from_str(text)
}

/// The public key of a keypair.
///
/// Calls `Keypair::try_from` and, on the keypair, `pubkey`. Claimed of them: that
/// bytes are taken depends on the bytes alone; those taken are 64, and the last
/// 32 of them are the public key.
#[verifier::external_body]
fn public_key(bytes: &Vec<u8>) -> (key: Option<[u8; 32]>)
    ensures
        match key {
            Some(k) => {
                &&& is_keypair(bytes@)
                &&& bytes@.len() == 64
                &&& k@ == bytes@.subrange(32, 64)
            },
            None => !is_keypair(bytes@),
        },
{
    Keypair::try_from(bytes.as_slice()).ok().map(|keypair| keypair.pubkey().to_bytes())
}

/// The address that a base58 text writes.
///
/// Calls `Pubkey::from_str`. Claimed of it: whether it succeeds, and with which
/// address, depends on the text alone.
#[verifier::external_body]
fn parse_address(text: &str) -> (address: Option<[u8; 32]>)
    ensures
        match address {
            Some(a) => parsed_address(text@) == Some(a@),
            None => parsed_address(text@) is None,
        },
{
    text.parse::<Pubkey>().ok().map(|address| address.to_bytes())
}

/// The base58 text of an address.
///
/// Calls the `to_string` of a `Pubkey`. Claimed of it: the text depends on the
/// address alone.
#[verifier::external_body]
fn show_address(address: &[u8; 32]) -> (text: String)
    ensures
        text@ == address_text(address@),
{
    Pubkey::new_from_array(*address).to_string()
}

/// The address of the token program.
///
/// Reads `spl_token::ID`. Claimed of it: it is the address with this base58
/// text, as the crate declares it.
#[verifier::external_body]
fn token_program_id() -> (id: [u8; 32])
    ensures
        parsed_address("TokenkegQfeZyiNwAJbNbGKPFXCWuBvf9Ss623VQ5DA"@) == Some(id@),
{
    spl_token::ID.to_bytes()
}

/// The address of the associated token account program.
///
/// Reads `spl_associated_token_account::ID`. Claimed of it: it is the address
/// with this base58 text, as the crate declares it.
#[verifier::external_body]
fn associated_program_id() -> (id: [u8; 32])
    ensures
        parsed_address("ATokenGPvbdGVxr1b2hvZbsiqW5xWH25efTNsLJA8knL"@) == Some(id@),
{
    spl_associated_token_account::ID.to_bytes()
}

/// Whether `program` derives an address from three seeds.
///
/// Calls `Pubkey::try_find_program_address`. Claimed of it: whether there is an
/// address depends on the seeds and the program alone.
#[verifier::external_body]
fn has_program_address(
    first: &[u8; 32],
    second: &[u8; 32],
    third: &[u8; 32],
    program: &[u8; 32],
) -> (found: bool)
    ensures
        found == program_address(seq![first@, second@, third@], program@) is Some,
{
    let program = Pubkey::new_from_array(*program);
    Pubkey::try_find_program_address(&[first, second, third], &program).is_some()
}

/// The address of the account that holds the tokens of a wallet.
///
/// Calls `get_associated_token_address_with_program_id`, which panics where there
/// is no such address. Claimed of it: it is the address that the associated token
/// account program derives from the wallet, the token program and the mint.
#[verifier::external_body]
fn token_account_address(
    wallet: &[u8; 32],
    mint: &[u8; 32],
    token_program: &[u8; 32],
) -> (address: [u8; 32])
    requires
        token_account_of(wallet@, mint@, token_program@) is Some,
    ensures
        token_account_of(wallet@, mint@, token_program@) == Some(address@),
{
    get_associated_token_address_with_program_id(
        &Pubkey::new_from_array(*wallet),
        &Pubkey::new_from_array(*mint),
        &Pubkey::new_from_array(*token_program),
    ).to_bytes()
}

/// The address of the account that holds a wallet's tokens of one mint, if there
/// is one.
pub open spec fn token_account_of(
    wallet: Seq<u8>,
    mint: Seq<u8>,
    token_program: Seq<u8>,
) -> Option<Seq<u8>> {
    match parsed_address("ATokenGPvbdGVxr1b2hvZbsiqW5xWH25efTNsLJA8knL"@) {
        Some(program) => program_address(seq![wallet, token_program, mint], program),
        None => None,
    }
}

/// The address of the account that holds a wallet's USDC on a network, if there
/// is one.
pub open spec fn usdc_account_of(wallet: Seq<u8>, mint: Seq<u8>) -> Option<Seq<u8>> {
    match parsed_address("TokenkegQfeZyiNwAJbNbGKPFXCWuBvf9Ss623VQ5DA"@) {
        Some(token_program) => token_account_of(wallet, mint, token_program),
        None => None,
    }
}

#[derive(Debug)]
#[allow(inconsistent_fields)]
pub enum WalletError {
    /// The keypair file is not a valid `solana-keygen` JSON array.
    ParseKeypair { path: String, source: serde_json::Error },
    /// The keypair file has the wrong number of bytes.
    KeypairLength { path: String, got: usize },
    /// The text is not an address.
    InvalidPubkey(String),
    /// The bytes are not a keypair.
    InvalidKeypair,
    /// The wallet has no token account address for the mint.
    NoTokenAccount,
}

/// A keypair as bytes, the secret key and then the public key, with the public
/// key by itself.
pub struct LoadedKeypair {
    pub bytes: Vec<u8>,
    pub pubkey: [u8; 32],
}

impl LoadedKeypair {
    /// Whether the bytes are a keypair with this public key.
    pub open spec fn well_formed(self) -> bool {
        &&& self.bytes@.len() == KEYPAIR_LENGTH
        &&& is_keypair(self.bytes@)
        &&& self.pubkey@ == self.bytes@.subrange(32, 64)
    }
}

/// The keypair in the bytes that a keypair file lists.
pub fn keypair_from_bytes(path: &str, bytes: Vec<u8>) -> (keypair: Result<LoadedKeypair, WalletError>)
    ensures
        match keypair {
            Ok(k) => k.well_formed() && k.bytes@ == bytes@,
            Err(WalletError::KeypairLength { path: p, got }) => {
                &&& bytes@.len() != KEYPAIR_LENGTH
                &&& p@ == path@
                &&& got == bytes@.len()
            },
            Err(WalletError::InvalidKeypair) => bytes@.len() == KEYPAIR_LENGTH && !is_keypair(bytes@),
            Err(_) => false,
        },
{
    if bytes.len() != KEYPAIR_LENGTH {
        return Err(WalletError::KeypairLength { path: path.to_string(), got: bytes.len() });
    }
    match public_key(&bytes) {
        Some(pubkey) => Ok(LoadedKeypair { bytes, pubkey }),
        None => Err(WalletError::InvalidKeypair),
    }
}

/// The keypair in the text of the keypair file at `path`.
pub fn load_keypair_file(path: &str, raw: &str) -> (keypair: Result<LoadedKeypair, WalletError>)
    ensures
        match keypair {
            Ok(k) => k.well_formed() && json_bytes(raw@) == Some(k.bytes@),
            Err(WalletError::ParseKeypair { path: p, source }) => json_bytes(raw@) is None && p@
                == path@,
            Err(WalletError::KeypairLength { path: p, got }) => {
                &&& json_bytes(raw@) matches Some(bytes) && bytes.len() != KEYPAIR_LENGTH && got
                    == bytes.len()
                &&& p@ == path@
            },
            Err(WalletError::InvalidKeypair) => json_bytes(raw@) matches Some(bytes)
                && bytes.len() == KEYPAIR_LENGTH && !is_keypair(bytes),
            Err(_) => false,
        },
{
    match parse_bytes(raw) {
        Ok(bytes) => keypair_from_bytes(path, bytes),
        Err(source) => Err(WalletError::ParseKeypair { path: path.to_string(), source }),
    }
}

/// A loaded Solana wallet plus the network it's bound to and the USDC mint for
/// that network. Cheap to clone (the keypair is held behind an [`Arc`]).
#[derive(Clone)]
pub struct Wallet {
    keypair: Arc<Vec<u8>>,
    pubkey: [u8; 32],
    network: Network,
    usdc_mint: [u8; 32],
    usdc_ata: [u8; 32],
}

/// What a wallet shows of itself.
pub struct WalletView {
    /// The secret key and then the public key.
    pub keypair: Seq<u8>,
    pub pubkey: Seq<u8>,
    pub network: Network,
    pub usdc_mint: Seq<u8>,
    pub usdc_ata: Seq<u8>,
}

impl View for Wallet {
    type V = WalletView;

    closed spec fn view(&self) -> WalletView {
        WalletView {
            keypair: self.keypair@,
            pubkey: self.pubkey@,
            network: self.network,
            usdc_mint: self.usdc_mint@,
            usdc_ata: self.usdc_ata@,
        }
    }
}

impl WalletView {
    /// Whether the wallet is one of the network: it has a keypair and shows its
    /// public key, the network's USDC mint and its own account for that mint.
    pub open spec fn well_formed(self) -> bool {
        &&& self.keypair.len() == KEYPAIR_LENGTH
        &&& is_keypair(self.keypair)
        &&& self.pubkey == self.keypair.subrange(32, 64)
        &&& parsed_address(self.network.mint()) == Some(self.usdc_mint)
        &&& usdc_account_of(self.pubkey, self.usdc_mint) == Some(self.usdc_ata)
    }
}

/// The answer to a request for the balance of a token account.
#[derive(Debug, Clone, Copy)]
pub enum TokenBalance {
    /// The account's balance in whole tokens, where the answer gives one.
    Reported(Option<Double>),
    /// There was no answer.
    Unavailable,
}

impl TokenBalance {
    /// The balance that is shown: zero where none is known.
    pub open spec fn shown(self) -> Double {
        match self {
            TokenBalance::Reported(Some(amount)) => amount,
            _ => Double { bits: 0 },
        }
    }
}

impl Wallet {
    /// Loads the wallet of a configuration from the text of its keypair file,
    /// which lies at `path`.
    pub fn from_config(config: &Config, path: &str, raw: &str) -> (wallet: Result<Wallet, WalletError>)
        ensures
            match wallet {
                Ok(w) => {
                    &&& w@.well_formed()
                    &&& w@.network == config.network
                    &&& json_bytes(raw@) == Some(w@.keypair)
                },
                Err(WalletError::ParseKeypair { path: p, source }) => json_bytes(raw@) is None && p@
                    == path@,
                Err(WalletError::KeypairLength { path: p, got }) => {
                    &&& json_bytes(raw@) matches Some(bytes) && bytes.len() != KEYPAIR_LENGTH && got
                        == bytes.len()
                    &&& p@ == path@
                },
                Err(WalletError::InvalidKeypair) => json_bytes(raw@) matches Some(bytes)
                    && bytes.len() == KEYPAIR_LENGTH && !is_keypair(bytes),
                Err(WalletError::InvalidPubkey(text)) => {
                    &&& holds_keypair(raw@)
                    &&& parsed_address(config.network.mint()) is None
                    &&& text@ == config.network.mint()
                },
                Err(WalletError::NoTokenAccount) => {
                    &&& holds_keypair(raw@)
                    &&& parsed_address(config.network.mint()) matches Some(mint)
                        && usdc_account_of(json_bytes(raw@)->0.subrange(32, 64), mint) is None
                },
            },
    {
        let loaded = match load_keypair_file(path, raw) {
            Ok(loaded) => loaded,
            Err(error) => {
                return Err(error);
            },
        };
        let pubkey = loaded.pubkey;
        let usdc_mint = match parse_address(config.network.usdc_mint()) {
            Some(mint) => mint,
            None => {
                return Err(WalletError::InvalidPubkey(config.network.usdc_mint().to_string()));
            },
        };
        let token_program = token_program_id();
        let program = associated_program_id();
        if !has_program_address(&pubkey, &token_program, &usdc_mint, &program) {
            return Err(WalletError::NoTokenAccount);
        }
        let usdc_ata = token_account_address(&pubkey, &usdc_mint, &token_program);
        Ok(
            Wallet {
                keypair: Arc::new(loaded.bytes),
                pubkey,
                network: config.network,
                usdc_mint,
                usdc_ata,
            },
        )
    }

    /// Buyer pubkey (Solana address).
    pub fn pubkey(&self) -> (pubkey: [u8; 32])
        ensures
            pubkey@ == self@.pubkey,
    {
        self.pubkey
    }

    /// Owned reference to the keypair. Used internally by the x402 client to
    /// sign payment transactions; never exposed via any MCP tool.
    pub fn keypair(&self) -> (keypair: Arc<Vec<u8>>)
        ensures
            keypair@ == self@.keypair,
    {
        Arc::clone(&self.keypair)
    }

    pub fn network(&self) -> (network: Network)
        ensures
            network == self@.network,
    {
        self.network
    }

    pub fn usdc_mint(&self) -> (mint: [u8; 32])
        ensures
            mint@ == self@.usdc_mint,
    {
        self.usdc_mint
    }

    pub fn usdc_ata(&self) -> (account: [u8; 32])
        ensures
            account@ == self@.usdc_ata,
    {
        self.usdc_ata
    }

    /// The wallet's SOL and USDC balances, shaped for the `wallet_info` MCP
    /// tool, given what the network answered.
    pub fn info(&self, sol_lamports: u64, usdc: TokenBalance) -> (info: WalletInfo)
        ensures
            info@ == info_of(self@, sol_lamports, usdc),
    {
        let usdc_balance = match usdc {
            TokenBalance::Reported(Some(amount)) => amount,
            TokenBalance::Reported(None) => Double { bits: 0 },
            TokenBalance::Unavailable => Double { bits: 0 },
        };
        WalletInfo {
            address: show_address(&self.pubkey),
            network: self.network,
            sol_balance: lamports_to_sol(sol_lamports),
            usdc_balance,
            usdc_ata: show_address(&self.usdc_ata),
            usdc_mint: show_address(&self.usdc_mint),
        }
    }
}

/// Whether a keypair file holds a keypair.
pub open spec fn holds_keypair(raw: Seq<char>) -> bool {
    json_bytes(raw) matches Some(bytes) && bytes.len() == KEYPAIR_LENGTH && is_keypair(bytes)
}

/// Public view of the wallet returned by the `wallet_info` MCP tool.
#[derive(Debug, Clone)]
pub struct WalletInfo {
    pub address: String,
    pub network: Network,
    pub sol_balance: Double,
    pub usdc_balance: Double,
    pub usdc_ata: String,
    pub usdc_mint: String,
}

/// The model of a [`WalletInfo`].
pub struct InfoView {
    pub address: Seq<char>,
    pub network: Network,
    pub sol_balance: Double,
    pub usdc_balance: Double,
    pub usdc_ata: Seq<char>,
    pub usdc_mint: Seq<char>,
}

impl View for WalletInfo {
    type V = InfoView;

    open spec fn view(&self) -> InfoView {
        InfoView {
            address: self.address@,
            network: self.network,
            sol_balance: self.sol_balance,
            usdc_balance: self.usdc_balance,
            usdc_ata: self.usdc_ata@,
            usdc_mint: self.usdc_mint@,
        }
    }
}

/// The SOL that lamports are, as the nearest double of the quotient.
pub open spec fn sol_bits(lamports: u64) -> int {
    ratio_bits(round_integer(lamports as nat), LAMPORTS_PER_SOL as nat)
}

/// What is shown of a wallet with these balances.
pub open spec fn info_of(wallet: WalletView, sol_lamports: u64, usdc: TokenBalance) -> InfoView {
    InfoView {
        address: address_text(wallet.pubkey),
        network: wallet.network,
        sol_balance: Double { bits: sol_bits(sol_lamports) as u64 },
        usdc_balance: usdc.shown(),
        usdc_ata: address_text(wallet.usdc_ata),
        usdc_mint: address_text(wallet.usdc_mint),
    }
}

/// Lamports in SOL.
pub fn lamports_to_sol(lamports: u64) -> (sol: Double)
    ensures
        sol.bits == sol_bits(lamports),
{
    let (mantissa, shift) = round_u64(lamports);
    ratio_to_double(mantissa, shift, LAMPORTS_PER_SOL)
}

/// Nothing shown of a wallet tells its secret key: two wallets of one network
/// with the same public key show the same, whatever their secret keys.
pub proof fn law_info_hides_the_secret_key(
    a: WalletView,
    b: WalletView,
    sol_lamports: u64,
    usdc: TokenBalance,
)
    requires
        a.well_formed(),
        b.well_formed(),
        a.network == b.network,
        a.pubkey == b.pubkey,
    ensures
        info_of(a, sol_lamports, usdc) == info_of(b, sol_lamports, usdc),
{
}

/// What is shown of a wallet is what it is: its own address, its own network, and the
/// addresses of its own account and mint; the SOL are the lamports, a billion of them
/// to one; the USDC are those reported, and none where none are.
pub proof fn law_info_shows_the_wallet(wallet: WalletView, sol_lamports: u64, usdc: TokenBalance)
    ensures
        info_of(wallet, sol_lamports, usdc).address == address_text(wallet.pubkey),
        info_of(wallet, sol_lamports, usdc).network == wallet.network,
        info_of(wallet, sol_lamports, usdc).usdc_ata == address_text(wallet.usdc_ata),
        info_of(wallet, sol_lamports, usdc).usdc_mint == address_text(wallet.usdc_mint),
        info_of(wallet, sol_lamports, usdc).sol_balance.bits == ratio_bits(
            round_integer(sol_lamports as nat),
            1_000_000_000,
        ),
        usdc matches TokenBalance::Reported(Some(amount)) ==> info_of(
            wallet,
            sol_lamports,
            usdc,
        ).usdc_balance == amount,
        !(usdc matches TokenBalance::Reported(Some(_))) ==> info_of(
            wallet,
            sol_lamports,
            usdc,
        ).usdc_balance.bits == 0,
{
    lemma_quotient_order(sol_lamports as nat, sol_lamports as nat, 1_000_000_000);
}

/// The network that is shown is the one whose USDC mint is shown.
pub proof fn law_network_shown_is_that_of_the_mint(
    wallet: WalletView,
    sol_lamports: u64,
    usdc: TokenBalance,
)
    requires
        wallet.well_formed(),
    ensures
        ({
            let info = info_of(wallet, sol_lamports, usdc);
            let mint = if info.network == Network::MainnetBeta {
                parsed_address("EPjFWdd5AufqSSqeM2qN1xzybapC8G4wEGGkZwyTDt1v"@)
            } else {
                parsed_address("4zMMC9srt5Ri5X14GAgXhaHii3GnPAEERYPJgZJDncDU"@)
            };
            mint is Some && info.usdc_mint == address_text(mint->0)
        }),
{
}

/// Wallets on different networks show different networks.
pub proof fn law_networks_shown_differ(
    a: WalletView,
    b: WalletView,
    lamports_a: u64,
    lamports_b: u64,
    usdc_a: TokenBalance,
    usdc_b: TokenBalance,
)
    requires
        a.network != b.network,
    ensures
        info_of(a, lamports_a, usdc_a).network != info_of(b, lamports_b, usdc_b).network,
{
}

/// A wallet holds a keypair of 64 bytes, the last 32 of which are its public key; its
/// USDC mint is that of its network; and its account is the one that the associated
/// token account program derives from its public key, the token program and the mint.
pub proof fn law_wallet_belongs_together(wallet: WalletView)
    requires
        wallet.well_formed(),
    ensures
        wallet.keypair.len() == 64,
        is_keypair(wallet.keypair),
        wallet.pubkey == wallet.keypair.subrange(32, 64),
        wallet.network == Network::MainnetBeta ==> parsed_address(
            "EPjFWdd5AufqSSqeM2qN1xzybapC8G4wEGGkZwyTDt1v"@,
        ) == Some(wallet.usdc_mint),
        wallet.network == Network::Devnet ==> parsed_address(
            "4zMMC9srt5Ri5X14GAgXhaHii3GnPAEERYPJgZJDncDU"@,
        ) == Some(wallet.usdc_mint),
        ({
            let token_program = parsed_address("TokenkegQfeZyiNwAJbNbGKPFXCWuBvf9Ss623VQ5DA"@);
            let program = parsed_address("ATokenGPvbdGVxr1b2hvZbsiqW5xWH25efTNsLJA8knL"@);
            &&& token_program is Some
            &&& program is Some
            &&& program_address(
                seq![wallet.pubkey, token_program->0, wallet.usdc_mint],
                program->0,
            ) == Some(wallet.usdc_ata)
        }),
{
}

/// A keypair that was loaded has 64 bytes, the last 32 of which are its public key;
/// and a file holds a keypair if it lists 64 bytes that are one.
pub proof fn law_keypairs_have_64_bytes(keypair: LoadedKeypair, raw: Seq<char>)
    ensures
        keypair.well_formed() <==> {
            &&& keypair.bytes@.len() == 64
            &&& is_keypair(keypair.bytes@)
            &&& keypair.pubkey@ == keypair.bytes@.subrange(32, 64)
        },
        holds_keypair(raw) <==> {
            &&& json_bytes(raw) is Some
            &&& json_bytes(raw)->0.len() == 64
            &&& is_keypair(json_bytes(raw)->0)
        },
{
}

/// The account of a wallet is derived from its address, the token program and the
/// mint, in this order, for every wallet and every mint.
pub proof fn law_accounts_are_derived(
    wallet: Seq<u8>,
    mint: Seq<u8>,
    token_program: Seq<u8>,
    program: Seq<u8>,
)
    requires
        parsed_address("TokenkegQfeZyiNwAJbNbGKPFXCWuBvf9Ss623VQ5DA"@) == Some(token_program),
        parsed_address("ATokenGPvbdGVxr1b2hvZbsiqW5xWH25efTNsLJA8knL"@) == Some(program),
    ensures
        usdc_account_of(wallet, mint) == program_address(
            seq![wallet, token_program, mint],
            program,
        ),
{
}

/// A wallet's info is shown field by field, and SOL are billions of lamports.
pub proof fn law_info_is_shown_field_by_field(info: WalletInfo, lamports: u64)
    ensures
        info@.address == info.address@,
        info@.network == info.network,
        info@.sol_balance == info.sol_balance,
        info@.usdc_balance == info.usdc_balance,
        info@.usdc_ata == info.usdc_ata@,
        info@.usdc_mint == info.usdc_mint@,
        sol_bits(lamports) == ratio_bits(round_integer(lamports as nat), 1_000_000_000),
{
}

} // verus!
