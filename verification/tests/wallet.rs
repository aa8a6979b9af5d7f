use clam_core::config::{Config, ConfigPath, Network};
use clam_core::double::Double;
use clam_core::wallet::{
    keypair_from_bytes, load_keypair_file, TokenBalance, Wallet, WalletError, USDC_DECIMALS,
};
use solana_keypair::{Keypair, Signer};
use solana_pubkey::Pubkey;

fn config(network: Network) -> Config {
    Config {
        keypair_path: ConfigPath::Given("keypair.json".to_string()),
        network,
        rpc_url: String::new(),
        facilitator_url: String::new(),
        facilitator_api_key: None,
        ledger_path: ConfigPath::Given("payments.jsonl".to_string()),
    }
}

fn keypair() -> Keypair {
    Keypair::new_from_array([7; 32])
}

fn json(bytes: &[u8]) -> String {
    format!("{bytes:?}")
}

fn wallet(network: Network) -> Wallet {
    Wallet::from_config(&config(network), "keypair.json", &json(&keypair().to_bytes())).ok().unwrap()
}

#[test]
fn a_usdc_has_six_decimals() {
    assert_eq!(USDC_DECIMALS, 6);
}

#[test]
fn a_keypair_file_is_a_json_array_of_bytes() {
    let loaded = load_keypair_file("k", &json(&keypair().to_bytes())).ok().unwrap();
    assert_eq!(loaded.bytes, keypair().to_bytes());
    assert_eq!(loaded.pubkey, keypair().pubkey().to_bytes());
}

#[test]
fn what_is_no_array_of_bytes_is_refused() {
    for raw in ["", "{}", "[1, 2", "[256]", "[-1]", "\"text\"", "[1.5]"] {
        match load_keypair_file("some/path", raw) {
            Err(WalletError::ParseKeypair { path, .. }) => assert_eq!(path, "some/path"),
            _ => panic!("{raw:?}"),
        }
    }
}

#[test]
fn a_keypair_has_sixty_four_bytes() {
    for len in [0usize, 32, 63, 65] {
        match load_keypair_file("p", &json(&vec![0; len])) {
            Err(WalletError::KeypairLength { path, got }) => {
                assert_eq!(path, "p");
                assert_eq!(got, len);
            }
            _ => panic!("{len}"),
        }
    }
}

#[test]
fn a_public_key_that_does_not_belong_is_refused() {
    let mut bytes = keypair().to_bytes().to_vec();
    bytes[32..].copy_from_slice(&Keypair::new_from_array([8; 32]).pubkey().to_bytes());
    assert!(matches!(keypair_from_bytes("p", bytes), Err(WalletError::InvalidKeypair)));
}

#[test]
fn a_wallet_shows_its_keys_and_accounts() {
    for network in [Network::Devnet, Network::MainnetBeta] {
        let wallet = wallet(network);
        let mint: Pubkey = network.usdc_mint().parse().unwrap();
        let token_program: Pubkey = "TokenkegQfeZyiNwAJbNbGKPFXCWuBvf9Ss623VQ5DA".parse().unwrap();
        let program: Pubkey = "ATokenGPvbdGVxr1b2hvZbsiqW5xWH25efTNsLJA8knL".parse().unwrap();
        let owner = keypair().pubkey().to_bytes();
        let (account, _) = Pubkey::find_program_address(
            &[&owner, &token_program.to_bytes(), &mint.to_bytes()],
            &program,
        );
        assert_eq!(wallet.pubkey(), owner);
        assert_eq!(wallet.keypair().as_slice(), keypair().to_bytes());
        assert_eq!(wallet.network(), network);
        assert_eq!(wallet.usdc_mint(), mint.to_bytes());
        assert_eq!(wallet.usdc_ata(), account.to_bytes());
        assert_ne!(wallet.usdc_ata(), owner);
    }
}

#[test]
fn a_wallet_needs_a_keypair() {
    let config = config(Network::Devnet);
    assert!(matches!(Wallet::from_config(&config, "p", "no json"), Err(WalletError::ParseKeypair { .. })));
    assert!(matches!(Wallet::from_config(&config, "p", "[1]"), Err(WalletError::KeypairLength { got: 1, .. })));
    let other = [keypair().to_bytes()[..32].to_vec(), vec![9; 32]].concat();
    assert!(matches!(Wallet::from_config(&config, "p", &json(&other)), Err(WalletError::InvalidKeypair)));
}

#[test]
fn info_shows_addresses_and_balances() {
    let wallet = wallet(Network::Devnet);
    let usdc = Double { bits: 4.5f64.to_bits() };
    let info = wallet.info(987_000_000, TokenBalance::Reported(Some(usdc)));
    assert_eq!(info.address, keypair().pubkey().to_string());
    assert_eq!(info.network, Network::Devnet);
    assert_eq!(f64::from_bits(info.sol_balance.bits), 0.987);
    assert_eq!(f64::from_bits(info.usdc_balance.bits), 4.5);
    assert_eq!(info.usdc_mint, "4zMMC9srt5Ri5X14GAgXhaHii3GnPAEERYPJgZJDncDU");
    assert_eq!(info.usdc_ata, Pubkey::new_from_array(wallet.usdc_ata()).to_string());
}

#[test]
fn an_unknown_usdc_balance_is_shown_as_zero() {
    let wallet = wallet(Network::Devnet);
    for reply in [TokenBalance::Reported(None), TokenBalance::Unavailable] {
        assert_eq!(f64::from_bits(wallet.info(0, reply).usdc_balance.bits), 0.0);
    }
}
