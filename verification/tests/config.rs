use clam_core::config::{
    default_config_dir, Config, ConfigError, ConfigPath, DirState, EnvVars, Network,
    DEFAULT_FACILITATOR_URL, USDC_DEVNET_MINT, USDC_MAINNET_MINT,
};

fn no_vars() -> EnvVars {
    EnvVars {
        network: None,
        keypair_path: None,
        ledger_path: None,
        rpc_url: None,
        facilitator_url: None,
        facilitator_api_key: None,
        home: Some(b"/home/clam".to_vec()),
    }
}

fn parts(path: &ConfigPath) -> Vec<String> {
    match path {
        ConfigPath::UnderHome(parts) => parts.clone(),
        ConfigPath::Given(_) => panic!("a path under the home directory was expected"),
    }
}

fn given(path: &ConfigPath) -> &str {
    match path {
        ConfigPath::Given(path) => path,
        ConfigPath::UnderHome(_) => panic!("a given path was expected"),
    }
}

#[test]
fn networks_have_names_chains_endpoints_and_mints() {
    assert_eq!(Network::Devnet.as_str(), "devnet");
    assert_eq!(Network::MainnetBeta.as_str(), "mainnet-beta");
    assert_eq!(Network::Devnet.caip2(), "solana:EtWTRABZaYq6iMfeYKouRu166VU2xqa1");
    assert_eq!(Network::MainnetBeta.caip2(), "solana:5eykt4UsFv8P8NJdTREpY1vzqKqZKvdp");
    assert_eq!(Network::Devnet.default_rpc_url(), "https://api.devnet.solana.com");
    assert_eq!(Network::MainnetBeta.default_rpc_url(), "https://api.mainnet-beta.solana.com");
    assert_eq!(Network::Devnet.usdc_mint(), USDC_DEVNET_MINT);
    assert_eq!(Network::MainnetBeta.usdc_mint(), USDC_MAINNET_MINT);
}

#[test]
fn network_names_and_aliases_parse() {
    for name in ["mainnet", "mainnet-beta", "solana-mainnet"] {
        assert_eq!(name.parse::<Network>().unwrap(), Network::MainnetBeta);
    }
    for name in ["devnet", "solana-devnet"] {
        assert_eq!(name.parse::<Network>().unwrap(), Network::Devnet);
    }
    for network in [Network::Devnet, Network::MainnetBeta] {
        assert_eq!(network.as_str().parse::<Network>().unwrap(), network);
    }
}

#[test]
fn other_network_names_are_refused() {
    for name in ["", "Devnet", "testnet", " devnet"] {
        match name.parse::<Network>() {
            Err(ConfigError::InvalidNetwork(text)) => assert_eq!(text, name),
            other => panic!("{other:?}"),
        }
    }
}

#[test]
fn defaults_are_devnet_and_the_config_directory() {
    let config = Config::from_env(no_vars()).unwrap();
    assert_eq!(config.network, Network::Devnet);
    assert_eq!(config.rpc_url, "https://api.devnet.solana.com");
    assert_eq!(config.facilitator_url, DEFAULT_FACILITATOR_URL);
    assert_eq!(config.facilitator_url, "https://api.cdp.coinbase.com/platform/v2/x402");
    assert_eq!(config.facilitator_api_key, None);
    assert_eq!(parts(&config.keypair_path), [".config", "clam-self-custody", "keypair.json"]);
    assert_eq!(parts(&config.ledger_path), [".config", "clam-self-custody", "payments.jsonl"]);
}

#[test]
fn variables_override_the_defaults() {
    let config = Config::from_env(EnvVars {
        network: Some("mainnet".to_string()),
        keypair_path: Some("/keys/id.json".to_string()),
        ledger_path: Some("/var/ledger.jsonl".to_string()),
        rpc_url: Some("http://localhost:8899".to_string()),
        facilitator_url: Some("https://facilitator.example".to_string()),
        facilitator_api_key: Some("key".to_string()),
        home: None,
    })
    .unwrap();
    assert_eq!(config.network, Network::MainnetBeta);
    assert_eq!(given(&config.keypair_path), "/keys/id.json");
    assert_eq!(given(&config.ledger_path), "/var/ledger.jsonl");
    assert_eq!(config.rpc_url, "http://localhost:8899");
    assert_eq!(config.facilitator_url, "https://facilitator.example");
    assert_eq!(config.facilitator_api_key.as_deref(), Some("key"));
}

#[test]
fn the_rpc_endpoint_follows_the_network() {
    let mut vars = no_vars();
    vars.network = Some("mainnet-beta".to_string());
    assert_eq!(Config::from_env(vars).unwrap().rpc_url, "https://api.mainnet-beta.solana.com");
}

#[test]
fn a_missing_home_directory_is_an_error_unless_both_paths_are_given() {
    for home in [None, Some(Vec::new())] {
        let mut vars = no_vars();
        vars.home = home;
        vars.keypair_path = Some("k".to_string());
        assert!(matches!(Config::from_env(vars), Err(ConfigError::NoConfigDir)));
    }
    let mut vars = no_vars();
    vars.home = None;
    vars.ledger_path = Some("l".to_string());
    assert!(matches!(Config::from_env(vars), Err(ConfigError::NoConfigDir)));
}

#[test]
fn a_bad_network_is_reported_before_a_missing_home() {
    let mut vars = no_vars();
    vars.home = None;
    vars.network = Some("moon".to_string());
    match Config::from_env(vars) {
        Err(ConfigError::InvalidNetwork(text)) => assert_eq!(text, "moon"),
        other => panic!("{other:?}"),
    }
}

#[test]
fn only_missing_named_directories_are_created() {
    let config = Config::from_env(no_vars()).unwrap();
    let missing = Some(DirState { unnamed: false, exists: false });
    let there = Some(DirState { unnamed: false, exists: true });
    let unnamed = Some(DirState { unnamed: true, exists: false });
    let both = config.ensure_dirs(missing, missing);
    assert_eq!(both.len(), 2);
    assert_eq!(parts(both[0])[2], "keypair.json");
    assert_eq!(parts(both[1])[2], "payments.jsonl");
    let one = config.ensure_dirs(there, missing);
    assert_eq!(one.len(), 1);
    assert_eq!(parts(one[0])[2], "payments.jsonl");
    assert!(config.ensure_dirs(unnamed, None).is_empty());
    assert!(config.ensure_dirs(there, there).is_empty());
}

#[test]
fn the_default_directory_needs_a_home() {
    assert_eq!(
        default_config_dir(&Some(vec![47])),
        Some(vec![".config".to_string(), "clam-self-custody".to_string()])
    );
    assert_eq!(default_config_dir(&Some(vec![])), None);
    assert_eq!(default_config_dir(&None), None);
}
