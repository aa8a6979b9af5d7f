//! Configuration is driven entirely by environment variables, never by tool
//! inputs from the agent. This is intentional: the agent must not be able to
//! point the wallet at a different keypair, network, or facilitator at runtime.

use std::str::FromStr;

use vstd::prelude::*;

use crate::text::{ascii_lowered, same_text};

verus! {

/// USDC mint on Solana mainnet (Circle's canonical mint).
pub const USDC_MAINNET_MINT: &'static str = "EPjFWdd5AufqSSqeM2qN1xzybapC8G4wEGGkZwyTDt1v";

/// USDC mint on Solana devnet (Circle's faucet-backed mint).
pub const USDC_DEVNET_MINT: &'static str = "4zMMC9srt5Ri5X14GAgXhaHii3GnPAEERYPJgZJDncDU";

/// Default CDP facilitator endpoint.
pub const DEFAULT_FACILITATOR_URL: &'static str = "https://api.cdp.coinbase.com/platform/v2/x402";

/// Solana network targeted by this server instance.
#[derive(Debug, Clone, Copy, PartialEq, Eq, Structural)]
pub enum Network {
    MainnetBeta,
    Devnet,
}

impl Network {
    /// The network's name.
    pub open spec fn name(self) -> Seq<char> {
        match self {
            Network::MainnetBeta => "mainnet-beta"@,
            Network::Devnet => "devnet"@,
        }
    }

    /// The network's CAIP-2 chain identifier.
    pub open spec fn chain_id(self) -> Seq<char> {
        match self {
            Network::MainnetBeta => "solana:5eykt4UsFv8P8NJdTREpY1vzqKqZKvdp"@,
            Network::Devnet => "solana:EtWTRABZaYq6iMfeYKouRu166VU2xqa1"@,
        }
    }

    /// The network's public JSON-RPC endpoint.
    pub open spec fn public_rpc(self) -> Seq<char> {
        match self {
            Network::MainnetBeta => "https://api.mainnet-beta.solana.com"@,
            Network::Devnet => "https://api.devnet.solana.com"@,
        }
    }

    /// The address of the USDC mint on the network.
    pub open spec fn mint(self) -> Seq<char> {
        match self {
            Network::MainnetBeta => USDC_MAINNET_MINT@,
            Network::Devnet => USDC_DEVNET_MINT@,
        }
    }

    pub fn as_str(self) -> (name: &'static str)
        ensures
            name@ == self.name(),
    {
        match self {
            Network::MainnetBeta => "mainnet-beta",
            Network::Devnet => "devnet",
        }
    }

    /// CAIP-2 chain identifier used by the x402 V2 protocol.
    pub fn caip2(self) -> (id: &'static str)
        ensures
            id@ == self.chain_id(),
    {
        match self {
            Network::MainnetBeta => "solana:5eykt4UsFv8P8NJdTREpY1vzqKqZKvdp",
            Network::Devnet => "solana:EtWTRABZaYq6iMfeYKouRu166VU2xqa1",
        }
    }

    /// Default Solana JSON-RPC endpoint for this network.
    pub fn default_rpc_url(self) -> (url: &'static str)
        ensures
            url@ == self.public_rpc(),
    {
        match self {
            Network::MainnetBeta => "https://api.mainnet-beta.solana.com",
            Network::Devnet => "https://api.devnet.solana.com",
        }
    }

    /// USDC mint address for this network.
    pub fn usdc_mint(self) -> (mint: &'static str)
        ensures
            mint@ == self.mint(),
    {
        match self {
            Network::MainnetBeta => USDC_MAINNET_MINT,
            Network::Devnet => USDC_DEVNET_MINT,
        }
    }
}

/// The network that a name stands for.
pub open spec fn network_named(name: Seq<char>) -> Option<Network> {
    if name == "mainnet"@ || name == "mainnet-beta"@ || name == "solana-mainnet"@ {
        Some(Network::MainnetBeta)
    } else if name == "devnet"@ || name == "solana-devnet"@ {
        Some(Network::Devnet)
    } else {
        None
    }
}

impl FromStr for Network {
    type Err = ConfigError;

    fn from_str(s: &str) -> (network: Result<Network, ConfigError>)
        ensures
            match network {
                Ok(n) => network_named(s@) == Some(n),
                Err(ConfigError::InvalidNetwork(text)) => network_named(s@) is None && text@ == s@,
                Err(ConfigError::NoConfigDir) => false,
            },
    {
        if same_text(s, "mainnet") || same_text(s, "mainnet-beta") || same_text(
            s,
            "solana-mainnet",
        ) {
            Ok(Network::MainnetBeta)
        } else if same_text(s, "devnet") || same_text(s, "solana-devnet") {
            Ok(Network::Devnet)
        } else {
            Err(ConfigError::InvalidNetwork(s.to_string()))
        }
    }
}

#[derive(Debug)]
pub enum ConfigError {
    /// `CLAM_NETWORK` does not name a supported Solana network.
    InvalidNetwork(String),
    /// There is no home directory to find the default files under, and not both
    /// `CLAM_KEYPAIR_PATH` and `CLAM_LEDGER_PATH` are set.
    NoConfigDir,
}

/// Where a file lies: at a path that was given, or below the user's home
/// directory, one directory or file name after the other.
#[derive(Debug, Clone)]
pub enum ConfigPath {
    Given(String),
    UnderHome(Vec<String>),
}

/// The model of a [`ConfigPath`].
pub enum PathView {
    Given(Seq<char>),
    UnderHome(Seq<Seq<char>>),
}

impl View for ConfigPath {
    type V = PathView;

    open spec fn view(&self) -> PathView {
        match self {
            ConfigPath::Given(path) => PathView::Given(path@),
            ConfigPath::UnderHome(parts) => PathView::UnderHome(parts.deep_view()),
        }
    }
}

/// What the process environment holds of the variables that configure the
/// server; a variable that is unset, or whose value is not Unicode, is `None`.
pub struct EnvVars {
    /// `CLAM_NETWORK`
    pub network: Option<String>,
    /// `CLAM_KEYPAIR_PATH`
    pub keypair_path: Option<String>,
    /// `CLAM_LEDGER_PATH`
    pub ledger_path: Option<String>,
    /// `CLAM_RPC_URL`
    pub rpc_url: Option<String>,
    /// `CLAM_FACILITATOR_URL`
    pub facilitator_url: Option<String>,
    /// `CLAM_FACILITATOR_API_KEY`
    pub facilitator_api_key: Option<String>,
    /// The bytes of the variable that holds the user's home directory; these
    /// need not be Unicode.
    pub home: Option<Vec<u8>>,
}

/// All runtime configuration. Built once at process start; immutable afterward.
#[derive(Debug, Clone)]
pub struct Config {
    /// Path to a `solana-keygen`-format JSON keypair file.
    pub keypair_path: ConfigPath,
    /// Solana network this server signs for.
    pub network: Network,
    /// JSON-RPC endpoint used for balance lookups.
    pub rpc_url: String,
    /// x402 facilitator base URL.
    pub facilitator_url: String,
    /// API key for the facilitator; none for a keyless one.
    pub facilitator_api_key: Option<String>,
    /// Append-only JSONL file recording every settled payment.
    pub ledger_path: ConfigPath,
}

/// Whether a home directory is known: the variable is set, and not to nothing.
pub open spec fn has_home(home: Option<Vec<u8>>) -> bool {
    home matches Some(h) && h@.len() > 0
}

/// The directory below the home directory that the default files lie in.
pub open spec fn config_dir_parts() -> Seq<Seq<char>> {
    seq![".config"@, "clam-self-custody"@]
}

/// The text that a variable holds, or else `default`.
pub open spec fn text_or(var: Option<String>, default: Seq<char>) -> Seq<char> {
    match var {
        Some(text) => text@,
        None => default,
    }
}

/// The path that a variable gives, or else the file `name` in the default
/// directory.
pub open spec fn path_or(var: Option<String>, name: Seq<char>) -> PathView {
    match var {
        Some(path) => PathView::Given(path@),
        None => PathView::UnderHome(config_dir_parts().push(name)),
    }
}

/// The network that the environment names, devnet if it names none.
pub open spec fn env_network(vars: EnvVars) -> Option<Network> {
    match vars.network {
        Some(name) => network_named(name@),
        None => Some(Network::Devnet),
    }
}

/// Whether the environment tells where both files lie.
pub open spec fn env_has_paths(vars: EnvVars) -> bool {
    has_home(vars.home) || (vars.keypair_path is Some && vars.ledger_path is Some)
}

/// What is known of a directory on disk.
#[derive(Debug, Clone, Copy, PartialEq, Eq, Structural)]
pub struct DirState {
    /// Whether its path is empty.
    pub unnamed: bool,
    /// Whether it exists.
    pub exists: bool,
}

impl Config {
    /// Builds a [`Config`] from environment variables, falling back to safe
    /// defaults (devnet, public RPC, CDP facilitator, `~/.config/clam-self-custody/`
    /// on every platform, as `solana-cli` does with `~/.config/solana/`).
    pub fn from_env(vars: EnvVars) -> (config: Result<Config, ConfigError>)
        ensures
            match config {
                Err(ConfigError::InvalidNetwork(text)) => env_network(vars) is None && (
                vars.network matches Some(name) && text@ == name@),
                Err(ConfigError::NoConfigDir) => env_network(vars) is Some && !env_has_paths(vars),
                Ok(c) => {
                    &&& env_network(vars) == Some(c.network)
                    &&& env_has_paths(vars)
                    &&& c.keypair_path@ == path_or(vars.keypair_path, "keypair.json"@)
                    &&& c.ledger_path@ == path_or(vars.ledger_path, "payments.jsonl"@)
                    &&& c.rpc_url@ == text_or(vars.rpc_url, c.network.public_rpc())
                    &&& c.facilitator_url@ == text_or(
                        vars.facilitator_url,
                        DEFAULT_FACILITATOR_URL@,
                    )
                    &&& c.facilitator_api_key == vars.facilitator_api_key
                },
            },
    {
        let network = match &vars.network {
            Some(s) => match Network::from_str(s.as_str()) {
                Ok(n) => n,
                Err(e) => {
                    return Err(e);
                },
            },
            None => Network::Devnet,
        };
        let keypair_path = match config_file(vars.keypair_path, &vars.home, "keypair.json") {
            Some(path) => path,
            None => {
                return Err(ConfigError::NoConfigDir);
            },
        };
        let ledger_path = match config_file(vars.ledger_path, &vars.home, "payments.jsonl") {
            Some(path) => path,
            None => {
                return Err(ConfigError::NoConfigDir);
            },
        };
        let rpc_url = match vars.rpc_url {
            Some(url) => url,
            None => network.default_rpc_url().to_string(),
        };
        let facilitator_url = match vars.facilitator_url {
            Some(url) => url,
            None => DEFAULT_FACILITATOR_URL.to_string(),
        };
        Ok(
            Config {
                keypair_path,
                network,
                rpc_url,
                facilitator_url,
                facilitator_api_key: vars.facilitator_api_key,
                ledger_path,
            },
        )
    }

    /// The files, of the keypair and then of the ledger, whose parent directory
    /// has to be created; given what is known of each parent directory, `None`
    /// for a file without one.
    pub fn ensure_dirs(
        &self,
        keypair_parent: Option<DirState>,
        ledger_parent: Option<DirState>,
    ) -> (files: Vec<&ConfigPath>)
        ensures
            files@ == (if must_create(keypair_parent) {
                seq![&self.keypair_path]
            } else {
                seq![]
            }) + (if must_create(ledger_parent) {
                seq![&self.ledger_path]
            } else {
                seq![]
            }),
    {
        let mut files: Vec<&ConfigPath> = Vec::new();
        if let Some(parent) = keypair_parent {
            if create_dir(parent) {
                files.push(&self.keypair_path);
            }
        }
        if let Some(parent) = ledger_parent {
            if create_dir(parent) {
                files.push(&self.ledger_path);
            }
        }
        files
    }
}

/// Whether a parent directory has to be created: there is one, with a path of
/// its own, and it does not exist.
pub open spec fn must_create(parent: Option<DirState>) -> bool {
    parent matches Some(dir) && !dir.unnamed && !dir.exists
}

/// The path in `var`, or else the file `name` in the default directory, if there
/// is one.
fn config_file(var: Option<String>, home: &Option<Vec<u8>>, name: &str) -> (path: Option<ConfigPath>)
    ensures
        path is Some <==> var is Some || has_home(*home),
        path matches Some(p) ==> p@ == path_or(var, name@),
{
    match var {
        Some(path) => Some(ConfigPath::Given(path)),
        None => match default_config_dir(home) {
            Some(mut parts) => {
                let ghost dir = parts@;
                parts.push(name.to_string());
                assert(parts.deep_view() =~= config_dir_parts().push(name@)) by {
                    assert forall|i: int| 0 <= i < dir.len() implies parts.deep_view()[i]
                        == config_dir_parts()[i] by {
                        assert(parts@[i] == dir[i]);
                    }
                }
                Some(ConfigPath::UnderHome(parts))
            },
            None => None,
        },
    }
}

/// The directory below the home directory that the default files lie in, if a
/// home directory is known.
pub fn default_config_dir(home: &Option<Vec<u8>>) -> (parts: Option<Vec<String>>)
    ensures
        parts is Some <==> has_home(*home),
        parts matches Some(p) ==> p.deep_view() == config_dir_parts(),
{
    if home_dir(home) {
        let mut parts: Vec<String> = Vec::new();
        parts.push(".config".to_string());
        parts.push("clam-self-custody".to_string());
        assert(parts.deep_view() =~= config_dir_parts());
        Some(parts)
    } else {
        None
    }
}

/// Whether the home directory is known.
fn home_dir(home: &Option<Vec<u8>>) -> (known: bool)
    ensures
        known == has_home(*home),
{
    match home {
        Some(h) => h.len() > 0,
        None => false,
    }
}

/// Whether a directory has to be created.
fn create_dir(dir: DirState) -> (create: bool)
    ensures
        create == must_create(Some(dir)),
{
    !dir.unnamed && !dir.exists
}

/// The name of a network stands for that network.
pub proof fn law_network_name_round_trip(network: Network)
    ensures
        network_named(network.name()) == Some(network),
{
    reveal_strlit("mainnet");
    reveal_strlit("mainnet-beta");
    reveal_strlit("solana-mainnet");
    reveal_strlit("devnet");
    assert("devnet"@.len() != "mainnet"@.len());
    assert("devnet"@.len() != "mainnet-beta"@.len());
    assert("devnet"@.len() != "solana-mainnet"@.len());
}

/// The networks differ in their chain identifiers, and in their mints even where
/// the case of letters is ignored.
pub proof fn law_networks_apart(a: Network, b: Network)
    requires
        a != b,
    ensures
        a.chain_id() != b.chain_id(),
        ascii_lowered(a.mint()) != ascii_lowered(b.mint()),
{
    reveal_strlit("solana:5eykt4UsFv8P8NJdTREpY1vzqKqZKvdp");
    reveal_strlit("solana:EtWTRABZaYq6iMfeYKouRu166VU2xqa1");
    assert("solana:5eykt4UsFv8P8NJdTREpY1vzqKqZKvdp"@[7] == '5');
    assert("solana:EtWTRABZaYq6iMfeYKouRu166VU2xqa1"@[7] == 'E');
    reveal_strlit("EPjFWdd5AufqSSqeM2qN1xzybapC8G4wEGGkZwyTDt1v");
    reveal_strlit("4zMMC9srt5Ri5X14GAgXhaHii3GnPAEERYPJgZJDncDU");
    let x = ascii_lowered(USDC_MAINNET_MINT@);
    let y = ascii_lowered(USDC_DEVNET_MINT@);
    assert(x[0] == 'e');
    assert(y[0] == '4');
}

/// Without `CLAM_NETWORK` the server runs on devnet.
pub proof fn law_devnet_by_default(vars: EnvVars)
    requires
        vars.network is None,
    ensures
        env_network(vars) == Some(Network::Devnet),
{
}

/// These names, and no others, stand for the networks.
pub proof fn law_network_names(name: Seq<char>)
    ensures
        network_named(name) == Some(Network::MainnetBeta) <==> name == "mainnet"@ || name
            == "mainnet-beta"@ || name == "solana-mainnet"@,
        network_named(name) == Some(Network::Devnet) <==> name == "devnet"@ || name
            == "solana-devnet"@,
{
    reveal_strlit("mainnet");
    reveal_strlit("mainnet-beta");
    reveal_strlit("solana-mainnet");
    reveal_strlit("devnet");
    reveal_strlit("solana-devnet");
    assert("mainnet"@.len() == 7 && "mainnet-beta"@.len() == 12 && "solana-mainnet"@.len() == 14);
    assert("devnet"@.len() == 6 && "solana-devnet"@.len() == 13);
}

/// What each network is called, where it is found and what is paid in on it.
pub proof fn law_networks_are_spelled_out(network: Network)
    ensures
        network == Network::MainnetBeta ==> {
            &&& network.name() == "mainnet-beta"@
            &&& network.chain_id() == "solana:5eykt4UsFv8P8NJdTREpY1vzqKqZKvdp"@
            &&& network.public_rpc() == "https://api.mainnet-beta.solana.com"@
            &&& network.mint() == "EPjFWdd5AufqSSqeM2qN1xzybapC8G4wEGGkZwyTDt1v"@
        },
        network == Network::Devnet ==> {
            &&& network.name() == "devnet"@
            &&& network.chain_id() == "solana:EtWTRABZaYq6iMfeYKouRu166VU2xqa1"@
            &&& network.public_rpc() == "https://api.devnet.solana.com"@
            &&& network.mint() == "4zMMC9srt5Ri5X14GAgXhaHii3GnPAEERYPJgZJDncDU"@
        },
{
}

/// A variable that is set counts as it stands, whatever it holds; one that is not
/// leaves the default, which for a path is a file below the home directory.
pub proof fn law_variables_count_as_they_stand(
    var: Option<String>,
    default: Seq<char>,
    name: Seq<char>,
)
    ensures
        var matches Some(text) ==> text_or(var, default) == text@,
        var is None ==> text_or(var, default) == default,
        var matches Some(path) ==> path_or(var, name) == PathView::Given(path@),
        var is None ==> path_or(var, name) == PathView::UnderHome(
            seq![".config"@, "clam-self-custody"@, name],
        ),
        config_dir_parts() == seq![".config"@, "clam-self-custody"@],
{
    assert(config_dir_parts().push(name) =~= seq![".config"@, "clam-self-custody"@, name]);
}

/// The network is the one that the variable names, and devnet where it is not set;
/// the files can be found if both paths are set, or the home directory is set and
/// not empty.
pub proof fn law_environment_decides(vars: EnvVars)
    ensures
        vars.network is None ==> env_network(vars) == Some(Network::Devnet),
        vars.network matches Some(name) ==> {
            &&& env_network(vars) == Some(Network::MainnetBeta) <==> name@ == "mainnet"@ || name@
                == "mainnet-beta"@ || name@ == "solana-mainnet"@
            &&& env_network(vars) == Some(Network::Devnet) <==> name@ == "devnet"@ || name@
                == "solana-devnet"@
        },
        env_has_paths(vars) <==> {
            ||| vars.keypair_path is Some && vars.ledger_path is Some
            ||| vars.home is Some && vars.home->0@.len() > 0
        },
        has_home(vars.home) <==> vars.home is Some && vars.home->0@.len() > 0,
{
    if let Some(name) = vars.network {
        law_network_names(name@);
    }
}

/// A directory is created if the file has one, it has a name and is not there.
pub proof fn law_missing_directories_are_created(parent: Option<DirState>)
    ensures
        must_create(parent) <==> parent is Some && parent->0.unnamed == false && parent->0.exists
            == false,
{
}

/// A path shows the text that was given, or the names below the home directory, one
/// by one.
pub proof fn law_paths_show_what_they_hold(path: ConfigPath)
    ensures
        path matches ConfigPath::Given(text) ==> path@ == PathView::Given(text@),
        path matches ConfigPath::UnderHome(names) ==> {
            &&& path@ is UnderHome
            &&& path@->UnderHome_0.len() == names@.len()
            &&& forall|i: int|
                0 <= i < names@.len() ==> #[trigger] path@->UnderHome_0[i] == names@[i]@
        },
{
}

} // verus!
