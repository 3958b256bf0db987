use vstd::prelude::*;

verus! {

/// The Bitcoin networks a node can run on.
#[derive(Clone, Copy, Debug, PartialEq, Eq, Structural)]
pub enum BitcoinNetwork {
    Regtest,
    Testnet,
    Mainnet,
}

/// The `[storage]` table of a configuration file.
#[derive(Clone, Debug)]
pub struct StorageConfigFile {
    pub working_dir: Option<String>,
}

/// The `[network]` table of a configuration file.
#[derive(Clone, Debug)]
pub struct NetworkConfigFile {
    pub mode: String,
    pub bitcoind_rpc_url: String,
    pub bitcoind_rpc_username: String,
    pub bitcoind_rpc_password: String,
    pub bitcoind_zmq_url: Option<String>,
}

/// The `[logs]` table of a configuration file.
#[derive(Clone, Debug)]
pub struct LogConfigFile {
    pub bitvm_internals: Option<bool>,
    pub chainhook_internals: Option<bool>,
}

/// A configuration file as read.
#[derive(Clone, Debug)]
pub struct ConfigFile {
    pub storage: StorageConfigFile,
    pub network: NetworkConfigFile,
    pub logs: Option<LogConfigFile>,
}

#[derive(Clone, Debug)]
pub struct StorageConfig {
    pub working_dir: String,
}

/// How to reach the Bitcoin node, and on which network.
#[derive(Clone, Debug)]
pub struct NetworkConfig {
    pub bitcoind_rpc_url: String,
    pub bitcoind_rpc_username: String,
    pub bitcoind_rpc_password: String,
    pub bitcoind_zmq_url: String,
    pub bitcoin_network: BitcoinNetwork,
}

#[derive(Clone, Debug)]
pub struct LogConfig {
    pub bitvm_internals: bool,
    pub chainhook_internals: bool,
}

/// A checked configuration.
#[derive(Clone, Debug)]
pub struct Config {
    pub storage: StorageConfig,
    pub network: NetworkConfig,
    pub logs: LogConfig,
}

/// The network named by a configuration's `mode`.
pub open spec fn network_of_mode(mode: Seq<char>) -> Option<BitcoinNetwork> {
    if mode == "regtest"@ {
        Some(BitcoinNetwork::Regtest)
    } else if mode == "testnet"@ {
        Some(BitcoinNetwork::Testnet)
    } else if mode == "mainnet"@ {
        Some(BitcoinNetwork::Mainnet)
    } else {
        None
    }
}

/// The network that a configuration's `mode` names, if any.
pub fn network_from_mode(mode: &String) -> (r: Option<BitcoinNetwork>)
    ensures
        r == network_of_mode(mode@),
{
    let regtest = "regtest".to_owned();
    let testnet = "testnet".to_owned();
    let mainnet = "mainnet".to_owned();
    if *mode == regtest {
        Some(BitcoinNetwork::Regtest)
    } else if *mode == testnet {
        Some(BitcoinNetwork::Testnet)
    } else if *mode == mainnet {
        Some(BitcoinNetwork::Mainnet)
    } else {
        None
    }
}

/// The lower-case name of a network.
pub open spec fn network_name(n: BitcoinNetwork) -> Seq<char> {
    match n {
        BitcoinNetwork::Regtest => "regtest"@,
        BitcoinNetwork::Testnet => "testnet"@,
        BitcoinNetwork::Mainnet => "mainnet"@,
    }
}

/// The lower-case name of a network.
fn network_str(n: &BitcoinNetwork) -> (r: &'static str)
    ensures
        r@ == network_name(*n),
{
    match n {
        BitcoinNetwork::Regtest => "regtest",
        BitcoinNetwork::Testnet => "testnet",
        BitcoinNetwork::Mainnet => "mainnet",
    }
}

/// The fixed text of a generated configuration file, around the network
/// name.
pub open spec fn config_text(network: Seq<char>) -> Seq<char> {
    "[storage]\nworking_dir = \"bitvm\"\n\n[network]\nmode = \""@ + network
        + "\"\nbitcoind_rpc_url = \"http://0.0.0.0:8332\"\nbitcoind_rpc_username = \"devnet\"\nbitcoind_rpc_password = \"devnet\"\nbitcoind_zmq_url = \"tcp://0.0.0.0:18543\"\n\n[logs]\nbitvm_internals = true\nchainhook_internals = true\n"@
}

/// A default configuration file for `network`.
pub fn generate_config(network: &BitcoinNetwork) -> (r: String)
    ensures
        r@ == config_text(network_name(*network)),
{
    let mut s = "[storage]\nworking_dir = \"bitvm\"\n\n[network]\nmode = \"".to_owned();
    s.append(network_str(network));
    s.append(
        "\"\nbitcoind_rpc_url = \"http://0.0.0.0:8332\"\nbitcoind_rpc_username = \"devnet\"\nbitcoind_rpc_password = \"devnet\"\nbitcoind_zmq_url = \"tcp://0.0.0.0:18543\"\n\n[logs]\nbitvm_internals = true\nchainhook_internals = true\n",
    );
    s
}

/// The value of an optional flag, true when absent.
pub open spec fn flag_or_true(logs: Option<LogConfigFile>, chainhook: bool) -> bool {
    match logs {
        Some(l) => match (if chainhook { l.chainhook_internals } else { l.bitvm_internals }) {
            Some(b) => b,
            None => true,
        },
        None => true,
    }
}

impl ConfigFile {
    /// Checks a configuration file: `mode` must name a network, and then the
    /// ZeroMQ URL must be given; the working directory defaults to `bitvm`
    /// and both log flags to true.
    pub fn from_config_file(config_file: ConfigFile) -> (r: Result<Config, String>)
        requires
            network_of_mode(config_file.network.mode@) is Some ==> config_file.network.bitcoind_zmq_url is Some,
        ensures
            match network_of_mode(config_file.network.mode@) {
                None => r matches Err(e) && e@ == "network.mode not supported"@,
                Some(n) => r matches Ok(c) && {
                    &&& c.network.bitcoin_network == n
                    &&& c.network.bitcoind_rpc_url@ == config_file.network.bitcoind_rpc_url@
                    &&& c.network.bitcoind_rpc_username@ == config_file.network.bitcoind_rpc_username@
                    &&& c.network.bitcoind_rpc_password@ == config_file.network.bitcoind_rpc_password@
                    &&& c.network.bitcoind_zmq_url@ == config_file.network.bitcoind_zmq_url->Some_0@
                    &&& c.storage.working_dir@ == match config_file.storage.working_dir {
                        Some(d) => d@,
                        None => "bitvm"@,
                    }
                    &&& c.logs.bitvm_internals == flag_or_true(config_file.logs, false)
                    &&& c.logs.chainhook_internals == flag_or_true(config_file.logs, true)
                },
            },
    {
        let bitcoin_network = match network_from_mode(&config_file.network.mode) {
            Some(n) => n,
            None => {
                return Err("network.mode not supported".to_owned());
            },
        };
        let working_dir = match config_file.storage.working_dir {
            Some(d) => d,
            None => "bitvm".to_owned(),
        };
        let zmq_url = match config_file.network.bitcoind_zmq_url {
            Some(u) => u,
            None => String::new(),
        };
        let (bitvm_internals, chainhook_internals) = match config_file.logs {
            Some(l) => (
                match l.bitvm_internals {
                    Some(b) => b,
                    None => true,
                },
                match l.chainhook_internals {
                    Some(b) => b,
                    None => true,
                },
            ),
            None => (true, true),
        };
        Ok(Config {
            storage: StorageConfig { working_dir },
            network: NetworkConfig {
                bitcoind_rpc_url: config_file.network.bitcoind_rpc_url,
                bitcoind_rpc_username: config_file.network.bitcoind_rpc_username,
                bitcoind_rpc_password: config_file.network.bitcoind_rpc_password,
                bitcoind_zmq_url: zmq_url,
                bitcoin_network,
            },
            logs: LogConfig { bitvm_internals, chainhook_internals },
        })
    }
}

} // verus!
