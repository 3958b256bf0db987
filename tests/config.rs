use bitvm::config::{
    generate_config, network_from_mode, BitcoinNetwork, ConfigFile, LogConfigFile, NetworkConfigFile,
    StorageConfigFile,
};

fn file(mode: &str, logs: Option<LogConfigFile>, dir: Option<String>) -> ConfigFile {
    ConfigFile {
        storage: StorageConfigFile { working_dir: dir },
        network: NetworkConfigFile {
            mode: mode.to_string(),
            bitcoind_rpc_url: "http://0.0.0.0:8332".to_string(),
            bitcoind_rpc_username: "devnet".to_string(),
            bitcoind_rpc_password: "devnet".to_string(),
            bitcoind_zmq_url: Some("tcp://0.0.0.0:18543".to_string()),
        },
        logs,
    }
}

#[test]
fn config_defaults() {
    let c = ConfigFile::from_config_file(file("testnet", None, None)).unwrap();
    assert_eq!(c.network.bitcoin_network, BitcoinNetwork::Testnet);
    assert_eq!(c.storage.working_dir, "bitvm");
    assert!(c.logs.bitvm_internals && c.logs.chainhook_internals);
    assert_eq!(c.network.bitcoind_zmq_url, "tcp://0.0.0.0:18543");
}

#[test]
fn config_explicit_values() {
    let logs = LogConfigFile { bitvm_internals: Some(false), chainhook_internals: None };
    let c = ConfigFile::from_config_file(file("regtest", Some(logs), Some("w".to_string()))).unwrap();
    assert_eq!(c.network.bitcoin_network, BitcoinNetwork::Regtest);
    assert_eq!(c.storage.working_dir, "w");
    assert!(!c.logs.bitvm_internals);
    assert!(c.logs.chainhook_internals);
}

#[test]
fn config_unknown_mode() {
    let e = ConfigFile::from_config_file(file("signet", None, None)).unwrap_err();
    assert_eq!(e, "network.mode not supported");
}

#[test]
fn generated_config_names_network() {
    let text = generate_config(&BitcoinNetwork::Mainnet);
    assert!(text.starts_with("[storage]\nworking_dir = \"bitvm\"\n"));
    assert!(text.contains("mode = \"mainnet\"\n"));
    assert!(text.ends_with("chainhook_internals = true\n"));
}

#[test]
fn unknown_mode_without_zmq_url() {
    let mut f = file("signet", None, None);
    f.network.bitcoind_zmq_url = None;
    let e = ConfigFile::from_config_file(f).unwrap_err();
    assert_eq!(e, "network.mode not supported");
    assert_eq!(network_from_mode(&"mainnet".to_string()), Some(BitcoinNetwork::Mainnet));
    assert_eq!(network_from_mode(&"Mainnet".to_string()), None);
}
