use snarkos_node_bft::config::{CliArguments, Config, ConfigCli, Network, NetworkParams};

fn mainnet() -> NetworkParams {
    NetworkParams { port: 4131, rpc_port: 3030, bootnodes: vec!["1.2.3.4:4131".to_string()], genesis: "main".to_string() }
}

fn testnet() -> NetworkParams {
    NetworkParams { port: 14131, rpc_port: 13030, bootnodes: vec!["5.6.7.8:14131".to_string()], genesis: "test".to_string() }
}

fn no_arguments() -> CliArguments {
    CliArguments {
        testnet: false,
        no_jsonrpc: false,
        is_bootnode: false,
        miner: false,
        quiet: false,
        ip: None,
        port: None,
        path: None,
        rpc_port: None,
        connect: None,
        coinbase_address: None,
        mempool_interval: None,
        min_peers: None,
        max_peers: None,
    }
}

#[test]
fn test_config_defaults() {
    let config = Config::defaults(&mainnet());
    assert_eq!(config.network, Network::Mainnet);
    assert!(config.jsonrpc);
    assert!(config.miner);
    assert_eq!(config.ip, "0.0.0.0");
    assert_eq!(config.port, 4131);
    assert_eq!(config.path, "./storage_db");
    assert_eq!(config.bootnodes, vec!["1.2.3.4:4131".to_string()]);
    assert_eq!(config.coinbase_address, "1NpScgYSLW4WcvmZM55EY5cziEiqZx3wJu");
    assert_eq!(config.memory_pool_interval, 5);
    assert_eq!((config.min_peers, config.max_peers), (2, 20));
    assert_eq!(config.subcommand, None);
}

#[test]
fn test_config_cli_parse() {
    // Without flags, the flag options take their off values: the node does not mine.
    let config = ConfigCli::parse(&no_arguments(), None, &mainnet(), &testnet());
    assert!(!config.miner);
    assert!(config.jsonrpc);
    assert_eq!(config.port, 4131);

    let mut arguments = no_arguments();
    arguments.testnet = true;
    arguments.no_jsonrpc = true;
    arguments.is_bootnode = true;
    arguments.port = Some(9000);
    arguments.max_peers = Some(50);
    let config = ConfigCli::parse(&arguments, None, &mainnet(), &testnet());
    assert_eq!(config.network, Network::Testnet);
    assert!(!config.jsonrpc);
    assert!(config.is_bootnode);
    assert!(config.bootnodes.is_empty());
    assert_eq!(config.port, 9000);
    assert_eq!(config.rpc_port, 13030);
    assert_eq!(config.genesis, "test");
    assert_eq!(config.max_peers, 50);

    // The `test` subcommand is recorded, and its arguments applied on top.
    let mut sub = no_arguments();
    sub.connect = Some("9.9.9.9:1".to_string());
    sub.miner = true;
    let config = ConfigCli::parse(&no_arguments(), Some(&sub), &mainnet(), &testnet());
    assert_eq!(config.subcommand, Some("test".to_string()));
    assert_eq!(config.bootnodes, vec!["9.9.9.9:1".to_string()]);
    assert!(config.miner);
}
