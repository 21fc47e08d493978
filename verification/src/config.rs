//! The configuration of a node, and how the command-line arguments set it.
//!
//! The parameters of each network (ports, bootnodes, genesis block) come from the network
//! definitions, and the arguments from the command-line parser: both are handed in as plain
//! values.
use vstd::prelude::*;

verus! {

/// The name of the node's command.
pub const NAME: &'static str = "snarkos-node";

/// What the node's command does.
pub const ABOUT: &'static str = "Start a skeleton blockchain miner (include -h for more options)";

/// The networks a node can join.
#[derive(Debug, Clone, Copy, PartialEq, Eq, Structural)]
pub enum Network {
    Mainnet,
    Testnet,
}

/// The parameters of a network: its ports, its bootnodes and its genesis block.
pub struct NetworkParams {
    pub port: u16,
    pub rpc_port: u16,
    pub bootnodes: Vec<String>,
    pub genesis: String,
}

/// The command-line arguments that the configuration reads: the flags that are present,
/// and the options that were given (a number that did not parse counts as not given).
pub struct CliArguments {
    pub testnet: bool,
    pub no_jsonrpc: bool,
    pub is_bootnode: bool,
    pub miner: bool,
    pub quiet: bool,
    pub ip: Option<String>,
    pub port: Option<u16>,
    pub path: Option<String>,
    pub rpc_port: Option<u16>,
    pub connect: Option<String>,
    pub coinbase_address: Option<String>,
    pub mempool_interval: Option<u8>,
    pub min_peers: Option<u16>,
    pub max_peers: Option<u16>,
}

/// All configuration options for a node.
pub struct Config {
    pub network: Network,
    pub jsonrpc: bool,
    pub is_bootnode: bool,
    pub miner: bool,
    pub quiet: bool,
    pub ip: String,
    pub port: u16,
    pub path: String,
    pub rpc_port: u16,
    pub bootnodes: Vec<String>,
    pub coinbase_address: String,
    pub genesis: String,
    pub memory_pool_interval: u8,
    pub min_peers: u16,
    pub max_peers: u16,
    pub subcommand: Option<String>,
}

/// The configuration as the contracts see it.
pub struct ConfigView {
    pub network: Network,
    pub jsonrpc: bool,
    pub is_bootnode: bool,
    pub miner: bool,
    pub quiet: bool,
    pub ip: Seq<char>,
    pub port: u16,
    pub path: Seq<char>,
    pub rpc_port: u16,
    pub bootnodes: Seq<Seq<char>>,
    pub coinbase_address: Seq<char>,
    pub genesis: Seq<char>,
    pub memory_pool_interval: u8,
    pub min_peers: u16,
    pub max_peers: u16,
    pub subcommand: Option<Seq<char>>,
}

/// The views of strings.
pub open spec fn strings_view(v: Seq<String>) -> Seq<Seq<char>> {
    v.map_values(|s: String| s@)
}

/// The view of an optional string.
pub open spec fn opt_view(s: Option<String>) -> Option<Seq<char>> {
    match s {
        Some(s) => Some(s@),
        None => None,
    }
}

impl View for Config {
    type V = ConfigView;

    open spec fn view(&self) -> ConfigView {
        ConfigView {
            network: self.network,
            jsonrpc: self.jsonrpc,
            is_bootnode: self.is_bootnode,
            miner: self.miner,
            quiet: self.quiet,
            ip: self.ip@,
            port: self.port,
            path: self.path@,
            rpc_port: self.rpc_port,
            bootnodes: strings_view(self.bootnodes@),
            coinbase_address: self.coinbase_address@,
            genesis: self.genesis@,
            memory_pool_interval: self.memory_pool_interval,
            min_peers: self.min_peers,
            max_peers: self.max_peers,
            subcommand: opt_view(self.subcommand),
        }
    }
}

/// The configuration after the testnet's parameters are selected.
pub open spec fn spec_testnet(c: ConfigView, t: &NetworkParams) -> ConfigView {
    ConfigView {
        network: Network::Testnet,
        port: t.port,
        rpc_port: t.rpc_port,
        bootnodes: strings_view(t.bootnodes@),
        genesis: t.genesis@,
        ..c
    }
}

/// The configuration after the flags are applied: a missing flag sets its option to its
/// off value, and a present `is_bootnode` clears the bootnodes.
pub open spec fn spec_flags(c: ConfigView, a: &CliArguments) -> ConfigView {
    ConfigView {
        jsonrpc: !a.no_jsonrpc,
        is_bootnode: a.is_bootnode,
        miner: a.miner,
        quiet: a.quiet,
        bootnodes: if a.is_bootnode { Seq::empty() } else { c.bootnodes },
        ..c
    }
}

/// The configuration after the network options that were given are applied: the IP, the
/// ports, the path and the bootnode to connect to.
pub open spec fn spec_network_options(c: ConfigView, a: &CliArguments) -> ConfigView {
    ConfigView {
        ip: match a.ip { Some(s) => s@, None => c.ip },
        port: match a.port { Some(p) => p, None => c.port },
        path: match a.path { Some(s) => s@, None => c.path },
        rpc_port: match a.rpc_port { Some(p) => p, None => c.rpc_port },
        bootnodes: match a.connect { Some(s) => seq![s@], None => c.bootnodes },
        ..c
    }
}

/// The configuration after the node options that were given are applied: the coinbase
/// address, the memory pool interval and the peer bounds.
pub open spec fn spec_node_options(c: ConfigView, a: &CliArguments) -> ConfigView {
    ConfigView {
        coinbase_address: match a.coinbase_address { Some(s) => s@, None => c.coinbase_address },
        memory_pool_interval: match a.mempool_interval { Some(i) => i, None => c.memory_pool_interval },
        min_peers: match a.min_peers { Some(n) => n, None => c.min_peers },
        max_peers: match a.max_peers { Some(n) => n, None => c.max_peers },
        ..c
    }
}

/// The configuration with the subcommand recorded.
pub open spec fn spec_with_subcommand(c: ConfigView, name: Seq<char>) -> ConfigView {
    ConfigView { subcommand: Some(name), ..c }
}

/// The configuration after the arguments are applied: the testnet's parameters if its flag
/// is present, then the flags, then each option that was given.
pub open spec fn spec_apply(c: ConfigView, a: &CliArguments, t: &NetworkParams) -> ConfigView {
    spec_node_options(spec_network_options(spec_flags(if a.testnet { spec_testnet(c, t) } else { c }, a), a), a)
}

/// The default configuration, on the mainnet with its parameters.
pub open spec fn spec_defaults(m: &NetworkParams) -> ConfigView {
    ConfigView {
        network: Network::Mainnet,
        jsonrpc: true,
        is_bootnode: false,
        miner: true,
        quiet: false,
        ip: "0.0.0.0"@,
        port: m.port,
        path: "./storage_db"@,
        rpc_port: m.rpc_port,
        bootnodes: strings_view(m.bootnodes@),
        coinbase_address: "1NpScgYSLW4WcvmZM55EY5cziEiqZx3wJu"@,
        genesis: m.genesis@,
        memory_pool_interval: 5,
        min_peers: 2,
        max_peers: 20,
        subcommand: None,
    }
}

/// A copy of the strings.
fn copy_strings(v: &Vec<String>) -> (r: Vec<String>)
    ensures
        r@ == v@,
{
    let mut out: Vec<String> = Vec::new();
    let mut i: usize = 0;
    while i < v.len()
        invariant
            i <= v@.len(),
            out@ == v@.take(i as int),
        decreases v@.len() - i,
    {
        out.push(v[i].clone());
        i = i + 1;
        assert(out@ =~= v@.take(i as int));
    }
    assert(v@.take(v@.len() as int) =~= v@);
    out
}

impl Config {
    /// The default configuration: the mainnet with the given parameters, JSON-RPC on, not a
    /// bootnode, mining, not quiet, listening on `0.0.0.0`, storing under `./storage_db`,
    /// a memory pool interval of 5, and between 2 and 20 peers.
    pub fn defaults(mainnet: &NetworkParams) -> (r: Config)
        ensures
            r@ == spec_defaults(mainnet),
    {
        let r = Config {
            network: Network::Mainnet,
            jsonrpc: true,
            is_bootnode: false,
            miner: true,
            quiet: false,
            ip: "0.0.0.0".to_owned(),
            port: mainnet.port,
            path: "./storage_db".to_owned(),
            rpc_port: mainnet.rpc_port,
            bootnodes: copy_strings(&mainnet.bootnodes),
            coinbase_address: "1NpScgYSLW4WcvmZM55EY5cziEiqZx3wJu".to_owned(),
            genesis: mainnet.genesis.clone(),
            memory_pool_interval: 5,
            min_peers: 2,
            max_peers: 20,
            subcommand: None,
        };
        r
    }

    /// Selects the testnet and its parameters.
    fn testnet(&mut self, testnet: &NetworkParams)
        ensures
            final(self)@ == spec_testnet(old(self)@, testnet),
    {
        self.network = Network::Testnet;
        self.port = testnet.port;
        self.rpc_port = testnet.rpc_port;
        self.bootnodes = copy_strings(&testnet.bootnodes);
        self.genesis = testnet.genesis.clone();
    }

    /// Applies the flags (see `spec_flags`).
    fn apply_flags(&mut self, arguments: &CliArguments)
        ensures
            final(self)@ == spec_flags(old(self)@, arguments),
    {
        self.jsonrpc = !arguments.no_jsonrpc;
        self.is_bootnode = arguments.is_bootnode;
        if arguments.is_bootnode {
            self.bootnodes = Vec::new();
            assert(strings_view(self.bootnodes@) =~= Seq::<Seq<char>>::empty());
        }
        self.miner = arguments.miner;
        self.quiet = arguments.quiet;
    }

    /// Applies the network options that were given: the IP, the ports, the path and the
    /// bootnode to connect to.
    fn apply_network_options(&mut self, arguments: &CliArguments)
        ensures
            final(self)@ == spec_network_options(old(self)@, arguments),
    {
        if let Some(ip) = &arguments.ip {
            self.ip = ip.clone();
        }
        if let Some(port) = arguments.port {
            self.port = port;
        }
        if let Some(path) = &arguments.path {
            self.path = path.clone();
        }
        if let Some(rpc_port) = arguments.rpc_port {
            self.rpc_port = rpc_port;
        }
        if let Some(bootnode) = &arguments.connect {
            let mut bootnodes: Vec<String> = Vec::new();
            bootnodes.push(bootnode.clone());
            self.bootnodes = bootnodes;
            assert(strings_view(self.bootnodes@) =~= seq![bootnode@]);
        }
    }

    /// Applies the node options that were given: the coinbase address, the memory pool
    /// interval and the peer bounds.
    fn apply_node_options(&mut self, arguments: &CliArguments)
        ensures
            final(self)@ == spec_node_options(old(self)@, arguments),
    {
        if let Some(coinbase_address) = &arguments.coinbase_address {
            self.coinbase_address = coinbase_address.clone();
        }
        if let Some(interval) = arguments.mempool_interval {
            self.memory_pool_interval = interval;
        }
        if let Some(num_peers) = arguments.min_peers {
            self.min_peers = num_peers;
        }
        if let Some(num_peers) = arguments.max_peers {
            self.max_peers = num_peers;
        }
    }

    /// Applies the arguments: the testnet's parameters if its flag is present, then each
    /// flag and each given option (see `spec_apply`).
    pub fn parse(&mut self, arguments: &CliArguments, testnet: &NetworkParams)
        ensures
            final(self)@ == spec_apply(old(self)@, arguments, testnet),
    {
        if arguments.testnet {
            self.testnet(testnet);
        }
        self.apply_flags(arguments);
        self.apply_network_options(arguments);
        self.apply_node_options(arguments);
    }
}

/// Parses command-line arguments into node configuration parameters.
pub struct ConfigCli;

impl ConfigCli {
    /// Builds the configuration from the arguments: the defaults for the mainnet, with the
    /// arguments applied; with the `test` subcommand, it is recorded and its arguments are
    /// applied on top.
    pub fn parse(
        arguments: &CliArguments,
        test_subcommand: Option<&CliArguments>,
        mainnet: &NetworkParams,
        testnet: &NetworkParams,
    ) -> (r: Config)
        ensures
            r@ == match test_subcommand {
                None => spec_apply(spec_defaults(mainnet), arguments, testnet),
                Some(sub) => spec_apply(
                    spec_with_subcommand(spec_apply(spec_defaults(mainnet), arguments, testnet), "test"@),
                    sub,
                    testnet,
                ),
            },
    {
        let mut config = Config::defaults(mainnet);
        config.parse(arguments, testnet);
        if let Some(sub) = test_subcommand {
            config.subcommand = Some("test".to_owned());
            config.parse(sub, testnet);
        }
        config
    }
}

} // verus!
