use vstd::prelude::*;

verus! {

/// The command line: one command.
#[derive(Debug)]
pub struct Cli {
    pub command: Command,
}

/// Password management: create a new password, or change the current one.
#[derive(Debug)]
pub struct AccountPasswordAction {
    pub new: bool,
    pub change: bool,
}

/// Account creation: from a random seed, or from an existing mnemonic
/// phrase of twelve words.
#[derive(Debug)]
pub struct AccountNewAction {
    pub random: bool,
    pub existing: bool,
}

/// Basic account management.
#[derive(Debug)]
#[allow(inconsistent_fields)]
pub enum AccountCommand {
    /// Password management.
    Password { action: AccountPasswordAction },
    /// Create a new account (random or from mnemonic).
    New { action: AccountNewAction },
    /// Show mnemonic phrase.
    Seed,
    /// Drop all data.
    Drop,
}

/// Wallet operations.
#[derive(Debug)]
pub enum WalletCommand {
    /// List available wallets.
    List,
    /// Create more wallets.
    More { count: usize },
    /// Show wallet private key.
    Private { wallet: String },
}

/// Operations in the network.
#[derive(Debug)]
#[allow(inconsistent_fields)]
pub enum ApiCommand {
    /// Show available balance and coins.
    Balance { wallet: String, coins: bool, detailed: bool, unit: Option<char> },
    /// Send coin to address.
    Send { wallet: String, address: String, coin: String, fee: Option<String> },
    /// Split coin.
    Split { wallet: String, coin: String, fee: Option<String> },
    /// Merge coin.
    Merge { wallet: String, coin: String, fee: Option<String> },
}

/// Management of the list of known validator nodes.
#[derive(Debug)]
#[allow(inconsistent_fields)]
pub enum NodeCommand {
    /// List URLs of known nodes.
    List,
    /// Add a URL of new node.
    Add { node: String },
    /// Remove the node by url.
    Remove { node: String },
    /// Move the node to the position in the list (starting with 1).
    Move { node: String, pos: usize },
    /// Set node list to its default state.
    Default,
    /// Fetch known nodes from the given node, or from all known ones.
    Fetch { node: Option<String> },
}

/// Special crypto functions of the protocol.
#[derive(Debug)]
#[allow(inconsistent_fields)]
pub enum ToolCommand {
    /// Generate a new random key.
    GenKey,
    /// Generate a new random public-key pair.
    GenPair,
    /// Get public from private key (hex).
    GetPublic { key: String },
    /// Generate random mnemonic phrase (12 words).
    GenSeed,
    /// Generate wallets (public-key pairs) from the given seed phrase.
    GenWallets { seed: String, count: usize, offset: usize },
    /// Hash of the sequence of 256-bit messages (hex).
    Hash { msg: Vec<String> },
    /// Build signature from a 256-bit message.
    BuildSignature { msg: String, key: String },
    /// Extract public from a 256-bit message and a signature.
    ExtractPublic { msg: String, signature: String },
}

/// The commands of the client.
#[derive(Debug)]
#[allow(inconsistent_fields)]
pub enum Command {
    /// Basic account management.
    Account { command: AccountCommand },
    /// Wallet operations.
    Wallet { command: WalletCommand },
    /// Operations in the network.
    Api { command: ApiCommand },
    /// Run mining.
    Mining { wallet: String, address: Option<String>, fee: String, threads: usize },
    /// Node management.
    Node { command: NodeCommand },
    /// Special crypto functions.
    Tool { command: ToolCommand },
}

} // verus!
