//! The command lines of the client and of the server, as plain values.

use vstd::prelude::*;

verus! {

/// The client's command line.
pub struct ClientArgs {
    pub command: Option<ClientCommands>,
}

/// What the client is asked to do.
pub enum ClientCommands {
    /// Write the client configuration, with an optional server URL.
    Config { url: Option<String> },
    /// Create a source, or a database in a source.
    Create { source: String, name: Option<String>, dimensions: Option<usize> },
    /// Embed the lines of a file into a database.
    Embed { file: String, source: String, database: String, batch: Option<usize> },
    /// Search a database with a text query.
    Query { source: String, database: String, search: String, top_k: usize },
    /// List the databases of every source.
    Ls,
}

/// The server's command line.
pub struct ServerArgs {
    pub command: Option<ServerCommands>,
}

/// What the server is asked to do.
pub enum ServerCommands {
    /// Set up the source directory, optionally repairing it.
    Init { fix: bool },
    /// Run the server, optionally on a given port, with scheduled backups,
    /// restricted to some sources.
    Serve { port: Option<u16>, backup: bool, source: Option<Vec<String>> },
    /// Run the benchmarks.
    Bench { index: bool, concurrency: bool },
}

/// The number of results a query returns unless told otherwise.
pub const DEFAULT_TOP_K: usize = 5;

} // verus!
