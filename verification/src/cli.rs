use vstd::prelude::*;

verus! {

/// The command-line surface of the tool. Parsing the real command line is
/// the caller's side of the work; the library only carries the chosen
/// options.
#[derive(Debug, Clone)]
pub struct Cli {
    /// Root directory to search for applications.
    pub root: String,
    /// Name of a specific application to output the hash for; all
    /// applications when absent.
    pub app: Option<String>,
    /// Show only the hash without the application name (meaningful only
    /// with a specific application).
    pub hash_only: bool,
    /// Show execution time statistics.
    pub verbose: bool,
    /// Show the dependency graph instead of hashing.
    pub show_graph: bool,
    /// Save each application's hash to its version artifact next to its
    /// config file.
    pub write_versions: bool,
    /// Shorten printed hashes.
    pub short_hash: bool,
    /// How many characters a shortened hash keeps.
    pub short_hash_length: usize,
}

} // verus!
