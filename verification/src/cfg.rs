//! The engine's configuration: which listeners to run, their addresses,
//! and the paths of the snapshot file and the write-ahead log.
//!
//! Reading and parsing a configuration file is the surrounding program's
//! business; the engine only carries the resulting values.

use vstd::prelude::*;

verus! {

/// The configuration values the engine carries.
#[derive(Debug)]
pub struct Config {
    pub listen_local: bool,
    pub listen_network: bool,
    pub inet_addr: String,
    pub sock_addr: String,
    pub db_file: String,
    pub wal_file: String,
}

impl Default for Config {
    /// The stock configuration: both listeners on, local addresses, and
    /// the `bdb` file names.
    fn default() -> (r: Self)
        ensures
            r.listen_local == true,
            r.listen_network == true,
            r.inet_addr@ == "127.0.0.1:1234"@,
            r.sock_addr@ == "bdb.sock"@,
            r.db_file@ == "bdb.db"@,
            r.wal_file@ == "bdb.wal"@,
    {
        Self {
            listen_local: true,
            listen_network: true,
            inet_addr: "127.0.0.1:1234".to_owned(),
            sock_addr: "bdb.sock".to_owned(),
            db_file: "bdb.db".to_owned(),
            wal_file: "bdb.wal".to_owned(),
        }
    }
}

} // verus!
