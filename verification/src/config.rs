//! Server and storage configuration, with the precedence rules that merge
//! command-line options, a configuration file, and the environment.
//!
//! Reading the environment and the file is the binary's concern; the merge
//! itself is pure and carries its precedence contract: command line over
//! file over environment over defaults.

use vstd::prelude::*;
use crate::cli::{Cli, StorageBackend};
use crate::error::ConfigError;

verus! {

/// The server section: bind host and port.
#[derive(Debug, Clone)]
pub struct ServerConfig {
    pub host: String,
    pub port: u16,
}

/// The storage section, tagged by backend.
#[derive(Debug, Clone)]
pub enum StorageConfig {
    /// The in-memory backend.
    Memory,
    /// The durable backend, with its database path.
    Lmdb { path: String },
    /// The remote object backend.
    S3 { bucket: String, prefix: Option<String>, region: Option<String> },
}

/// Main configuration combining server and storage settings.
#[derive(Debug, Clone)]
pub struct Config {
    pub server: ServerConfig,
    pub storage: StorageConfig,
}

/// The default bind host.
pub fn default_host() -> (r: String)
    ensures
        r@ == "127.0.0.1"@,
{
    "127.0.0.1".to_owned()
}

/// The default port.
pub fn default_port() -> (r: u16)
    ensures
        r == 6379,
{
    6379
}

impl Default for ServerConfig {
    /// The default server section: localhost on the default port.
    fn default() -> (r: Self)
        ensures
            r.host@ == "127.0.0.1"@,
            r.port == 6379,
    {
        ServerConfig { host: default_host(), port: default_port() }
    }
}

impl Default for StorageConfig {
    /// The default storage section: the in-memory backend.
    fn default() -> (r: Self)
        ensures
            r is Memory,
    {
        StorageConfig::Memory
    }
}

impl Default for Config {
    /// The default configuration.
    fn default() -> (r: Self)
        ensures
            r.server.host@ == "127.0.0.1"@,
            r.server.port == 6379,
            r.storage is Memory,
    {
        Config { server: ServerConfig::default(), storage: StorageConfig::default() }
    }
}

/// The merged host: command line first, then file, then environment.
pub open spec fn merged_host(cli: Cli, file: Option<Config>, env: Config) -> Seq<char> {
    match cli.host {
        Some(h) => h@,
        None => match file {
            Some(f) => f.server.host@,
            None => env.server.host@,
        },
    }
}

/// The merged port: command line first, then file, then environment.
pub open spec fn merged_port(cli: Cli, file: Option<Config>, env: Config) -> u16 {
    match cli.port {
        Some(p) => p,
        None => match file {
            Some(f) => f.server.port,
            None => env.server.port,
        },
    }
}

/// The durable path in a configuration, if its storage section names one.
pub open spec fn lmdb_path_of(c: Config) -> Option<Seq<char>> {
    match c.storage {
        StorageConfig::Lmdb { path } => Some(path@),
        _ => None,
    }
}

impl Config {
    /// Merge configuration sources with the precedence command line over
    /// file over environment over defaults, validating that the selected
    /// backend's required parameters are present on the command line.
    pub fn from_sources(cli: &Cli, file_config: Option<&Config>, env_config: &Config)
        -> (r: Result<Config, ConfigError>)
        ensures
            match r {
                Ok(c) => {
                    &&& c.server.host@ == merged_host(*cli, option_model(file_config),
                        *env_config)
                    &&& c.server.port == merged_port(*cli, option_model(file_config),
                        *env_config)
                    &&& storage_ok(*cli, c.storage)
                },
                Err(_) => !storage_selectable(*cli),
            },
    {
        let host = match &cli.host {
            Some(h) => clone_string(h),
            None => match file_config {
                Some(f) => clone_string(&f.server.host),
                None => clone_string(&env_config.server.host),
            },
        };
        let port = match &cli.port {
            Some(p) => *p,
            None => match file_config {
                Some(f) => f.server.port,
                None => env_config.server.port,
            },
        };
        let storage = match Self::resolve_storage(cli) {
            Ok(s) => s,
            Err(e) => {
                return Err(e);
            },
        };
        Ok(Config { server: ServerConfig { host, port }, storage })
    }

    /// Resolve the storage section from the selected backend and its
    /// command-line parameters.
    pub fn resolve_storage(cli: &Cli) -> (r: Result<StorageConfig, ConfigError>)
        ensures
            match r {
                Ok(s) => storage_ok(*cli, s),
                Err(_) => !storage_selectable(*cli),
            },
    {
        let backend = cli.effective_storage();
        match cli.validate_for_storage(&backend) {
            Ok(()) => {},
            Err(e) => {
                return Err(e);
            },
        }
        match backend {
            StorageBackend::Memory => Ok(StorageConfig::Memory),
            StorageBackend::Lmdb => {
                match &cli.lmdb_path {
                    Some(p) => Ok(StorageConfig::Lmdb { path: clone_string(p) }),
                    None => {
                        proof {
                            reveal_strlit("lmdb_path");
                        }
                        Err(ConfigError::MissingField("lmdb_path".to_owned()))
                    },
                }
            },
            StorageBackend::S3 => {
                match &cli.s3_bucket {
                    Some(bkt) => Ok(StorageConfig::S3 {
                        bucket: clone_string(bkt),
                        prefix: clone_opt_string(&cli.s3_prefix),
                        region: clone_opt_string(&cli.aws_region),
                    }),
                    None => {
                        proof {
                            reveal_strlit("s3_bucket");
                        }
                        Err(ConfigError::MissingField("s3_bucket".to_owned()))
                    },
                }
            },
        }
    }
}

/// The model of an optional borrowed configuration.
pub open spec fn option_model(c: Option<&Config>) -> Option<Config> {
    match c {
        Some(f) => Some(*f),
        None => None,
    }
}

/// The selected backend's required command-line parameters are present.
pub open spec fn storage_selectable(cli: Cli) -> bool {
    match cli.storage {
        Some(StorageBackend::Lmdb) => cli.lmdb_path is Some,
        Some(StorageBackend::S3) => cli.s3_bucket is Some,
        _ => true,
    }
}

/// The resolved storage section follows the selected backend and carries
/// its command-line parameters.
pub open spec fn storage_ok(cli: Cli, s: StorageConfig) -> bool {
    match cli.effective_storage_spec() {
        StorageBackend::Memory => s is Memory,
        StorageBackend::Lmdb => {
            &&& s matches StorageConfig::Lmdb { path }
            &&& cli.lmdb_path matches Some(p) && path@ == p@
        },
        StorageBackend::S3 => {
            &&& s matches StorageConfig::S3 { bucket, prefix, region }
            &&& cli.s3_bucket matches Some(bk) && bucket@ == bk@
            &&& opt_string_view(prefix) == opt_string_view_owned(cli.s3_prefix)
            &&& opt_string_view(region) == opt_string_view_owned(cli.aws_region)
        },
    }
}

/// The character view of an optional string.
pub open spec fn opt_string_view(o: Option<String>) -> Option<Seq<char>> {
    match o {
        Some(s) => Some(s@),
        None => None,
    }
}

/// The character view of an optional string, by value.
pub open spec fn opt_string_view_owned(o: Option<String>) -> Option<Seq<char>> {
    opt_string_view(o)
}

impl Cli {
    /// The backend in effect, at the model level.
    pub open spec fn effective_storage_spec(&self) -> StorageBackend {
        match self.storage {
            Some(s) => s,
            None => StorageBackend::Memory,
        }
    }
}

/// Copy a string.
pub fn clone_string(s: &String) -> (r: String)
    ensures
        r@ == s@,
{
    s.as_str().to_owned()
}

/// Copy an optional string.
pub fn clone_opt_string(s: &Option<String>) -> (r: Option<String>)
    ensures
        opt_string_view(r) == (match s {
            Some(v) => Some(v@),
            None => None::<Seq<char>>,
        }),
{
    match s {
        Some(v) => Some(clone_string(v)),
        None => None,
    }
}

} // verus!
