//! How a vault is configured: where its files are stored, where the revision
//! tracker keeps its state, and the storage settings read from environment
//! variables.
use std::path::PathBuf;
use vstd::prelude::*;

use crate::native::path_buf_text_of;
use crate::text::{chars_of, owned};

verus! {

/// Local storage: the vault folder.
#[derive(Debug)]
pub struct LocalStorageConfig {
    pub path: PathBuf,
}

/// Where the vault's files are stored.
#[derive(Debug)]
pub enum StorageConfig {
    Local(LocalStorageConfig),
}

/// The configuration of the vault's storage.
#[derive(Debug)]
pub struct Config {
    pub storage: StorageConfig,
}

/// Builds the parts of a vault from its configuration.
pub struct Builder {
    pub config: Config,
}

impl Builder {
    pub fn new(config: Config) -> (r: Builder)
        ensures
            r.config == config,
    {
        Builder { config }
    }
}

/// Why the configuration could not be read.
#[derive(Debug)]
pub enum ConfigError {
    MissingVar(String),
    UnsupportedStorageType(String),
}

/// The kinds of configuration errors, with the names they carry.
pub enum ConfigFault {
    MissingVar(Seq<char>),
    UnsupportedStorageType(Seq<char>),
}

impl ConfigError {
    pub open spec fn fault(&self) -> ConfigFault {
        match self {
            ConfigError::MissingVar(v) => ConfigFault::MissingVar(v@),
            ConfigError::UnsupportedStorageType(t) => ConfigFault::UnsupportedStorageType(t@),
        }
    }

    /// The message of the error.
    pub open spec fn message(&self) -> Seq<char> {
        match self {
            ConfigError::MissingVar(v) => "missing environment variable: "@ + v@,
            ConfigError::UnsupportedStorageType(t) => "unsupported storage type: "@ + t@,
        }
    }

    /// The message of the error.
    pub fn to_string(&self) -> (r: String)
        ensures
            r@ == self.message(),
    {
        match self {
            ConfigError::MissingVar(v) => {
                let mut s = owned("missing environment variable: ");
                s.append(v.as_str());
                s
            },
            ConfigError::UnsupportedStorageType(t) => {
                let mut s = owned("unsupported storage type: ");
                s.append(t.as_str());
                s
            },
        }
    }
}

/// The in-memory revision tracker, with the file it keeps its state in.
#[derive(Debug)]
pub struct InMemoryRevisionTrackerConfig {
    pub persistence_path: Option<PathBuf>,
}

impl Default for InMemoryRevisionTrackerConfig {
    fn default() -> (r: InMemoryRevisionTrackerConfig)
        ensures
            r.persistence_path is None,
    {
        InMemoryRevisionTrackerConfig { persistence_path: None }
    }
}

/// Which revision tracker a vault uses.
#[derive(Debug)]
pub enum RevisionTrackerConfig {
    InMemory(InMemoryRevisionTrackerConfig),
}

impl Default for RevisionTrackerConfig {
    fn default() -> (r: RevisionTrackerConfig)
        ensures
            r matches RevisionTrackerConfig::InMemory(c) && c.persistence_path is None,
    {
        RevisionTrackerConfig::InMemory(InMemoryRevisionTrackerConfig { persistence_path: None })
    }
}

/// The value of the variable named `key`: that of its last entry.
pub open spec fn var_value(vars: Seq<(String, String)>, key: Seq<char>) -> Option<Seq<char>>
    decreases vars.len(),
{
    if vars.len() == 0 {
        None
    } else if vars.last().0@ == key {
        Some(vars.last().1@)
    } else {
        var_value(vars.drop_last(), key)
    }
}

fn var_lookup(vars: &Vec<(String, String)>, key: &str) -> (r: Option<String>)
    ensures
        match r {
            Some(v) => var_value(vars@, key@) == Some(v@),
            None => var_value(vars@, key@) is None,
        },
{
    let kv = chars_of(key);
    let mut i = vars.len();
    assert(vars@.take(i as int) =~= vars@);
    while i > 0
        invariant
            i <= vars@.len(),
            kv@ == key@,
            var_value(vars@, key@) == var_value(vars@.take(i as int), key@),
        decreases i,
    {
        let name = chars_of(vars[i - 1].0.as_str());
        assert(vars@.take(i as int).drop_last() =~= vars@.take(i - 1));
        assert(vars@.take(i as int).last() == vars@[i - 1]);
        let same = name.len() == kv.len() && crate::text::range_eq(&name, 0, name.len(), &kv, 0, kv.len());
        assert(name@.subrange(0, name.len() as int) =~= name@);
        assert(kv@.subrange(0, kv.len() as int) =~= kv@);
        if same {
            return Some(vars[i - 1].1.clone());
        }
        i = i - 1;
    }
    None
}

/// The storage settings the variables give: `STORAGE__TYPE` must be set and
/// be `local`, and then `STORAGE__PATH` names the vault folder.
pub fn storage_config(vars: &Vec<(String, String)>) -> (r: Result<StorageConfig, ConfigError>)
    ensures
        match var_value(vars@, "STORAGE__TYPE"@) {
            None => r matches Err(e) && e.fault() == ConfigFault::MissingVar("STORAGE__TYPE"@),
            Some(t) => if t == "local"@ {
                match var_value(vars@, "STORAGE__PATH"@) {
                    None => r matches Err(e) && e.fault() == ConfigFault::MissingVar("STORAGE__PATH"@),
                    Some(p) => r matches Ok(StorageConfig::Local(c)) && path_buf_text_of(&c.path) == p,
                }
            } else {
                r matches Err(e) && e.fault() == ConfigFault::UnsupportedStorageType(t)
            },
        },
{
    let t = match var_lookup(vars, "STORAGE__TYPE") {
        None => {
            return Err(ConfigError::MissingVar(owned("STORAGE__TYPE")));
        },
        Some(t) => t,
    };
    let tv = chars_of(t.as_str());
    assert(tv@.subrange(0, tv.len() as int) =~= tv@);
    if crate::text::range_is(&tv, 0, tv.len(), "local") {
        match var_lookup(vars, "STORAGE__PATH") {
            None => Err(ConfigError::MissingVar(owned("STORAGE__PATH"))),
            Some(p) => Ok(StorageConfig::Local(LocalStorageConfig { path: crate::native::path_buf_from(p.as_str()) })),
        }
    } else {
        Err(ConfigError::UnsupportedStorageType(t))
    }
}

/// How much the server logs.
#[derive(Debug, Clone, Copy, PartialEq, Eq, Structural)]
pub enum LogLevel {
    Trace,
    Debug,
    Info,
    Warn,
    Error,
}

impl LogLevel {
    /// The filter directive of the level.
    pub fn as_filter(&self) -> (r: &'static str)
        ensures
            r@ == match self {
                LogLevel::Trace => "trace"@,
                LogLevel::Debug => "debug"@,
                LogLevel::Info => "info"@,
                LogLevel::Warn => "warn"@,
                LogLevel::Error => "error"@,
            },
    {
        match self {
            LogLevel::Trace => "trace",
            LogLevel::Debug => "debug",
            LogLevel::Info => "info",
            LogLevel::Warn => "warn",
            LogLevel::Error => "error",
        }
    }
}

/// A configuration that builds the component it describes.
pub trait Buildable {
    type Target;
    type Error;

    fn build(&self) -> Result<Self::Target, Self::Error>;
}

/// A component that saves its state to a file and loads it back.
pub trait Persistable: Sized {
    type Error;

    /// Saves the state to `path`.
    fn save(&self, path: &std::path::Path) -> Result<(), Self::Error>;

    /// Loads the state from `path`: `Ok(true)` when it was loaded, `Ok(false)`
    /// when there is no file or its version is not this one, an error only for
    /// a failure to read or decode it.
    fn load(&mut self, path: &std::path::Path) -> Result<bool, Self::Error>;
}

} // verus!
