//! Configuration: what can be set, what it is by default, and where it is read from.

use crate::path::{join_path, joined_path};
use crate::text::{chars_of, trim_white, trimmed, two, CharSet};
use vstd::prelude::*;

verus! {

/// Errors of finding the platform's directories or loading the configuration.
#[derive(Debug)]
pub enum ConfigError {
    /// The platform's directories could not be determined.
    NoProjectDirs,
    /// A source of the configuration could not be read or merged.
    Load(String),
}

impl ConfigError {
    /// What the error says.
    pub fn message(&self) -> (r: String)
        ensures
            r@ == match self {
                ConfigError::NoProjectDirs =>
                    "could not determine platform directories (no valid home directory)"@,
                ConfigError::Load(m) => "failed to load configuration: "@ + m@,
            },
    {
        match self {
            ConfigError::NoProjectDirs =>
                "could not determine platform directories (no valid home directory)".to_owned(),
            ConfigError::Load(m) => two("failed to load configuration: ", m.as_str()),
        }
    }
}

/// Logging-related configuration.
#[derive(Debug, Clone, PartialEq, Eq)]
pub struct LogConfig {
    /// Level filter: `trace` | `debug` | `info` | `warn` | `error`.
    pub level: String,
    /// The log directory, in place of the platform's.
    pub dir: Option<String>,
}

impl Default for LogConfig {
    fn default() -> (r: Self)
        ensures
            r.level@ == "info"@,
            r.dir is None,
    {
        LogConfig { level: "info".to_owned(), dir: None }
    }
}

/// The configuration.
#[derive(Debug, Clone, PartialEq, Eq)]
pub struct Config {
    /// Logging configuration.
    pub log: LogConfig,
}

impl Default for Config {
    fn default() -> (r: Self)
        ensures
            r.log.level@ == "info"@,
            r.log.dir is None,
    {
        Config { log: LogConfig::default() }
    }
}

impl Config {
    /// The log directory: the configured one, else the platform's.
    pub fn log_dir(&self, dirs: &Dirs) -> (r: String)
        ensures
            r@ == match self.log.dir {
                Some(d) => d@,
                None => dirs.log@,
            },
    {
        match &self.log.dir {
            Some(d) => d.clone(),
            None => dirs.log.clone(),
        }
    }
}

/// Command-line arguments that override the configuration.
#[derive(Debug)]
pub struct Cli {
    /// A config file in place of the default one.
    pub config: Option<String>,
    /// Log level filter.
    pub log_level: Option<String>,
    /// Directory for log files.
    pub log_dir: Option<String>,
}

impl Default for Cli {
    fn default() -> (r: Self)
        ensures
            r.config is None,
            r.log_level is None,
            r.log_dir is None,
    {
        Cli { config: None, log_level: None, log_dir: None }
    }
}

impl Cli {
    /// The config file to read: the one that was given, else the default one.
    pub fn config_file(&self, dirs: &Dirs) -> (r: String)
        ensures
            r@ == match self.config {
                Some(p) => p@,
                None => joined_path(dirs.config@, "config.json"@),
            },
    {
        match &self.config {
            Some(p) => p.clone(),
            None => dirs.config_file(),
        }
    }
}

/// `ProjectDirs::from`, and the `config_dir`, `data_dir` and `cache_dir` that it gives; `None`
/// where there is no home directory. Nothing is claimed of the paths: they are read from the
/// environment and differ from platform to platform.
#[verifier::external_body]
fn project_dirs(qualifier: &str, organization: &str, application: &str) -> (r: Option<
    (String, String, String),
>) {
    let dirs = directories::ProjectDirs::from(qualifier, organization, application)?;
    let config = dirs.config_dir().to_string_lossy().into_owned();
    let data = dirs.data_dir().to_string_lossy().into_owned();
    let cache = dirs.cache_dir().to_string_lossy().into_owned();
    Some((config, data, cache))
}

/// The platform's directories. They are named, not created.
#[derive(Debug, Clone)]
pub struct Dirs {
    /// Directory holding the config file.
    pub config: String,
    /// Directory for durable application data.
    pub data: String,
    /// Directory for log files.
    pub log: String,
    /// Directory for disposable caches.
    pub cache: String,
}

/// The names under which the platform finds the directories of the desktop app or of the
/// command line: qualifier, organization and application. The command line has its own, so
/// that it never overwrites what the desktop app keeps.
pub fn app_names(cli: bool) -> (r: (&'static str, &'static str, &'static str))
    ensures
        r.0@ == "com"@,
        r.1@ == "looper"@,
        r.2@ == if cli {
            "LooperCli"@
        } else {
            "Looper"@
        },
{
    if cli {
        ("com", "looper", "LooperCli")
    } else {
        ("com", "looper", "Looper")
    }
}

impl Dirs {
    /// The directories where the platform puts config, data and caches. Logs go below the
    /// data.
    pub fn from_platform(config: String, data: String, cache: String) -> (r: Self)
        ensures
            r.config == config,
            r.data == data,
            r.cache == cache,
            r.log@ == joined_path(data@, "logs"@),
    {
        let log = join_path(data.as_str(), "logs");
        Dirs { config, data, log, cache }
    }

    /// The directories of what the platform gave for config, data and caches, where it gave
    /// anything.
    pub fn from_found(found: Option<(String, String, String)>) -> (r: Result<Self, ConfigError>)
        ensures
            match found {
                Some((config, data, cache)) => {
                    &&& r matches Ok(d)
                    &&& d.config == config
                    &&& d.data == data
                    &&& d.cache == cache
                    &&& d.log@ == joined_path(data@, "logs"@)
                },
                None => r matches Err(e) && e is NoProjectDirs,
            },
    {
        match found {
            Some((config, data, cache)) => Ok(Dirs::from_platform(config, data, cache)),
            None => Err(ConfigError::NoProjectDirs),
        }
    }

    /// The directories of the desktop app, found under its [`app_names`]. Which they are
    /// depends on the environment; it fails only where there is no home directory.
    pub fn resolve() -> (r: Result<Self, ConfigError>)
        ensures
            r matches Ok(d) ==> d.log@ == joined_path(d.data@, "logs"@),
            r matches Err(e) ==> e is NoProjectDirs,
    {
        let (qualifier, organization, application) = app_names(false);
        Dirs::from_found(project_dirs(qualifier, organization, application))
    }

    /// The directories of the command line, found under its own [`app_names`]. Which they are
    /// depends on the environment; it fails only where there is no home directory.
    pub fn resolve_cli() -> (r: Result<Self, ConfigError>)
        ensures
            r matches Ok(d) ==> d.log@ == joined_path(d.data@, "logs"@),
            r matches Err(e) ==> e is NoProjectDirs,
    {
        let (qualifier, organization, application) = app_names(true);
        Dirs::from_found(project_dirs(qualifier, organization, application))
    }

    /// The config file.
    pub fn config_file(&self) -> (r: String)
        ensures
            r@ == joined_path(self.config@, "config.json"@),
    {
        join_path(self.config.as_str(), "config.json")
    }
}

/// Picks a config file: the CLI's own if it is there, else the desktop's if that is there,
/// else the CLI's, for a first write.
pub fn choose_config_file(
    cli: String,
    cli_exists: bool,
    desktop: String,
    desktop_exists: bool,
) -> (r: String)
    ensures
        r == if !cli_exists && desktop_exists {
            desktop
        } else {
            cli
        },
{
    if cli_exists {
        return cli;
    }
    if desktop_exists {
        return desktop;
    }
    cli
}

/// The filter of the log: what `RUST_LOG` says where that is more than white space, else
/// the configured level.
pub fn filter_directive(rust_log: Option<String>, config_level: &str) -> (r: String)
    ensures
        r@ == match rust_log {
            Some(v) => if trim_white(v@).len() > 0 {
                v@
            } else {
                config_level@
            },
            None => config_level@,
        },
{
    match rust_log {
        Some(v) => {
            let cs = chars_of(v.as_str());
            if trimmed(&cs, CharSet::White).len() > 0 {
                v
            } else {
                config_level.to_owned()
            }
        },
        None => config_level.to_owned(),
    }
}

} // verus!
