//! Server configuration and its defaults.
use vstd::prelude::*;

verus! {

/// Logging options.
#[derive(Debug, Clone)]
pub struct TracingConfig {
    pub format: String,
    pub level: String,
}

/// Configuration structures
#[derive(Debug, Clone)]
pub struct Config {
    pub main_port: u16,
    pub control_port: u16,
    pub tracing: TracingConfig,
    pub welcome_message: String,
}

/// The default port for game logic.
pub fn default_main_port() -> (p: u16)
    ensures
        p == 8080,
{
    8080
}

/// The default port for the first connection and ping.
pub fn default_sub_port() -> (p: u16)
    ensures
        p == 27888,
{
    27888
}

pub fn default_format() -> (s: String)
    ensures
        s@ == "compact"@,
{
    String::from_str("compact")
}

pub fn default_level() -> (s: String)
    ensures
        s@ == "info"@,
{
    String::from_str("info")
}

pub fn default_welcome_message() -> (s: String)
    ensures
        s@ == "Welcome to the Kaillera server!"@,
{
    String::from_str("Welcome to the Kaillera server!")
}

impl Default for TracingConfig {
    fn default() -> (c: Self)
        ensures
            c.format@ == "compact"@,
            c.level@ == "info"@,
    {
        Self { format: default_format(), level: default_level() }
    }
}

impl Default for Config {
    fn default() -> (c: Self)
        ensures
            c.main_port == 8080,
            c.control_port == 27888,
            c.tracing.format@ == "compact"@,
            c.tracing.level@ == "info"@,
            c.welcome_message@ == "Welcome to the Kaillera server!"@,
    {
        Self {
            main_port: default_main_port(),
            control_port: default_sub_port(),
            tracing: TracingConfig::default(),
            welcome_message: default_welcome_message(),
        }
    }
}

} // verus!
