//! The command-line surface as plain data: verbosity levels, output
//! formats, subcommands, and the request-handler error. Parsing the
//! actual arguments is the caller's work; these are the values it
//! hands in.

use vstd::prelude::*;

verus! {

/// Requested logging verbosity.
#[derive(Debug, Clone, Copy, PartialEq, Eq, Structural)]
pub enum LogLevel {
    Off,
    Error,
    Warn,
    Info,
    Debug,
    Trace,
}

impl LogLevel {
    /// The severity the logging subsystem is actually set to: the
    /// "off" request is mapped to errors-only, every other level
    /// stands as requested.
    pub fn effective(&self) -> (r: LogLevel)
        ensures
            r == (if *self is Off {
                LogLevel::Error
            } else {
                *self
            }),
    {
        match self {
            LogLevel::Off => LogLevel::Error,
            LogLevel::Error => LogLevel::Error,
            LogLevel::Warn => LogLevel::Warn,
            LogLevel::Info => LogLevel::Info,
            LogLevel::Debug => LogLevel::Debug,
            LogLevel::Trace => LogLevel::Trace,
        }
    }
}

/// Output format for configuration rendering.
#[derive(Debug, Clone, Copy, PartialEq, Eq, Structural)]
pub enum ConfigFormat {
    Yaml,
    Json,
    Toml,
}

/// The subcommands the exporter accepts besides serving.
#[derive(Debug, Clone)]
pub enum Commands {
    /// Validate configuration and system requirements.
    Check { memory: bool, proc: bool, all: bool },
    /// Generate a configuration file.
    Config { output: Option<String>, format: ConfigFormat, commented: bool },
    /// Run the collection pipeline without serving.
    Test { iterations: usize, verbose: bool, format: ConfigFormat },
    /// List the available subgroups.
    Subgroups { verbose: bool, group: Option<String> },
    /// Write a synthetic sample file.
    GenerateTestdata { output: String, min_per_subgroup: usize, others_count: usize },
}

/// Why a metrics request failed.
#[derive(Debug, Clone, Copy, PartialEq, Eq, Structural)]
pub enum MetricsError {
    /// The exposition encoder rejected the gathered families.
    EncodingFailed,
}

} // verus!
