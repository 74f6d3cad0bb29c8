//! Resolved configuration as the core consumes it: plain values, already
//! merged from command line and configuration files by the caller.

use vstd::prelude::*;

verus! {

/// How the configured allow-list is applied to classified pairs.
#[derive(Debug, Clone, Copy, PartialEq, Eq, Structural)]
pub enum SearchMode {
    Include,
    Exclude,
}

/// Read-only runtime configuration of the sampling pipeline.
#[derive(Debug, Clone)]
pub struct Config {
    pub min_uss_kb: Option<u64>,
    pub include_names: Vec<String>,
    pub exclude_names: Vec<String>,
    pub parallelism: Option<usize>,
    pub max_processes: Option<usize>,
    pub top_n_subgroup: Option<usize>,
    pub top_n_others: Option<usize>,
    pub disable_others: bool,
    pub search_mode: Option<SearchMode>,
    pub search_list: Vec<String>,
    pub enable_rss: Option<bool>,
    pub enable_pss: Option<bool>,
    pub enable_uss: Option<bool>,
    pub enable_cpu: Option<bool>,
    pub cache_ttl: Option<u64>,
    pub io_buffer_kb: Option<usize>,
    pub smaps_buffer_kb: Option<usize>,
    pub smaps_rollup_buffer_kb: Option<usize>,
}

impl Config {
    /// A configuration with nothing set: every knob at its default.
    pub fn new() -> (r: Config)
        ensures
            r.min_uss_kb is None,
            r.include_names@.len() == 0,
            r.exclude_names@.len() == 0,
            r.parallelism is None,
            r.max_processes is None,
            r.top_n_subgroup is None,
            r.top_n_others is None,
            !r.disable_others,
            r.search_mode is None,
            r.search_list@.len() == 0,
            r.enable_rss is None,
            r.enable_pss is None,
            r.enable_uss is None,
            r.enable_cpu is None,
            r.cache_ttl is None,
            r.io_buffer_kb is None,
            r.smaps_buffer_kb is None,
            r.smaps_rollup_buffer_kb is None,
    {
        Config {
            min_uss_kb: None,
            include_names: Vec::new(),
            exclude_names: Vec::new(),
            parallelism: None,
            max_processes: None,
            top_n_subgroup: None,
            top_n_others: None,
            disable_others: false,
            search_mode: None,
            search_list: Vec::new(),
            enable_rss: None,
            enable_pss: None,
            enable_uss: None,
            enable_cpu: None,
            cache_ttl: None,
            io_buffer_kb: None,
            smaps_buffer_kb: None,
            smaps_rollup_buffer_kb: None,
        }
    }

    /// Effective state of a per-metric-kind enable flag (on by default).
    pub open spec fn flag_on(f: Option<bool>) -> bool {
        f is None || f->0
    }
}

/// A configuration the exporter refuses to start with.
#[derive(Debug, Clone, Copy, PartialEq, Eq, Structural)]
pub enum ConfigError {
    /// Every metric kind is switched off; nothing would ever be exported.
    AllMetricsDisabled,
    /// A search mode is set but the allow-list is empty.
    SearchModeWithoutList,
}

/// Checks the merged configuration once at startup.
///
/// Fails exactly when all four metric kinds are disabled, or a search
/// mode is configured without an allow-list.
pub fn validate_effective_config(cfg: &Config) -> (r: Result<(), ConfigError>)
    ensures
        r == Ok::<(), ConfigError>(()) <==> {
            &&& (Config::flag_on(cfg.enable_rss) || Config::flag_on(cfg.enable_pss)
                || Config::flag_on(cfg.enable_uss) || Config::flag_on(cfg.enable_cpu))
            &&& (cfg.search_mode is Some ==> cfg.search_list@.len() > 0)
        },
        r == Err::<(), ConfigError>(ConfigError::AllMetricsDisabled) <==> {
            &&& !Config::flag_on(cfg.enable_rss)
            &&& !Config::flag_on(cfg.enable_pss)
            &&& !Config::flag_on(cfg.enable_uss)
            &&& !Config::flag_on(cfg.enable_cpu)
        },
{
    let rss_on = match cfg.enable_rss {
        Some(b) => b,
        None => true,
    };
    let pss_on = match cfg.enable_pss {
        Some(b) => b,
        None => true,
    };
    let uss_on = match cfg.enable_uss {
        Some(b) => b,
        None => true,
    };
    let cpu_on = match cfg.enable_cpu {
        Some(b) => b,
        None => true,
    };
    if !rss_on && !pss_on && !uss_on && !cpu_on {
        return Err(ConfigError::AllMetricsDisabled);
    }
    let mode_set = match cfg.search_mode {
        Some(_) => true,
        None => false,
    };
    if mode_set && cfg.search_list.len() == 0 {
        return Err(ConfigError::SearchModeWithoutList);
    }
    Ok(())
}

/// Effective buffer sizes for the three process-table readers, in KiB.
#[derive(Debug, Clone, Copy, PartialEq, Eq, Structural)]
pub struct BufferConfig {
    pub io_kb: usize,
    pub smaps_kb: usize,
    pub smaps_rollup_kb: usize,
}

/// Merges buffer sizes: command line over configuration over defaults.
pub fn resolve_buffer_config(
    cli_io_kb: Option<usize>,
    cli_smaps_kb: Option<usize>,
    cli_smaps_rollup_kb: Option<usize>,
    cfg: &Config,
) -> (r: BufferConfig)
    ensures
        r.io_kb == if cli_io_kb is Some {
            cli_io_kb->0
        } else if cfg.io_buffer_kb is Some {
            cfg.io_buffer_kb->0
        } else {
            256usize
        },
        r.smaps_kb == if cli_smaps_kb is Some {
            cli_smaps_kb->0
        } else if cfg.smaps_buffer_kb is Some {
            cfg.smaps_buffer_kb->0
        } else {
            512usize
        },
        r.smaps_rollup_kb == if cli_smaps_rollup_kb is Some {
            cli_smaps_rollup_kb->0
        } else if cfg.smaps_rollup_buffer_kb is Some {
            cfg.smaps_rollup_buffer_kb->0
        } else {
            256usize
        },
{
    let io_kb = match cli_io_kb {
        Some(v) => v,
        None => match cfg.io_buffer_kb {
            Some(v) => v,
            None => 256,
        },
    };
    let smaps_kb = match cli_smaps_kb {
        Some(v) => v,
        None => match cfg.smaps_buffer_kb {
            Some(v) => v,
            None => 512,
        },
    };
    let smaps_rollup_kb = match cli_smaps_rollup_kb {
        Some(v) => v,
        None => match cfg.smaps_rollup_buffer_kb {
            Some(v) => v,
            None => 256,
        },
    };
    BufferConfig { io_kb, smaps_kb, smaps_rollup_kb }
}

} // verus!
