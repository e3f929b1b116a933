//! The run's configuration, built once and handed by reference into each
//! component: no hidden global state.
use vstd::prelude::*;

verus! {

/// The options the replay run is driven by: verbosity flags, the input log
/// path and the destination connection string.
#[derive(Debug, Clone)]
pub struct Config {
    pub verbose: bool,
    pub silent: bool,
    pub input: String,
    pub redis: String,
}

impl Config {
    /// The default configuration: normal logging, an empty input path, and
    /// the local default destination.
    pub fn init() -> (c: Config)
        ensures
            !c.verbose,
            !c.silent,
            c.input@ == Seq::<char>::empty(),
            c.redis@ == "redis://127.0.0.1:6379"@,
    {
        Config {
            verbose: false,
            silent: false,
            input: String::new(),
            redis: "redis://127.0.0.1:6379".to_owned(),
        }
    }

    /// A configuration with every option given.
    pub fn new(verbose: bool, silent: bool, input: String, redis: String) -> (c: Config)
        ensures
            c.verbose == verbose,
            c.silent == silent,
            c.input == input,
            c.redis == redis,
    {
        Config { verbose, silent, input, redis }
    }

    pub fn is_verbose(&self) -> (r: bool)
        ensures
            r == self.verbose,
    {
        self.verbose
    }

    pub fn is_silent(&self) -> (r: bool)
        ensures
            r == self.silent,
    {
        self.silent
    }

    /// The path of the monitor log to replay.
    pub fn input(&self) -> (r: &String)
        ensures
            *r == self.input,
    {
        &self.input
    }

    /// The destination connection string.
    pub fn redis(&self) -> (r: &String)
        ensures
            *r == self.redis,
    {
        &self.redis
    }
}

/// How the sink establishes its connection: bounded exponential backoff,
/// exposed as configuration rather than constants buried in the caller.
#[derive(Debug, Clone, Copy, PartialEq, Eq, Structural)]
pub struct BackoffConfig {
    /// Base of the exponential delay growth between attempts.
    pub exponent_base: u64,
    /// First delay between attempts, in milliseconds.
    pub min_delay_millis: u64,
    /// How many times the connection is retried before giving up.
    pub number_of_retries: usize,
}

impl BackoffConfig {
    /// The documented default: up to 6 retries, doubling from 100 ms.
    pub fn new() -> (c: BackoffConfig)
        ensures
            c.exponent_base == 2,
            c.min_delay_millis == 100,
            c.number_of_retries == 6,
    {
        BackoffConfig { exponent_base: 2, min_delay_millis: 100, number_of_retries: 6 }
    }
}

} // verus!
