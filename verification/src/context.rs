//! The command line's arguments, and what of them readers and writers see.

use vstd::prelude::*;

use crate::registry::{ReaderFormat, WriterFormat};

verus! {

/// The arguments of a conversion.
#[derive(Debug)]
pub struct Cli {
    /// The dictionary to read.
    pub input: String,
    /// The dictionary to write.
    pub output: String,
    /// The format to read, where the input's extension does not say.
    pub rformat: Option<ReaderFormat>,
    /// The format to write, where the output's extension does not say.
    pub wformat: Option<WriterFormat>,
    /// A name that replaces the dictionary's.
    pub name: Option<String>,
    /// A pattern to strip from every definition.
    pub strip_pattern: Option<String>,
    /// Whether to log verbosely.
    pub verbose: bool,
}

/// The formats of a conversion.
#[derive(Debug, Clone, Copy)]
pub struct Config {
    pub rformat: Option<ReaderFormat>,
    pub wformat: Option<WriterFormat>,
}

impl Default for Config {
    fn default() -> (r: Self)
        ensures
            r.rformat is None,
            r.wformat is None,
    {
        Config { rformat: None, wformat: None }
    }
}

impl Config {
    /// The formats the arguments name.
    pub fn from_cli(args: &Cli) -> (r: Self)
        ensures
            r.rformat == args.rformat,
            r.wformat == args.wformat,
    {
        Self { rformat: args.rformat, wformat: args.wformat }
    }
}

/// What readers and writers are given besides the dictionary.
#[derive(Debug)]
pub struct Context {
    pub config: Config,
}

impl Default for Context {
    fn default() -> (r: Self)
        ensures
            r.config.rformat is None,
            r.config.wformat is None,
    {
        Context { config: Config::default() }
    }
}

impl Context {
    /// The context of a configuration.
    pub fn from_config(config: Config) -> (r: Self)
        ensures
            r.config == config,
    {
        Self { config }
    }
}

} // verus!
