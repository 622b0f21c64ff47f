//! The configuration of a run.

use vstd::prelude::*;

verus! {

/// What to back up, and where to put the archive.
pub struct Config {
    /// The files and directories to back up, in the order in which they are
    /// gone through.
    pub input_paths: Vec<String>,
    /// The directory that receives the archive.
    pub output_path: String,
}

/// How loading the configuration file went.
pub enum Loaded {
    /// The file could not be read; the text says why.
    Unreadable(String),
    /// The file was read, but its text is not a configuration; the text says
    /// why.
    Malformed(String),
    /// The file held this configuration.
    Parsed(Config),
}

/// Why there is no configuration. Either way the run ends.
pub enum ConfigError {
    /// The file could not be read; the text says why.
    Load(String),
    /// The text of the file is not a configuration; the text says why.
    Parse(String),
}

/// The message for a configuration file that could not be read.
pub open spec fn load_failure(reason: Seq<char>) -> Seq<char> {
    "Config loading failed."@ + "\n"@ + reason
}

/// The message for a configuration file whose text is not a configuration.
pub open spec fn parse_failure(reason: Seq<char>) -> Seq<char> {
    "Config parsing failed."@ + "\n"@ + reason
}

impl ConfigError {
    /// The message for the user.
    pub open spec fn text(self) -> Seq<char> {
        match self {
            ConfigError::Load(reason) => load_failure(reason@),
            ConfigError::Parse(reason) => parse_failure(reason@),
        }
    }

    /// The message for the user: the step that failed and, on a line of its
    /// own, the reason.
    pub fn message(&self) -> (message: String)
        ensures
            message@ == self.text(),
    {
        match self {
            ConfigError::Load(reason) => {
                let mut message = String::from_str("Config loading failed.");
                message.append("\n");
                message.append(reason.as_str());
                message
            },
            ConfigError::Parse(reason) => {
                let mut message = String::from_str("Config parsing failed.");
                message.append("\n");
                message.append(reason.as_str());
                message
            },
        }
    }
}

/// The configuration, where loading gave one; else the error that ends the
/// run, with the reason for it.
pub fn get_config(loaded: Loaded) -> (result: Result<Config, ConfigError>)
    ensures
        match loaded {
            Loaded::Parsed(config) => result == Ok::<Config, ConfigError>(config),
            Loaded::Unreadable(reason) => result == Err::<Config, ConfigError>(
                ConfigError::Load(reason),
            ),
            Loaded::Malformed(reason) => result == Err::<Config, ConfigError>(
                ConfigError::Parse(reason),
            ),
        },
{
    match loaded {
        Loaded::Parsed(config) => Ok(config),
        Loaded::Unreadable(reason) => Err(ConfigError::Load(reason)),
        Loaded::Malformed(reason) => Err(ConfigError::Parse(reason)),
    }
}

} // verus!
