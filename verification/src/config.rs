//! The settings of a crawl.

use vstd::prelude::*;

verus! {

/// The settings that a crawl needs from its environment.
#[derive(Debug, Clone, PartialEq, Eq)]
pub struct Config {
    /// The key that authorises requests to the game API.
    pub api_key: String,
    /// Where the archive is kept.
    pub database_url: String,
}

impl Config {
    /// The settings, from the values that the environment holds for
    /// `CLASH_ROYALE_API_KEY` and `DATABASE_URL`. Both must be set.
    pub fn from_env(api_key: Option<String>, database_url: Option<String>) -> (config: Config)
        requires
            api_key is Some,
            database_url is Some,
        ensures
            api_key == Some(config.api_key),
            database_url == Some(config.database_url),
    {
        Config { api_key: api_key.unwrap(), database_url: database_url.unwrap() }
    }
}

} // verus!
