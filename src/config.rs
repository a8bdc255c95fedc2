//! Settings read from the configuration file and the environment.
use vstd::prelude::*;
use std::path::PathBuf;

verus! {

#[derive(Debug)]
pub struct Config {
    /// path to the Kobo sqlite DB
    pub db_path: Option<PathBuf>,
}

#[derive(Debug, Clone, Copy, PartialEq, Eq, Structural)]
pub enum ConfigError {
    NoDBProvidedError,
}

impl ConfigError {
    pub fn message(&self) -> (r: String)
        ensures
            r@ == "No DB path provided"@,
    {
        "No DB path provided".to_owned()
    }
}

impl Config {
    /// A configuration is usable once it names the database.
    pub fn validate(&self) -> (r: Result<(), ConfigError>)
        ensures
            r is Ok <==> self.db_path is Some,
            r is Err ==> r == Err::<(), ConfigError>(ConfigError::NoDBProvidedError),
    {
        if self.db_path.is_none() {
            return Err(ConfigError::NoDBProvidedError);
        }
        Ok(())
    }
}

} // verus!
