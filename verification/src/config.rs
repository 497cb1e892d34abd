//! Plain configuration data and the runtime-environment name.
use vstd::prelude::*;

use crate::text::str_eq;

verus! {

/// Runtime environment
#[derive(Debug, Copy, Clone, PartialEq, Eq, Structural)]
pub enum Environment {
    /// Development
    Development,
    /// Production
    Production,
}

impl Environment {
    /// Parses an environment name; only the two known names are accepted.
    pub fn parse(s: &str) -> (r: Result<Environment, crate::ApiError>)
        ensures
            match r {
                Ok(Environment::Development) => s@ == "development"@,
                Ok(Environment::Production) => s@ == "production"@,
                Err(_) => s@ != "development"@ && s@ != "production"@,
            },
    {
        if str_eq(s, "development") {
            Ok(Environment::Development)
        } else if str_eq(s, "production") {
            Ok(Environment::Production)
        } else {
            Err(crate::ApiError::Invalid)
        }
    }

    /// The environment's name.
    pub fn name(&self) -> (r: String)
        ensures
            *self == Environment::Development ==> r@ == "development"@,
            *self == Environment::Production ==> r@ == "production"@,
    {
        match self {
            Environment::Development => String::from_str("development"),
            Environment::Production => String::from_str("production"),
        }
    }
}

/// PostgresConfig
#[derive(Clone, Debug, PartialEq, Eq)]
pub struct PostgresConfig {
    /// The DSN for the database. Currently, only PostgreSQL is supported.
    pub db_dsn: String,
    /// The maximum number of connections for the PostgreSQL pool.
    pub db_pool_max_size: u32,
}

/// Broker connection configuration.
#[derive(Clone, Debug, PartialEq, Eq)]
pub struct NatsConfig {
    /// Broker URL.
    pub nats_url: String,
}

/// One durable stream's configuration.
#[derive(Clone, Debug, PartialEq, Eq)]
pub struct StreamConfig {
    /// Stream name.
    pub name: String,
    /// Subjects bound to the stream.
    pub subjects: Vec<String>,
    /// Storage ceiling in bytes.
    pub max_bytes: i64,
}

} // verus!
