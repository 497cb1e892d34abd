//! Runtime-environment names and plain configuration data.
use sellershut::config::{Environment, PostgresConfig};

#[test]
fn environment_names_roundtrip() {
    assert_eq!(Environment::parse("development"), Ok(Environment::Development));
    assert_eq!(Environment::parse("production"), Ok(Environment::Production));
    assert!(Environment::parse("staging").is_err());
    assert!(Environment::parse("Development").is_err());
    assert_eq!(Environment::Development.name(), "development");
    assert_eq!(Environment::Production.name(), "production");
    assert_eq!(Environment::parse(&Environment::Production.name()), Ok(Environment::Production));
}

#[test]
fn config_holds_plain_values() {
    let pg = PostgresConfig { db_dsn: "postgres://localhost/app".to_string(), db_pool_max_size: 8 };
    assert_eq!(pg.db_pool_max_size, 8);
}
