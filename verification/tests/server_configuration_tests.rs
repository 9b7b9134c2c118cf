use rust_graphql_kata_001_web::configuration::{ConfigError, Setting};
use rust_graphql_kata_001_web::server_configuration::Configuration;

#[test]
fn the_http_server_section_is_all_it_needs() {
    let environment = vec![
        ("APP__HTTP_SERVER__HOST".to_string(), "0.0.0.0".to_string()),
        ("APP__HTTP_SERVER__PORT".to_string(), "8000".to_string()),
    ];
    let configuration = Configuration::load(&environment, &[]).unwrap();
    assert_eq!(configuration.http_server.host, "0.0.0.0");
    assert_eq!(configuration.http_server.port, 8000);
    assert_eq!(configuration.http_server.address(), "0.0.0.0:8000");

    let overridden = Configuration::load(&environment, &[("http_server.port", "0")]).unwrap();
    assert_eq!(overridden.http_server.port, 0);
}

#[test]
fn its_faults_are_reported() {
    assert_eq!(
        Configuration::load(&[], &[]).err(),
        Some(ConfigError::Missing(Setting::HttpServer))
    );
    assert_eq!(
        Configuration::load(&[], &[("http_server.host", "h")]).err(),
        Some(ConfigError::Missing(Setting::HttpServerPort))
    );
    assert_eq!(
        Configuration::load(&[], &[("http_server.host", "h"), ("bad key!", "x")]).err(),
        Some(ConfigError::InvalidOverrideKey(1))
    );
}
