//! Tests of the configuration data and the view helpers.

use poll::app::Cli;
use poll::conf::resolve_file_name;
use poll::conf::ApplicationConfiguration;
use poll::conf::Configuration;
use poll::conf::ConfigurationBuilder;
use poll::conf::CookieConfiguration;
use poll::conf::DatabaseConfiguration;
use poll::conf::FlashLevel;
use poll::conf::RunMode;
use poll::conf::TracingConfiguration;
use poll::view::BestItemView;

#[test]
fn conf_builder_defaults() {
    let builder = ConfigurationBuilder::default();
    assert_eq!(builder.env_prefix, "POLL");
    assert_eq!(builder.env_run_mode, "POLL_RUN_MODE");
    assert_eq!(builder.config_directory, "conf");
    assert_eq!(builder.config_base_name, "base");
}

#[test]
fn conf_builder_directory_override() {
    let mut builder = ConfigurationBuilder::default();
    builder.config_directory("elsewhere".to_string());
    assert_eq!(builder.config_directory, "elsewhere");
    assert_eq!(builder.env_prefix, "POLL");
}

#[test]
fn conf_resolve_file_name_joins() {
    assert_eq!(
        resolve_file_name(&"/srv/poll/conf".to_string(), &"base".to_string()),
        "/srv/poll/conf/base"
    );
    assert_eq!(
        resolve_file_name(&"conf/".to_string(), &"local".to_string()),
        "conf/local"
    );
    assert_eq!(resolve_file_name(&"".to_string(), &"base".to_string()), "/base");
}

#[test]
fn conf_run_mode_names() {
    assert_eq!(RunMode::Local.as_str(), "local");
    assert_eq!(RunMode::Production.as_str(), "production");
    assert_eq!(RunMode::from_name(&"local".to_string()), Some(RunMode::Local));
    assert_eq!(
        RunMode::from_name(&"production".to_string()),
        Some(RunMode::Production)
    );
    assert_eq!(RunMode::from_name(&"staging".to_string()), None);
}

#[test]
fn conf_getters_return_what_was_set() {
    let configuration = Configuration::new(
        ApplicationConfiguration {
            host: "127.0.0.1".to_string(),
            port: 8000,
            url: "http://127.0.0.1:8000".to_string(),
            flash_message_minimum_level: FlashLevel::Info,
        },
        CookieConfiguration {
            signing_key: "0123456789abcdef0123456789abcdef0123456789abcdef0123456789abcdef"
                .to_string(),
            session_cookie_name: "session".to_string(),
            flash_message_cookie_name: "flash".to_string(),
        },
        DatabaseConfiguration {
            require_ssl: false,
            host: "localhost".to_string(),
            port: 3306,
            username: "poll".to_string(),
            password: "secret".to_string(),
            database: "poll".to_string(),
        },
        TracingConfiguration {
            service_name: "poll".to_string(),
            log_level: "info".to_string(),
            jaeger_endpoint: None,
        },
    );
    assert_eq!(configuration.application().url(), "http://127.0.0.1:8000");
    assert_eq!(
        configuration.application().flash_message_minimum_level(),
        FlashLevel::Info
    );
    assert_eq!(configuration.cookie().session_cookie_name(), "session");
    assert_eq!(configuration.cookie().flash_message_cookie_name(), "flash");
    assert!(!configuration.database().require_ssl());
    assert_eq!(configuration.database().host(), "localhost");
    assert_eq!(configuration.database().port(), 3306);
    assert_eq!(configuration.database().username(), "poll");
    assert_eq!(configuration.database().database(), "poll");
    assert_eq!(configuration.tracing().service_name(), "poll");
    assert_eq!(configuration.tracing().log_level(), "info");
    assert!(configuration.tracing().jaeger_endpoint().is_none());
}

#[test]
fn conf_notification_classes() {
    assert_eq!(
        FlashLevel::Debug.notification_class(),
        "notification m-1 p-2 is-link"
    );
    assert_eq!(
        FlashLevel::Info.notification_class(),
        "notification m-1 p-2 is-info"
    );
    assert_eq!(
        FlashLevel::Success.notification_class(),
        "notification m-1 p-2 is-success"
    );
    assert_eq!(
        FlashLevel::Warning.notification_class(),
        "notification m-1 p-2 is-warning"
    );
    assert_eq!(
        FlashLevel::Error.notification_class(),
        "notification m-1 p-2 is-danger"
    );
}

#[test]
fn conf_best_item_view_holds_item() {
    let view = BestItemView::new(None);
    assert!(view.best_item.is_none());
}

#[test]
fn conf_cli_getters() {
    let cli = Cli {
        config: Some("conf".to_string()),
        migrate: None,
    };
    assert_eq!(cli.config(), &Some("conf".to_string()));
    assert_eq!(cli.migrate(), &None);
}
