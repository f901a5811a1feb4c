use backend_frontend::config::{default_backend_port, Config, ConfigError, DEFAULT_BACKEND_PORT};

#[test]
fn default_port_is_8080() {
    assert_eq!(default_backend_port(), 8080);
    assert_eq!(DEFAULT_BACKEND_PORT, 8080);
}

#[test]
fn parse_a_complete_file() {
    let cfg = Config::parse(
        "plugin_host=localhost\nplugin_port=8081\napi_key=abc123\nbackend_port=9090\n",
    )
    .expect("well-formed configuration");
    assert_eq!(cfg.plugin_host, "localhost");
    assert_eq!(cfg.plugin_port, 8081);
    assert_eq!(cfg.api_key, "abc123");
    assert_eq!(cfg.backend_port, 9090);
}

#[test]
fn backend_port_defaults_when_absent() {
    let cfg = Config::parse("plugin_host=h\nplugin_port=1\napi_key=k\n").expect("valid");
    assert_eq!(cfg.backend_port, 8080);
}

#[test]
fn blanks_comments_and_carriage_returns_are_tolerated() {
    let cfg = Config::parse(
        "# the upstream plugin\r\n\r\n  plugin_host =  example.org  \r\n\tplugin_port=25565\r\napi_key = k e y \r\n",
    )
    .expect("valid");
    assert_eq!(cfg.plugin_host, "example.org");
    assert_eq!(cfg.plugin_port, 25565);
    assert_eq!(cfg.api_key, "k e y");
}

#[test]
fn lines_without_equals_and_unknown_keys_are_ignored() {
    let cfg = Config::parse(
        "just some words\nplugin_host=h\ncolour=blue\nplugin_port=2\napi_key=k\n",
    )
    .expect("valid");
    assert_eq!(cfg.plugin_host, "h");
}

#[test]
fn a_repeated_key_keeps_its_last_value() {
    let cfg =
        Config::parse("plugin_host=first\nplugin_host=second\nplugin_port=2\napi_key=k").expect("valid");
    assert_eq!(cfg.plugin_host, "second");
}

#[test]
fn missing_required_keys_are_reported_in_order() {
    assert_eq!(
        Config::parse("plugin_port=2\napi_key=k").err(),
        Some(ConfigError::MissingPluginHost)
    );
    assert_eq!(
        Config::parse("plugin_host=h\napi_key=k").err(),
        Some(ConfigError::MissingPluginPort)
    );
    assert_eq!(
        Config::parse("plugin_host=h\nplugin_port=2").err(),
        Some(ConfigError::MissingApiKey)
    );
    assert_eq!(Config::parse("").err(), Some(ConfigError::MissingPluginHost));
}

#[test]
fn malformed_ports_are_rejected() {
    assert_eq!(
        Config::parse("plugin_host=h\nplugin_port=x\napi_key=k").err(),
        Some(ConfigError::InvalidPluginPort)
    );
    assert_eq!(
        Config::parse("plugin_host=h\nplugin_port=70000\napi_key=k").err(),
        Some(ConfigError::InvalidPluginPort)
    );
    assert_eq!(
        Config::parse("plugin_host=h\nplugin_port=2\napi_key=k\nbackend_port=-1").err(),
        Some(ConfigError::InvalidBackendPort)
    );
    assert_eq!(
        Config::parse("plugin_host=h\nplugin_port=2\napi_key=k\nbackend_port=").err(),
        Some(ConfigError::InvalidBackendPort)
    );
}

#[test]
fn a_bad_port_line_rejects_even_with_later_keys_present() {
    // Processing stops at the first broken line.
    assert_eq!(
        Config::parse("plugin_port=bad\nplugin_host=h\napi_key=k").err(),
        Some(ConfigError::InvalidPluginPort)
    );
}

#[test]
fn a_port_may_carry_a_leading_plus() {
    let cfg = Config::parse("plugin_host=h\nplugin_port=+25565\napi_key=k").expect("valid");
    assert_eq!(cfg.plugin_port, 25565);
}

#[test]
fn error_messages_name_the_offending_key() {
    assert_eq!(ConfigError::InvalidPluginPort.message(), "Invalid plugin_port");
    assert_eq!(ConfigError::InvalidBackendPort.message(), "Invalid backend_port");
    assert_eq!(ConfigError::MissingPluginHost.message(), "Missing plugin_host");
    assert_eq!(ConfigError::MissingPluginPort.message(), "Missing plugin_port");
    assert_eq!(ConfigError::MissingApiKey.message(), "Missing api_key");
}

#[test]
fn port_boundaries_are_exact() {
    let cfg = Config::parse("plugin_host=h\nplugin_port=65535\napi_key=k").expect("valid");
    assert_eq!(cfg.plugin_port, 65535);
    assert_eq!(
        Config::parse("plugin_host=h\nplugin_port=65536\napi_key=k").err(),
        Some(ConfigError::InvalidPluginPort)
    );
    let cfg = Config::parse("plugin_host=h\nplugin_port=0\napi_key=k").expect("valid");
    assert_eq!(cfg.plugin_port, 0);
    let cfg = Config::parse("plugin_host=h\nplugin_port=007\napi_key=k").expect("valid");
    assert_eq!(cfg.plugin_port, 7);
}

#[test]
fn values_may_contain_further_equals_signs() {
    // The line splits at the first equals sign only.
    let cfg = Config::parse("plugin_host=h\nplugin_port=2\napi_key=a=b=c").expect("valid");
    assert_eq!(cfg.api_key, "a=b=c");
}
