use axdot::config::Config;
use axdot::config::ConfigFormat;

#[test]
fn format_from_str_known_names() {
    assert_eq!(ConfigFormat::from_str("json"), Some(ConfigFormat::JSON));
    assert_eq!(ConfigFormat::from_str("JSON"), Some(ConfigFormat::JSON));
    assert_eq!(ConfigFormat::from_str("yaml"), Some(ConfigFormat::YAML));
    assert_eq!(ConfigFormat::from_str("Yml"), Some(ConfigFormat::YAML));
    assert_eq!(ConfigFormat::from_str("toml"), Some(ConfigFormat::TOML));
    assert_eq!(ConfigFormat::from_str("TOML"), Some(ConfigFormat::TOML));
}

#[test]
fn format_from_str_unknown_names() {
    assert_eq!(ConfigFormat::from_str(""), None);
    assert_eq!(ConfigFormat::from_str("jsonx"), None);
    assert_eq!(ConfigFormat::from_str("ya ml"), None);
    assert_eq!(ConfigFormat::from_str("tom"), None);
}

#[test]
fn format_from_path_by_extension() {
    assert_eq!(
        ConfigFormat::from_path("axdot.yaml"),
        Some(ConfigFormat::YAML)
    );
    assert_eq!(
        ConfigFormat::from_path("/etc/conf.d/tool.JSON"),
        Some(ConfigFormat::JSON)
    );
    assert_eq!(
        ConfigFormat::from_path("dir.v2/setup.toml"),
        Some(ConfigFormat::TOML)
    );
    assert_eq!(
        ConfigFormat::from_path("a.tar.yml"),
        Some(ConfigFormat::YAML)
    );
}

#[test]
fn format_from_path_without_usable_extension() {
    assert_eq!(ConfigFormat::from_path("noext"), None);
    assert_eq!(ConfigFormat::from_path(".bashrc"), None);
    assert_eq!(ConfigFormat::from_path("trailing."), None);
    assert_eq!(ConfigFormat::from_path("conf.txt"), None);
    assert_eq!(ConfigFormat::from_path(""), None);
    assert_eq!(ConfigFormat::from_path("dir.d/noext"), None);
}

#[test]
fn new_config_is_empty_but_for_one_empty_command() {
    let c = Config::new();
    assert!(c.directories.is_empty());
    assert!(c.files.is_empty());
    assert!(c.links.is_empty());
    assert!(c.copy.is_empty());
    assert!(c.archives.is_empty());
    assert_eq!(c.commands.len(), 1);
    assert!(c.commands[0].is_empty());
}
